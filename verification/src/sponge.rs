//! The sponge: padding, absorption of 136-byte blocks into the rate portion
//! of the state, and the squeeze of a 32-byte digest.
//!
//! The padding sets bit 7 of the first byte after the input and bit 0 of the
//! last byte of the buffer. The published Keccak-256 vectors are computed
//! with the two markers the other way round (bit 0 first, bit 7 last), so the
//! digests of this sponge are not those: it shares with them the permutation,
//! the absorption and the squeeze.

use vstd::prelude::*;
use crate::bijection::{lemma_keccak_f_injective, lemma_keccak_f_len};
use crate::lane::{lane_byte, lane_of_bytes, lemma_bytes_round_trip, u64_to_u8s, u8s_to_u64};
use crate::permutation::{keccak_f, keccakf};

verus! {

/// Bytes in one block: the rate of 1088 bits.
pub const RATE_BYTES: usize = 136;

/// Lanes in one block.
pub const RATE_LANES: usize = 17;

/// Bytes in a digest.
pub const DIGEST_BYTES: usize = 32;

/// Number of blocks in the padded form of an input of `len` bytes.
pub open spec fn block_count(len: nat) -> nat {
    len / 136 + 1
}

/// Byte `i` of the padded form of `input`: the input's byte or zero, with bit
/// 7 set at the first byte after the input and bit 0 set at the last byte of
/// the buffer.
pub open spec fn padded_byte(input: Seq<u8>, i: int) -> u8 {
    let data: u8 = if i < input.len() { input[i] } else { 0 };
    let start: u8 = if i == input.len() { 0x80 } else { 0 };
    let end: u8 = if i == block_count(input.len()) * 136 - 1 { 0x01 } else { 0 };
    data | start | end
}

/// The padded form of `input`: whole blocks, at least one byte longer than
/// the input.
pub open spec fn padded(input: Seq<u8>) -> Seq<u8> {
    Seq::new(block_count(input.len()) * 136, |i: int| padded_byte(input, i))
}

/// Block `k` of a buffer of whole blocks.
pub open spec fn block_of(buf: Seq<u8>, k: nat) -> Seq<u8> {
    buf.subrange(136 * (k as int), 136 * (k as int) + 136)
}

/// Lane `j` of a block: eight bytes, least significant first.
pub open spec fn block_lane(block: Seq<u8>, j: int) -> u64 {
    lane_of_bytes(block.subrange(8 * j, 8 * j + 8))
}

/// The state with a block added to its rate portion: lanes 0 to 16 receive
/// the block's lanes, lanes 17 to 24 stay.
pub open spec fn with_block(state: Seq<u64>, block: Seq<u8>) -> Seq<u64> {
    Seq::new(
        25,
        |j: int|
            if j < 17 {
                state[j] ^ block_lane(block, j)
            } else {
                state[j]
            },
    )
}

/// The state after the first `k` blocks of `buf` have gone into the all-zero
/// state, each followed by the permutation.
pub open spec fn absorbed(buf: Seq<u8>, k: nat) -> Seq<u64>
    decreases k,
{
    if k == 0 {
        Seq::new(25, |j: int| 0u64)
    } else {
        let before = absorbed(buf, (k - 1) as nat);
        keccak_f(with_block(before, block_of(buf, (k - 1) as nat)))
    }
}

/// The first 32 bytes of the state, each lane least significant byte first.
pub open spec fn squeezed(state: Seq<u64>) -> Seq<u8> {
    Seq::new(32, |i: int| lane_byte(state[i / 8], i % 8))
}

/// The digest of `input`: pad, absorb every block, squeeze.
pub open spec fn keccak256_digest(input: Seq<u8>) -> Seq<u8> {
    squeezed(absorbed(padded(input), block_count(input.len())))
}

/// The padded form of an input is made of whole blocks, at least one, and is
/// longer than the input by at least one byte and at most one block. It
/// begins with the input, has bit 7 set in the first byte after the input and
/// bit 0 set in its last byte, and is zero in between.
pub proof fn lemma_padded_shape(input: Seq<u8>)
    ensures
        padded(input).len() > 0,
        padded(input).len() % 136 == 0,
        padded(input).len() == 136 * block_count(input.len()),
        input.len() < padded(input).len() <= input.len() + 136,
        padded(input).subrange(0, input.len() as int) == input,
        padded(input)[input.len() as int] & 0x80 == 0x80,
        padded(input).last() & 0x01 == 0x01,
        forall|i: int| input.len() < i < padded(input).len() - 1 ==> padded(input)[i] == 0,
{
    let p = padded(input);
    assert(forall|d: u8| #[trigger] (d | 0 | 0) == d) by (bit_vector);
    assert(forall|d: u8, e: u8| #[trigger] (d | 0x80 | e) & 0x80 == 0x80) by (bit_vector);
    assert(forall|d: u8, e: u8| #[trigger] (d | e | 0x01) & 0x01 == 0x01) by (bit_vector);
    assert(p.subrange(0, input.len() as int) =~= input);
}

/// Inputs with the same padded form are the same input.
pub proof fn lemma_padded_injective(a: Seq<u8>, b: Seq<u8>)
    requires
        padded(a) == padded(b),
    ensures
        a == b,
{
    lemma_padded_shape(a);
    lemma_padded_shape(b);
    assert(forall|d: u8| #[trigger] (d | 0 | 0) == d) by (bit_vector);
    assert((0u8 | 0 | 0) & 0x80 == 0 && (0u8 | 0 | 0x01) & 0x80 == 0) by (bit_vector);
    if a.len() < b.len() {
        assert(padded(a)[b.len() as int] == padded_byte(a, b.len() as int));
        assert(padded(b)[b.len() as int] & 0x80 == 0x80);
    }
    if b.len() < a.len() {
        assert(padded(b)[a.len() as int] == padded_byte(b, a.len() as int));
        assert(padded(a)[a.len() as int] & 0x80 == 0x80);
    }
    assert(a =~= padded(a).subrange(0, a.len() as int));
    assert(b =~= padded(b).subrange(0, b.len() as int));
}

/// An input of `k` whole blocks and an input of one byte more both pad to
/// `k + 1` blocks, to padded forms that differ, and both have a digest of 32
/// bytes.
pub proof fn lemma_rate_boundary(whole: Seq<u8>, more: Seq<u8>, k: nat)
    requires
        whole.len() == 136 * k,
        more.len() == 136 * k + 1,
    ensures
        padded(whole).len() == 136 * (k + 1),
        padded(more).len() == 136 * (k + 1),
        padded(whole) != padded(more),
        keccak256_digest(whole).len() == 32,
        keccak256_digest(more).len() == 32,
{
    if padded(whole) == padded(more) {
        lemma_padded_injective(whole, more);
    }
}

/// Absorption keeps the state at 25 lanes.
pub proof fn lemma_absorbed_len(buf: Seq<u8>, k: nat)
    ensures
        absorbed(buf, k).len() == 25,
    decreases k,
{
    if k > 0 {
        let before = absorbed(buf, (k - 1) as nat);
        lemma_absorbed_len(buf, (k - 1) as nat);
        lemma_keccak_f_len(with_block(before, block_of(buf, (k - 1) as nat)));
    }
}

/// The state after `k` blocks depends on the first `k` blocks alone.
pub proof fn lemma_absorbed_prefix(p: Seq<u8>, q: Seq<u8>, k: nat)
    requires
        136 * k <= p.len(),
        136 * k <= q.len(),
        p.subrange(0, 136 * (k as int)) == q.subrange(0, 136 * (k as int)),
    ensures
        absorbed(p, k) == absorbed(q, k),
    decreases k,
{
    if k > 0 {
        let j = (k - 1) as nat;
        let n = 136 * (k as int);
        assert forall|i: int| 0 <= i < n implies p[i] == q[i] by {
            assert(p.subrange(0, n)[i] == p[i]);
            assert(q.subrange(0, n)[i] == q[i]);
        }
        assert(p.subrange(0, 136 * (j as int)) =~= q.subrange(0, 136 * (j as int)));
        lemma_absorbed_prefix(p, q, j);
        assert(block_of(p, j) =~= block_of(q, j));
    }
}

/// Absorbing a block loses nothing of it: from the same state, blocks that
/// lead to the same state are the same block.
pub proof fn lemma_absorb_block_injective(state: Seq<u64>, b1: Seq<u8>, b2: Seq<u8>)
    requires
        state.len() == 25,
        b1.len() == 136,
        b2.len() == 136,
        keccak_f(with_block(state, b1)) == keccak_f(with_block(state, b2)),
    ensures
        b1 == b2,
{
    lemma_keccak_f_injective(with_block(state, b1), with_block(state, b2));
    assert forall|i: int| 0 <= i < 136 implies b1[i] == b2[i] by {
        let j = i / 8;
        let (c1, c2) = (b1.subrange(8 * j, 8 * j + 8), b2.subrange(8 * j, 8 * j + 8));
        let (l1, l2, x) = (lane_of_bytes(c1), lane_of_bytes(c2), state[j]);
        assert(with_block(state, b1)[j] == x ^ l1);
        assert(with_block(state, b2)[j] == x ^ l2);
        assert(l1 == l2) by (bit_vector)
            requires
                x ^ l1 == x ^ l2,
        ;
        lemma_bytes_round_trip(c1);
        lemma_bytes_round_trip(c2);
        assert(b1[i] == c1[i - 8 * j]);
        assert(b2[i] == c2[i - 8 * j]);
    }
    assert(b1 =~= b2);
}

/// An input of `k` whole blocks and the same input with one byte more leave
/// the sponge in different states.
pub proof fn lemma_rate_boundary_states(whole: Seq<u8>, more: Seq<u8>, k: nat)
    requires
        whole.len() == 136 * k,
        more.len() == 136 * k + 1,
        more.subrange(0, 136 * (k as int)) == whole,
    ensures
        absorbed(padded(whole), k + 1) != absorbed(padded(more), k + 1),
{
    let (p, q) = (padded(whole), padded(more));
    lemma_padded_shape(whole);
    lemma_padded_shape(more);
    assert(forall|d: u8| #[trigger] (d | 0 | 0) == d) by (bit_vector);
    assert(0u8 | 0x80 | 0 == 0x80) by (bit_vector);
    assert forall|i: int| 0 <= i < 136 * k implies p[i] == q[i] by {
        assert(more.subrange(0, 136 * (k as int))[i] == whole[i]);
    }
    assert(p.subrange(0, 136 * (k as int)) =~= q.subrange(0, 136 * (k as int)));
    lemma_absorbed_prefix(p, q, k);
    lemma_absorbed_len(p, k);
    assert(block_of(p, k)[1] == p[136 * (k as int) + 1]);
    assert(block_of(q, k)[1] == q[136 * (k as int) + 1]);
    if absorbed(p, k + 1) == absorbed(q, k + 1) {
        lemma_absorb_block_injective(absorbed(p, k), block_of(p, k), block_of(q, k));
    }
}

/// Every digest has 32 bytes.
pub proof fn lemma_digest_len(input: Seq<u8>)
    ensures
        keccak256_digest(input).len() == 32,
{
}

/// The digest depends on the bytes of the input alone: inputs that agree byte
/// for byte have the same digest.
pub proof fn lemma_digest_deterministic(a: Seq<u8>, b: Seq<u8>)
    requires
        a.len() == b.len(),
        forall|i: int| 0 <= i < a.len() ==> a[i] == b[i],
    ensures
        keccak256_digest(a) == keccak256_digest(b),
{
    assert(a =~= b);
}

/// Block `k` of the padded form of `input`.
pub fn padded_block(input: &Vec<u8>, k: usize) -> (block: [u8; 136])
    requires
        k <= input.len() / 136,
    ensures
        block@ == block_of(padded(input@), k as nat),
{
    let len: usize = input.len();
    let base: usize = k * RATE_BYTES;
    let rest: usize = len - base;
    let last = k == len / RATE_BYTES;
    let mut block = [0u8; 136];
    let mut i: usize = 0;
    while i < RATE_BYTES
        invariant
            i <= 136,
            len == input.len(),
            base == k * 136,
            base + rest == len,
            k <= len / 136,
            last == (k == len / 136),
            forall|j: int| 0 <= j < i ==> block@[j] == padded_byte(input@, base + j),
        decreases 136 - i,
    {
        let mut b: u8 = 0;
        if i < rest {
            b = input[base + i];
        }
        let ghost data = b;
        if i == rest {
            b |= 0x80;
        }
        let ghost marked = b;
        if last && i == RATE_BYTES - 1 {
            b |= 0x01;
        }
        proof {
            assert(data | 0 == data) by (bit_vector);
            assert(marked | 0 == marked) by (bit_vector);
        }
        block[i] = b;
        i += 1;
    }
    assert(block@ =~= block_of(padded(input@), k as nat));
    block
}

/// Adds a block to the rate portion of the state, then permutes the state.
pub fn absorb_block(state: &mut [u64; 25], block: &[u8; 136])
    ensures
        final(state)@ == keccak_f(with_block(old(state)@, block@)),
{
    let ghost s = state@;
    let mut j: usize = 0;
    while j < RATE_LANES
        invariant
            j <= 17,
            forall|k: int| 0 <= k < j ==> state@[k] == s[k] ^ block_lane(block@, k),
            forall|k: int| j <= k < 25 ==> state@[k] == s[k],
        decreases 17 - j,
    {
        let o: usize = 8 * j;
        let chunk = [
            block[o],
            block[o + 1],
            block[o + 2],
            block[o + 3],
            block[o + 4],
            block[o + 5],
            block[o + 6],
            block[o + 7],
        ];
        assert(chunk@ =~= block@.subrange(8 * j, 8 * j + 8));
        state[j] ^= u8s_to_u64(&chunk);
        j += 1;
    }
    assert(state@ =~= with_block(s, block@));
    keccakf(state);
}

/// Reads the digest off the state.
pub fn squeeze(state: &[u64; 25]) -> (digest: [u8; 32])
    ensures
        digest@ == squeezed(state@),
{
    let mut digest = [0u8; 32];
    let mut j: usize = 0;
    while j < 4
        invariant
            j <= 4,
            forall|k: int| 0 <= k < 8 * j ==> digest@[k] == lane_byte(state@[k / 8], k % 8),
        decreases 4 - j,
    {
        let bytes = u64_to_u8s(state[j]);
        let mut i: usize = 0;
        while i < 8
            invariant
                i <= 8,
                j < 4,
                bytes@ == crate::lane::bytes_of_lane(state@[j as int]),
                forall|k: int|
                    0 <= k < 8 * j + i ==> digest@[k] == lane_byte(state@[k / 8], k % 8),
            decreases 8 - i,
        {
            digest[8 * j + i] = bytes[i];
            i += 1;
        }
        j += 1;
    }
    assert(digest@ =~= squeezed(state@));
    digest
}

/// The 32-byte digest of `input`: the input is padded to whole blocks, every
/// block is absorbed in turn into a state that starts at zero, and the digest
/// is read off the first four lanes. Every input has a digest.
pub fn keccak256(input: Vec<u8>) -> (digest: [u8; 32])
    ensures
        digest@ == keccak256_digest(input@),
        digest@.len() == 32,
{
    let blocks: usize = input.len() / RATE_BYTES + 1;
    let mut state = [0u64; 25];
    assert(state@ =~= absorbed(padded(input@), 0));
    let mut k: usize = 0;
    while k < blocks
        invariant
            k <= blocks,
            blocks == block_count(input@.len()),
            state@ == absorbed(padded(input@), k as nat),
        decreases blocks - k,
    {
        let block = padded_block(&input, k);
        absorb_block(&mut state, &block);
        k += 1;
    }
    squeeze(&state)
}

} // verus!

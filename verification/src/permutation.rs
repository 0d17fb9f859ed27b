//! The Keccak-f[1600] permutation: 24 rounds of theta, rho and pi, chi and
//! iota on a state of 25 lanes, lane (x, y) standing at index x + 5y.

use vstd::prelude::*;
use crate::lane::{rotl, ROL64};

verus! {

/// Number of lanes in the state.
pub const NUM_LANES: usize = 25;

/// Number of rounds in one permutation.
pub const NUM_ROUNDS: usize = 24;

/// Index of lane (x, y) in the flat state.
pub open spec fn lane_index(x: int, y: int) -> int {
    x + 5 * y
}

/// XOR of the five lanes of column `x`.
pub open spec fn column_parity(s: Seq<u64>, x: int) -> u64 {
    s[x] ^ s[x + 5] ^ s[x + 10] ^ s[x + 15] ^ s[x + 20]
}

/// What theta adds to every lane of column `x`: the parity of the column to
/// the left, and the parity of the column to the right rotated by one bit.
pub open spec fn theta_mask(s: Seq<u64>, x: int) -> u64 {
    column_parity(s, (x + 4) % 5) ^ rotl(column_parity(s, (x + 1) % 5), 1)
}

/// Theta: every lane receives the mask of its column.
pub open spec fn theta(s: Seq<u64>) -> Seq<u64> {
    Seq::new(25, |i: int| s[i] ^ theta_mask(s, i % 5))
}

/// Chi: within each row, lane x receives the AND of the complement of lane
/// x + 1 with lane x + 2.
pub open spec fn chi(s: Seq<u64>) -> Seq<u64> {
    Seq::new(
        25,
        |i: int|
            {
                let x = i % 5;
                let row = i - x;
                s[i] ^ ((!s[row + (x + 1) % 5]) & s[row + (x + 2) % 5])
            },
    )
}

/// Position (x, y) reached after `t` steps of the walk that starts at (1, 0)
/// and goes from (x, y) to (y, 2x + 3y mod 5).
pub open spec fn walk(t: nat) -> (int, int)
    decreases t,
{
    if t == 0 {
        (1, 0)
    } else {
        let (x, y) = walk((t - 1) as nat);
        (y, (2 * x + 3 * y) % 5)
    }
}

/// Index of the lane reached after `t` steps of the walk.
pub open spec fn walk_index(t: nat) -> int {
    lane_index(walk(t).0, walk(t).1)
}

/// Rotation offset of step `t` of the walk: a triangular number modulo 64.
pub open spec fn rho_offset(t: nat) -> nat {
    ((t + 1) * (t + 2) / 2) % 64
}

/// The state after the first `t` steps of rho and pi: step k (counted from 0)
/// writes the lane that stood at position k of the walk, rotated by
/// `rho_offset(k)`, to position k + 1.
pub open spec fn rho_pi_prefix(s: Seq<u64>, t: nat) -> Seq<u64>
    decreases t,
{
    if t == 0 {
        s
    } else {
        let k = (t - 1) as nat;
        rho_pi_prefix(s, k).update(walk_index(t), rotl(s[walk_index(k)], rho_offset(k) as u64))
    }
}

/// Rho and pi: all 24 steps of the walk. Lane (0, 0) stays.
pub open spec fn rho_pi(s: Seq<u64>) -> Seq<u64> {
    rho_pi_prefix(s, 24)
}

/// One step of the 8-bit linear-feedback shift register behind the round
/// constants.
pub open spec fn lfsr_step(r: u8) -> u8 {
    (r << 1) ^ (((r >> 7) * 0x71) as u8)
}

/// Bit of lane (0, 0) that position `j` of a round constant stands for:
/// 2^j - 1.
pub open spec fn iota_bit(j: nat) -> u64 {
    ((1u64 << (j as u64)) - 1) as u64
}

/// Lane (0, 0) and the register after the first `j` of the seven bit
/// positions of one round: each position advances the register once and
/// flips its bit of the lane where bit 1 of the register is set.
pub open spec fn iota_prefix(lane: u64, r: u8, j: nat) -> (u64, u8)
    decreases j,
{
    if j == 0 {
        (lane, r)
    } else {
        let k = (j - 1) as nat;
        let (l, q) = iota_prefix(lane, r, k);
        let next = lfsr_step(q);
        (
            if next & 2 == 2 {
                l ^ (1u64 << iota_bit(k))
            } else {
                l
            },
            next,
        )
    }
}

/// Iota with the register at `r`: the state with its round constant added to
/// lane (0, 0), and the register after the round.
pub open spec fn iota(s: Seq<u64>, r: u8) -> (Seq<u64>, u8) {
    let (lane, next) = iota_prefix(s[0], r, 7);
    (s.update(0, lane), next)
}

/// One round with the register at `r`: theta, rho and pi, chi, iota.
pub open spec fn round(s: Seq<u64>, r: u8) -> (Seq<u64>, u8) {
    iota(chi(rho_pi(theta(s))), r)
}

/// The state and the register after `n` rounds, the register starting at 1.
pub open spec fn rounds(s: Seq<u64>, n: nat) -> (Seq<u64>, u8)
    decreases n,
{
    if n == 0 {
        (s, 1u8)
    } else {
        let (p, r) = rounds(s, (n - 1) as nat);
        round(p, r)
    }
}

/// Keccak-f[1600]: 24 rounds.
pub open spec fn keccak_f(s: Seq<u64>) -> Seq<u64> {
    rounds(s, 24).0
}

/// Place of a lane index on the walk: the step at which the walk reaches it.
spec fn walk_rank(i: int) -> nat {
    if i == 10 { 1 } else if i == 7 { 2 } else if i == 11 { 3 } else if i == 17 { 4 }
    else if i == 18 { 5 } else if i == 3 { 6 } else if i == 5 { 7 } else if i == 16 { 8 }
    else if i == 8 { 9 } else if i == 21 { 10 } else if i == 24 { 11 } else if i == 4 { 12 }
    else if i == 15 { 13 } else if i == 23 { 14 } else if i == 19 { 15 } else if i == 13 { 16 }
    else if i == 12 { 17 } else if i == 2 { 18 } else if i == 20 { 19 } else if i == 14 { 20 }
    else if i == 22 { 21 } else if i == 9 { 22 } else if i == 6 { 23 } else if i == 1 { 24 }
    else { 0 }
}

/// The walk stays inside the state, never comes to lane (0, 0), and reaches
/// each other lane at one step only.
proof fn lemma_walk(t: nat)
    requires
        1 <= t <= 24,
    ensures
        0 <= walk(t).0 < 5,
        0 <= walk(t).1 < 5,
        1 <= walk_index(t) < 25,
        walk_rank(walk_index(t)) == t,
    decreases t,
{
    if t > 1 {
        lemma_walk((t - 1) as nat);
    } else {
        assert(walk(0) == (1int, 0int));
    }
}

/// The offsets of the 24 steps lie strictly between 0 and 64: no step
/// rotates by zero bits.
pub proof fn lemma_rho_offset(t: nat)
    requires
        t < 24,
    ensures
        0 < rho_offset(t) < 64,
{
    assert((t + 1) * (t + 2) == t * t + 3 * t + 2) by (nonlinear_arith);
    if t == 0 {
    } else if t == 1 {
    } else if t == 2 {
    } else if t == 3 {
    } else if t == 4 {
    } else if t == 5 {
    } else if t == 6 {
    } else if t == 7 {
    } else if t == 8 {
    } else if t == 9 {
    } else if t == 10 {
    } else if t == 11 {
    } else if t == 12 {
    } else if t == 13 {
    } else if t == 14 {
    } else if t == 15 {
    } else if t == 16 {
    } else if t == 17 {
    } else if t == 18 {
    } else if t == 19 {
    } else if t == 20 {
    } else if t == 21 {
    } else if t == 22 {
    } else {
        assert(t == 23);
    }
}

/// The first `t` steps leave alone every lane that the walk has not reached.
proof fn lemma_prefix_untouched(s: Seq<u64>, t: nat, i: int)
    requires
        s.len() == 25,
        t <= 24,
        0 <= i < 25,
        walk_rank(i) == 0 || walk_rank(i) > t,
    ensures
        rho_pi_prefix(s, t).len() == 25,
        rho_pi_prefix(s, t)[i] == s[i],
    decreases t,
{
    if t > 0 {
        lemma_walk(t);
        lemma_prefix_untouched(s, (t - 1) as nat, i);
    }
}

/// Step `k` of rho and pi stands in the first `n` steps, for any `n` above
/// `k`: no later step writes to the position that step `k` wrote to.
proof fn lemma_prefix_written(s: Seq<u64>, n: nat, k: nat)
    requires
        s.len() == 25,
        k < n <= 24,
    ensures
        rho_pi_prefix(s, n).len() == 25,
        rho_pi_prefix(s, n)[walk_index(k + 1)] == rotl(s[walk_index(k)], rho_offset(k) as u64),
    decreases n,
{
    lemma_walk(n);
    lemma_walk(k + 1);
    lemma_prefix_untouched(s, (n - 1) as nat, 0);
    if n > k + 1 {
        lemma_prefix_written(s, (n - 1) as nat, k);
    }
}

/// What rho and pi do to each lane: the state keeps its 25 lanes, lane (0, 0)
/// stays, and the lane at position `t` of the walk goes to position `t + 1`,
/// rotated by the offset of step `t`.
pub proof fn lemma_rho_pi_lanes(s: Seq<u64>, t: nat)
    requires
        s.len() == 25,
        t < 24,
    ensures
        rho_pi(s).len() == 25,
        rho_pi(s)[0] == s[0],
        1 <= walk_index(t) < 25,
        1 <= walk_index(t + 1) < 25,
        0 < rho_offset(t) < 64,
        rho_pi(s)[walk_index(t + 1)] == rotl(s[walk_index(t)], rho_offset(t) as u64),
{
    lemma_prefix_untouched(s, 24, 0);
    lemma_prefix_written(s, 24, t);
    lemma_rho_offset(t);
    lemma_walk(t + 1);
    if t > 0 {
        lemma_walk(t);
    }
}

/// The walk passes every lane but (0, 0) within its first 24 positions.
pub proof fn lemma_walk_reaches(i: int) -> (t: nat)
    requires
        1 <= i < 25,
    ensures
        t < 24,
        walk_index(t) == i,
{
    let t: nat = if i == 1 { 0 } else { walk_rank(i) };
    if t > 0 {
        lemma_walk(t);
    }
    t
}

/// Theta, in place.
pub fn apply_theta(lanes: &mut [u64; 25])
    ensures
        final(lanes)@ == theta(old(lanes)@),
{
    let ghost s = lanes@;
    let mut c = [0u64; 5];
    let mut x: usize = 0;
    while x < 5
        invariant
            x <= 5,
            lanes@ == s,
            forall|k: int| 0 <= k < x ==> c@[k] == column_parity(s, k),
        decreases 5 - x,
    {
        c[x] = lanes[x] ^ lanes[x + 5] ^ lanes[x + 10] ^ lanes[x + 15] ^ lanes[x + 20];
        x += 1;
    }
    let mut d = [0u64; 5];
    x = 0;
    while x < 5
        invariant
            x <= 5,
            lanes@ == s,
            forall|k: int| 0 <= k < 5 ==> c@[k] == column_parity(s, k),
            forall|k: int| 0 <= k < x ==> d@[k] == theta_mask(s, k),
        decreases 5 - x,
    {
        d[x] = c[(x + 4) % 5] ^ ROL64(c[(x + 1) % 5], 1);
        x += 1;
    }
    let mut i: usize = 0;
    while i < 25
        invariant
            i <= 25,
            forall|k: int| 0 <= k < 5 ==> d@[k] == theta_mask(s, k),
            forall|k: int| 0 <= k < i ==> lanes@[k] == s[k] ^ theta_mask(s, k % 5),
            forall|k: int| i <= k < 25 ==> lanes@[k] == s[k],
        decreases 25 - i,
    {
        lanes[i] ^= d[i % 5];
        i += 1;
    }
    assert(lanes@ =~= theta(s));
}

/// Chi, in place.
pub fn apply_chi(lanes: &mut [u64; 25])
    ensures
        final(lanes)@ == chi(old(lanes)@),
{
    let ghost s = lanes@;
    let mut y: usize = 0;
    while y < 5
        invariant
            y <= 5,
            forall|k: int| 0 <= k < 5 * y ==> lanes@[k] == chi(s)[k],
            forall|k: int| 5 * y <= k < 25 ==> lanes@[k] == s[k],
        decreases 5 - y,
    {
        let row: usize = 5 * y;
        let t = [lanes[row], lanes[row + 1], lanes[row + 2], lanes[row + 3], lanes[row + 4]];
        let mut x: usize = 0;
        while x < 5
            invariant
                x <= 5,
                y < 5,
                row == 5 * y,
                forall|k: int| 0 <= k < 5 ==> t@[k] == s[row + k],
                forall|k: int| 0 <= k < row + x ==> lanes@[k] == chi(s)[k],
                forall|k: int| row + x <= k < 25 ==> lanes@[k] == s[k],
            decreases 5 - x,
        {
            lanes[row + x] = t[x] ^ ((!t[(x + 1) % 5]) & t[(x + 2) % 5]);
            x += 1;
        }
        y += 1;
    }
    assert(lanes@ =~= chi(s));
}

/// Rho and pi, in place.
pub fn apply_rho_pi(lanes: &mut [u64; 25])
    ensures
        final(lanes)@ == rho_pi(old(lanes)@),
{
    let ghost s = lanes@;
    let mut x: usize = 1;
    let mut y: usize = 0;
    let mut current: u64 = lanes[1];
    let mut t: usize = 0;
    while t < 24
        invariant
            t <= 24,
            x < 5,
            y < 5,
            s.len() == 25,
            (x as int, y as int) == walk(t as nat),
            lanes@ == rho_pi_prefix(s, t as nat),
            current == s[walk_index(t as nat)],
        decreases 24 - t,
    {
        let ynext: usize = (2 * x + 3 * y) % 5;
        x = y;
        y = ynext;
        proof {
            lemma_walk((t + 1) as nat);
            lemma_rho_offset(t as nat);
            lemma_prefix_untouched(s, t as nat, walk_index((t + 1) as nat));
            assert((t + 1) * (t + 2) <= 600) by (nonlinear_arith)
                requires
                    t < 24,
            ;
        }
        let r: usize = ((t + 1) * (t + 2) / 2) % 64;
        let temp: u64 = lanes[x + 5 * y];
        lanes[x + 5 * y] = ROL64(current, r as u64);
        current = temp;
        t += 1;
    }
}

/// Iota, in place, with the register at `r`. Returns the register after the
/// round.
pub fn apply_iota(lanes: &mut [u64; 25], r: u8) -> (next: u8)
    ensures
        final(lanes)@ == iota(old(lanes)@, r).0,
        next == iota(old(lanes)@, r).1,
{
    let ghost s = lanes@;
    let mut reg: u8 = r;
    let mut j: u64 = 0;
    while j < 7
        invariant
            j <= 7,
            (lanes@[0], reg) == iota_prefix(s[0], r, j as nat),
            forall|k: int| 1 <= k < 25 ==> lanes@[k] == s[k],
        decreases 7 - j,
    {
        assert((reg >> 7) * 0x71 <= 0x71) by (bit_vector);
        reg = (reg << 1) ^ ((reg >> 7) * 0x71);
        assert(1 <= (1u64 << j) <= 64) by (bit_vector)
            requires
                j < 7,
        ;
        let bit: u64 = (1u64 << j) - 1;
        if reg & 2 == 2 {
            lanes[0] ^= 1u64 << bit;
        }
        j += 1;
    }
    assert(lanes@ =~= iota(s, r).0);
    reg
}

/// Applies the 24 rounds of Keccak-f[1600] to the state, in place.
pub fn keccakf(lanes: &mut [u64; 25])
    ensures
        final(lanes)@ == keccak_f(old(lanes)@),
{
    let ghost s = lanes@;
    let mut reg: u8 = 1;
    let mut n: usize = 0;
    while n < NUM_ROUNDS
        invariant
            n <= NUM_ROUNDS,
            (lanes@, reg) == rounds(s, n as nat),
        decreases NUM_ROUNDS - n,
    {
        apply_theta(lanes);
        apply_rho_pi(lanes);
        apply_chi(lanes);
        reg = apply_iota(lanes, reg);
        n += 1;
    }
}

} // verus!

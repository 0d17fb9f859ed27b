//! The permutation loses nothing: each of its steps, each round and all 24
//! rounds together take distinct states to distinct states. On a finite set
//! of states that is to say that each is a bijection.

use vstd::prelude::*;
use crate::lane::rotl;
use crate::permutation::{
    chi, column_parity, iota, iota_bit, iota_prefix, keccak_f, lemma_rho_pi_lanes,
    lemma_walk_reaches, rho_offset, rho_pi, round, rounds, theta, theta_mask,
};

verus! {

/// Lane (x, y) of theta's image.
proof fn lemma_theta_lane(s: Seq<u64>, x: int, y: int)
    requires
        0 <= x < 5,
        0 <= y < 5,
    ensures
        theta(s)[x + 5 * y] == s[x + 5 * y] ^ theta_mask(s, x),
{
    assert((x + 5 * y) % 5 == x);
}

/// The five lanes of row `y` of chi's image.
proof fn lemma_chi_lanes(s: Seq<u64>, y: int)
    requires
        0 <= y < 5,
    ensures
        chi(s)[5 * y] == s[5 * y] ^ ((!s[5 * y + 1]) & s[5 * y + 2]),
        chi(s)[5 * y + 1] == s[5 * y + 1] ^ ((!s[5 * y + 2]) & s[5 * y + 3]),
        chi(s)[5 * y + 2] == s[5 * y + 2] ^ ((!s[5 * y + 3]) & s[5 * y + 4]),
        chi(s)[5 * y + 3] == s[5 * y + 3] ^ ((!s[5 * y + 4]) & s[5 * y]),
        chi(s)[5 * y + 4] == s[5 * y + 4] ^ ((!s[5 * y]) & s[5 * y + 1]),
{
    let o = 5 * y;
    assert(o % 5 == 0 && (o + 1) % 5 == 1 && (o + 2) % 5 == 2 && (o + 3) % 5 == 3 && (o + 4) % 5
        == 4);
}

/// The lanes of iota's image.
proof fn lemma_iota_lanes(s: Seq<u64>, r: u8, i: int)
    requires
        s.len() == 25,
        0 <= i < 25,
    ensures
        iota(s, r).0.len() == 25,
        iota(s, r).0[i] == (if i == 0 { iota_prefix(s[0], r, 7).0 } else { s[i] }),
        iota(s, r).1 == iota_prefix(s[0], r, 7).1,
{
}

/// Column parities that theta leaves as they are must all be zero.
proof fn lemma_theta_kernel(e0: u64, e1: u64, e2: u64, e3: u64, e4: u64)
    by (bit_vector)
    requires
        e0 == e4 ^ rotl(e1, 1),
        e1 == e0 ^ rotl(e2, 1),
        e2 == e1 ^ rotl(e3, 1),
        e3 == e2 ^ rotl(e4, 1),
        e4 == e3 ^ rotl(e0, 1),
    ensures
        e0 == 0,
        e1 == 0,
        e2 == 0,
        e3 == 0,
        e4 == 0,
{
}

/// Where theta takes two states to the same image, the difference of their
/// parities in column `x` is the difference of their masks there.
proof fn lemma_theta_column(a: Seq<u64>, b: Seq<u64>, x: int)
    requires
        a.len() == 25,
        b.len() == 25,
        0 <= x < 5,
        theta(a) == theta(b),
    ensures
        column_parity(a, x) ^ column_parity(b, x) == theta_mask(a, x) ^ theta_mask(b, x),
{
    let (a0, a1, a2, a3, a4) = (a[x], a[x + 5], a[x + 10], a[x + 15], a[x + 20]);
    let (b0, b1, b2, b3, b4) = (b[x], b[x + 5], b[x + 10], b[x + 15], b[x + 20]);
    let (ma, mb) = (theta_mask(a, x), theta_mask(b, x));
    lemma_theta_lane(a, x, 0);
    lemma_theta_lane(b, x, 0);
    lemma_theta_lane(a, x, 1);
    lemma_theta_lane(b, x, 1);
    lemma_theta_lane(a, x, 2);
    lemma_theta_lane(b, x, 2);
    lemma_theta_lane(a, x, 3);
    lemma_theta_lane(b, x, 3);
    lemma_theta_lane(a, x, 4);
    lemma_theta_lane(b, x, 4);
    assert((a0 ^ a1 ^ a2 ^ a3 ^ a4) ^ (b0 ^ b1 ^ b2 ^ b3 ^ b4) == ma ^ mb) by (bit_vector)
        requires
            a0 ^ ma == b0 ^ mb,
            a1 ^ ma == b1 ^ mb,
            a2 ^ ma == b2 ^ mb,
            a3 ^ ma == b3 ^ mb,
            a4 ^ ma == b4 ^ mb,
    ;
}

/// The difference of the masks of two states is the mask of the difference
/// of their parities.
proof fn lemma_theta_mask_difference(pa: u64, qa: u64, pb: u64, qb: u64)
    by (bit_vector)
    ensures
        (pa ^ rotl(qa, 1)) ^ (pb ^ rotl(qb, 1)) == (pa ^ pb) ^ rotl(qa ^ qb, 1),
{
}

/// Theta loses nothing: states with the same image are the same state.
pub proof fn lemma_theta_injective(a: Seq<u64>, b: Seq<u64>)
    requires
        a.len() == 25,
        b.len() == 25,
        theta(a) == theta(b),
    ensures
        a == b,
{
    let (a0, a1, a2, a3, a4) = (
        column_parity(a, 0),
        column_parity(a, 1),
        column_parity(a, 2),
        column_parity(a, 3),
        column_parity(a, 4),
    );
    let (b0, b1, b2, b3, b4) = (
        column_parity(b, 0),
        column_parity(b, 1),
        column_parity(b, 2),
        column_parity(b, 3),
        column_parity(b, 4),
    );
    lemma_theta_column(a, b, 0);
    lemma_theta_column(a, b, 1);
    lemma_theta_column(a, b, 2);
    lemma_theta_column(a, b, 3);
    lemma_theta_column(a, b, 4);
    lemma_theta_mask_difference(a4, a1, b4, b1);
    lemma_theta_mask_difference(a0, a2, b0, b2);
    lemma_theta_mask_difference(a1, a3, b1, b3);
    lemma_theta_mask_difference(a2, a4, b2, b4);
    lemma_theta_mask_difference(a3, a0, b3, b0);
    lemma_theta_kernel(a0 ^ b0, a1 ^ b1, a2 ^ b2, a3 ^ b3, a4 ^ b4);
    assert(a0 == b0 && a1 == b1 && a2 == b2 && a3 == b3 && a4 == b4) by (bit_vector)
        requires
            a0 ^ b0 == 0,
            a1 ^ b1 == 0,
            a2 ^ b2 == 0,
            a3 ^ b3 == 0,
            a4 ^ b4 == 0,
    ;
    assert forall|i: int| 0 <= i < 25 implies a[i] == b[i] by {
        let (x, y) = (i % 5, i / 5);
        let (left, right) = ((x + 4) % 5, (x + 1) % 5);
        assert(column_parity(a, left) == column_parity(b, left));
        assert(column_parity(a, right) == column_parity(b, right));
        lemma_theta_lane(a, x, y);
        lemma_theta_lane(b, x, y);
        let (u, v, m) = (a[i], b[i], theta_mask(a, x));
        assert(u == v) by (bit_vector)
            requires
                u ^ m == v ^ m,
        ;
    }
    assert(a =~= b);
}

/// Rho and pi lose nothing: states with the same image are the same state.
pub proof fn lemma_rho_pi_injective(a: Seq<u64>, b: Seq<u64>)
    requires
        a.len() == 25,
        b.len() == 25,
        rho_pi(a) == rho_pi(b),
    ensures
        a == b,
{
    assert forall|i: int| 0 <= i < 25 implies a[i] == b[i] by {
        if i == 0 {
            lemma_rho_pi_lanes(a, 0);
            lemma_rho_pi_lanes(b, 0);
        } else {
            let t = lemma_walk_reaches(i);
            lemma_rho_pi_lanes(a, t);
            lemma_rho_pi_lanes(b, t);
            let r = rho_offset(t) as u64;
            let (x, y) = (a[i], b[i]);
            assert(x == y) by (bit_vector)
                requires
                    0 < r < 64,
                    rotl(x, r) == rotl(y, r),
            ;
        }
    }
    assert(a =~= b);
}

/// Chi loses nothing on a row of five lanes.
proof fn lemma_chi_row(
    a0: u64,
    a1: u64,
    a2: u64,
    a3: u64,
    a4: u64,
    b0: u64,
    b1: u64,
    b2: u64,
    b3: u64,
    b4: u64,
)
    by (bit_vector)
    requires
        a0 ^ ((!a1) & a2) == b0 ^ ((!b1) & b2),
        a1 ^ ((!a2) & a3) == b1 ^ ((!b2) & b3),
        a2 ^ ((!a3) & a4) == b2 ^ ((!b3) & b4),
        a3 ^ ((!a4) & a0) == b3 ^ ((!b4) & b0),
        a4 ^ ((!a0) & a1) == b4 ^ ((!b0) & b1),
    ensures
        a0 == b0,
        a1 == b1,
        a2 == b2,
        a3 == b3,
        a4 == b4,
{
}

/// Where chi takes two states to the same image, they agree on row `y`.
proof fn lemma_chi_row_of(a: Seq<u64>, b: Seq<u64>, y: int)
    requires
        a.len() == 25,
        b.len() == 25,
        0 <= y < 5,
        chi(a) == chi(b),
    ensures
        a[5 * y] == b[5 * y],
        a[5 * y + 1] == b[5 * y + 1],
        a[5 * y + 2] == b[5 * y + 2],
        a[5 * y + 3] == b[5 * y + 3],
        a[5 * y + 4] == b[5 * y + 4],
{
    let o = 5 * y;
    lemma_chi_lanes(a, y);
    lemma_chi_lanes(b, y);
    lemma_chi_row(
        a[o],
        a[o + 1],
        a[o + 2],
        a[o + 3],
        a[o + 4],
        b[o],
        b[o + 1],
        b[o + 2],
        b[o + 3],
        b[o + 4],
    );
}

/// Chi loses nothing: states with the same image are the same state.
pub proof fn lemma_chi_injective(a: Seq<u64>, b: Seq<u64>)
    requires
        a.len() == 25,
        b.len() == 25,
        chi(a) == chi(b),
    ensures
        a == b,
{
    assert forall|i: int| 0 <= i < 25 implies a[i] == b[i] by {
        lemma_chi_row_of(a, b, i / 5);
    }
    assert(a =~= b);
}

/// Iota adds to lane (0, 0) a constant that depends on the register alone,
/// and the register moves on whatever the lane holds.
pub proof fn lemma_iota_constant(lane: u64, r: u8, j: nat)
    ensures
        iota_prefix(lane, r, j).0 == lane ^ iota_prefix(0, r, j).0,
        iota_prefix(lane, r, j).1 == iota_prefix(0, r, j).1,
    decreases j,
{
    if j == 0 {
        assert(lane == lane ^ 0) by (bit_vector);
    } else {
        let k = (j - 1) as nat;
        lemma_iota_constant(lane, r, k);
        let c = iota_prefix(0, r, k).0;
        let m = 1u64 << iota_bit(k);
        assert((lane ^ c) ^ m == lane ^ (c ^ m)) by (bit_vector);
    }
}

/// Iota loses nothing: with the register at the same value, states with the
/// same image are the same state.
pub proof fn lemma_iota_injective(a: Seq<u64>, b: Seq<u64>, r: u8)
    requires
        a.len() == 25,
        b.len() == 25,
        iota(a, r).0 == iota(b, r).0,
    ensures
        a == b,
        iota(a, r).1 == iota(b, r).1,
{
    lemma_iota_constant(a[0], r, 7);
    lemma_iota_constant(b[0], r, 7);
    let c = iota_prefix(0, r, 7).0;
    let (u, v) = (a[0], b[0]);
    lemma_iota_lanes(a, r, 0);
    lemma_iota_lanes(b, r, 0);
    assert(u == v) by (bit_vector)
        requires
            u ^ c == v ^ c,
    ;
    assert forall|i: int| 0 <= i < 25 implies a[i] == b[i] by {
        lemma_iota_lanes(a, r, i);
        lemma_iota_lanes(b, r, i);
    }
    assert(a =~= b);
}

/// A round keeps the state at 25 lanes, and moves the register on whatever
/// the state holds.
pub proof fn lemma_round_shape(a: Seq<u64>, b: Seq<u64>, r: u8)
    requires
        a.len() == 25,
        b.len() == 25,
    ensures
        round(a, r).0.len() == 25,
        round(a, r).1 == round(b, r).1,
{
    lemma_rho_pi_lanes(theta(a), 0);
    lemma_rho_pi_lanes(theta(b), 0);
    lemma_iota_constant(chi(rho_pi(theta(a)))[0], r, 7);
    lemma_iota_constant(chi(rho_pi(theta(b)))[0], r, 7);
}

/// A round loses nothing: with the register at the same value, states with
/// the same image are the same state.
pub proof fn lemma_round_injective(a: Seq<u64>, b: Seq<u64>, r: u8)
    requires
        a.len() == 25,
        b.len() == 25,
        round(a, r).0 == round(b, r).0,
    ensures
        a == b,
{
    lemma_rho_pi_lanes(theta(a), 0);
    lemma_rho_pi_lanes(theta(b), 0);
    lemma_iota_injective(chi(rho_pi(theta(a))), chi(rho_pi(theta(b))), r);
    lemma_chi_injective(rho_pi(theta(a)), rho_pi(theta(b)));
    lemma_rho_pi_injective(theta(a), theta(b));
    lemma_theta_injective(a, b);
}

/// Any number of rounds keeps the state at 25 lanes, and leaves the register
/// at a value that depends on the number of rounds alone.
pub proof fn lemma_rounds_shape(a: Seq<u64>, b: Seq<u64>, n: nat)
    requires
        a.len() == 25,
        b.len() == 25,
    ensures
        rounds(a, n).0.len() == 25,
        rounds(a, n).1 == rounds(b, n).1,
    decreases n,
{
    if n > 0 {
        let k = (n - 1) as nat;
        lemma_rounds_shape(a, b, k);
        lemma_rounds_shape(b, a, k);
        lemma_round_shape(rounds(a, k).0, rounds(b, k).0, rounds(a, k).1);
    }
}

/// Any number of rounds loses nothing.
pub proof fn lemma_rounds_injective(a: Seq<u64>, b: Seq<u64>, n: nat)
    requires
        a.len() == 25,
        b.len() == 25,
        rounds(a, n).0 == rounds(b, n).0,
    ensures
        a == b,
    decreases n,
{
    if n > 0 {
        let k = (n - 1) as nat;
        lemma_rounds_shape(a, b, k);
        lemma_rounds_shape(b, a, k);
        lemma_round_injective(rounds(a, k).0, rounds(b, k).0, rounds(a, k).1);
        lemma_rounds_injective(a, b, k);
    }
}

/// The permutation keeps the state at 25 lanes.
pub proof fn lemma_keccak_f_len(s: Seq<u64>)
    requires
        s.len() == 25,
    ensures
        keccak_f(s).len() == 25,
{
    lemma_rounds_shape(s, s, 24);
}

/// The permutation loses nothing: states of 25 lanes with the same image are
/// the same state.
pub proof fn lemma_keccak_f_injective(a: Seq<u64>, b: Seq<u64>)
    requires
        a.len() == 25,
        b.len() == 25,
        keccak_f(a) == keccak_f(b),
    ensures
        a == b,
{
    lemma_rounds_injective(a, b, 24);
}

} // verus!

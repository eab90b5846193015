//! Zigzag mapping of signed integers and the Cantor pairing of two naturals.

use vstd::prelude::*;

verus! {

/// Maps a signed integer to a natural: `0, -1, 1, -2, 2, ...` to `0, 1, 2, 3, 4, ...`.
pub open spec fn zigzag(d: int) -> nat {
    if d >= 0 {
        (2 * d) as nat
    } else {
        (-2 * d - 1) as nat
    }
}

/// The inverse of `zigzag`.
pub open spec fn unzigzag(z: nat) -> int {
    if z % 2 == 0 {
        (z / 2) as int
    } else {
        -((z + 1) / 2)
    }
}

/// The `s`-th triangular number `s(s+1)/2`.
pub open spec fn triangle(s: nat) -> nat {
    (s * (s + 1) / 2) as nat
}

/// The Cantor pairing: pairs are numbered diagonal by diagonal (by `y + x`),
/// and by `y` within a diagonal.
pub open spec fn pair(y: nat, x: nat) -> nat {
    triangle(y + x) + y
}

/// The pair `(y, x)` whose Cantor number is `n`.
pub open spec fn unpair(n: nat) -> (nat, nat) {
    choose|p: (nat, nat)| pair(p.0, p.1) == n
}

/// Zigzag loses nothing: `unzigzag` recovers every integer.
pub proof fn lemma_unzigzag_zigzag(d: int)
    ensures
        unzigzag(zigzag(d)) == d,
{
}

proof fn lemma_triangle_step(s: nat)
    ensures
        triangle(s + 1) == triangle(s) + s + 1,
{
    assert((s + 1) * (s + 2) == s * (s + 1) + 2 * (s + 1)) by (nonlinear_arith);
}

proof fn lemma_triangle_monotone(a: nat, b: nat)
    requires
        a < b,
    ensures
        triangle(a + 1) <= triangle(b),
    decreases b - a,
{
    if a + 1 < b {
        lemma_triangle_monotone(a, (b - 1) as nat);
        lemma_triangle_step((b - 1) as nat);
    }
}

/// A pair's number lies on its own diagonal: between `triangle(y + x)` and
/// the start of the next diagonal.
proof fn lemma_pair_bounds(y: nat, x: nat)
    ensures
        triangle(y + x) <= pair(y, x) < triangle(y + x + 1),
{
    lemma_triangle_step(y + x);
}

/// Distinct pairs have distinct numbers.
pub proof fn lemma_pair_injective(y1: nat, x1: nat, y2: nat, x2: nat)
    requires
        pair(y1, x1) == pair(y2, x2),
    ensures
        y1 == y2 && x1 == x2,
{
    lemma_pair_bounds(y1, x1);
    lemma_pair_bounds(y2, x2);
    if y1 + x1 < y2 + x2 {
        lemma_triangle_monotone(y1 + x1, y2 + x2);
    } else if y2 + x2 < y1 + x1 {
        lemma_triangle_monotone(y2 + x2, y1 + x1);
    }
}

proof fn lemma_diagonal_exists(n: nat)
    ensures
        exists|s: nat| #[trigger] triangle(s) <= n < triangle(s + 1),
    decreases n,
{
    if n == 0 {
        assert(triangle(0) <= n < triangle(1));
    } else {
        lemma_diagonal_exists((n - 1) as nat);
        let s = choose|s: nat| #[trigger] triangle(s) <= n - 1 < triangle(s + 1);
        lemma_triangle_step(s);
        lemma_triangle_step(s + 1);
        if n < triangle(s + 1) {
            assert(triangle(s) <= n < triangle(s + 1));
        } else {
            assert(triangle(s + 1) <= n < triangle(s + 2));
        }
    }
}

/// Every natural is the number of exactly the pair that `unpair` gives.
pub proof fn lemma_unpair(n: nat)
    ensures
        pair(unpair(n).0, unpair(n).1) == n,
{
    lemma_diagonal_exists(n);
    let s = choose|s: nat| #[trigger] triangle(s) <= n < triangle(s + 1);
    lemma_triangle_step(s);
    let y = (n - triangle(s)) as nat;
    let x = (s - y) as nat;
    assert(pair((y, x).0, (y, x).1) == n);
}

/// Unpairing recovers both components of a pair.
pub proof fn lemma_unpair_pair(y: nat, x: nat)
    ensures
        unpair(pair(y, x)) == (y, x),
{
    lemma_unpair(pair(y, x));
    let p = unpair(pair(y, x));
    lemma_pair_injective(p.0, p.1, y, x);
}

/// Only the pair `(0, 0)` has number zero.
pub proof fn lemma_pair_zero(y: nat, x: nat)
    ensures
        pair(y, x) == 0 <==> (y == 0 && x == 0),
{
    if y + x > 0 {
        lemma_triangle_monotone(0, y + x);
        lemma_triangle_step(0);
    }
}

/// Pairs whose components sum to at most 2^32 have numbers below 2^64.
pub proof fn lemma_pair_small(y: nat, x: nat)
    requires
        y + x <= 0x1_0000_0000,
    ensures
        pair(y, x) < 0x1_0000_0000_0000_0000,
{
    let s = y + x;
    assert(s * (s + 1) <= 0x1_0000_0000 * 0x1_0000_0001) by (nonlinear_arith)
        requires
            s <= 0x1_0000_0000,
    ;
}

/// Zigzag of a signed 64-bit integer; every result fits in 64 unsigned bits.
pub fn zigzag_i64(d: i64) -> (z: u64)
    ensures
        z == zigzag(d as int),
{
    if d >= 0 {
        (d as u64) * 2
    } else {
        ((-(d + 1)) as u64) * 2 + 1
    }
}

/// The signed integer whose zigzag is `z`.
pub fn unzigzag_u64(z: u64) -> (d: i64)
    ensures
        d == unzigzag(z as nat),
{
    let h = (z / 2) as i64;
    if z % 2 == 0 {
        h
    } else {
        -h - 1
    }
}

/// The Cantor number of `(y, x)`.
pub fn pair_u64(y: u64, x: u64) -> (n: u64)
    requires
        y + x <= 0x1_0000_0000,
    ensures
        n == pair(y as nat, x as nat),
{
    let s: u128 = y as u128 + x as u128;
    assert(s * (s + 1) <= 0x1_0000_0000 * 0x1_0000_0001) by (nonlinear_arith)
        requires
            s <= 0x1_0000_0000,
    ;
    let t: u128 = s * (s + 1) / 2;
    (t + y as u128) as u64
}

/// The pair `(y, x)` whose Cantor number is `n`, found by a binary search
/// for the diagonal `y + x`.
pub fn unpair_u64(n: u64) -> (r: (u64, u64))
    ensures
        (r.0 as nat, r.1 as nat) == unpair(n as nat),
{
    let mut lo: u128 = 0;
    let mut hi: u128 = 0x2_0000_0000;
    assert(triangle(0x2_0000_0000) > n) by {
        assert(0x2_0000_0000 * (0x2_0000_0000 + 1) / 2 > 0xFFFF_FFFF_FFFF_FFFFnat);
    }
    while hi - lo > 1
        invariant
            lo < hi <= 0x2_0000_0000,
            triangle(lo as nat) <= n < triangle(hi as nat),
        decreases hi - lo,
    {
        let mid: u128 = lo + (hi - lo) / 2;
        assert(mid * (mid + 1) <= 0x2_0000_0000 * 0x2_0000_0001) by (nonlinear_arith)
            requires
                mid <= 0x2_0000_0000,
        ;
        if mid * (mid + 1) / 2 <= n as u128 {
            lo = mid;
        } else {
            hi = mid;
        }
    }
    assert(lo + 1 == hi);
    proof {
        lemma_triangle_step(lo as nat);
    }
    let t: u64 = (lo * (lo + 1) / 2) as u64;
    let y: u64 = n - t;
    let x: u64 = (lo - y as u128) as u64;
    proof {
        assert(pair(y as nat, x as nat) == n);
        lemma_unpair_pair(y as nat, x as nat);
    }
    (y, x)
}

} // verus!

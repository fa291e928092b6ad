//! Exact integer square roots, the arithmetic base of all distance
//! computations in the library.

use vstd::prelude::*;

verus! {

/// `r` is the floor of the square root of `x`.
pub open spec fn is_sqrt_floor(x: int, r: int) -> bool {
    &&& 0 <= r
    &&& r * r <= x
    &&& x < (r + 1) * (r + 1)
}

/// The floor of the square root of `x` (0 for negative `x`).
pub closed spec fn sqrt_floor(x: int) -> int
    decreases (if x <= 0 { 0int } else { x }),
{
    if x <= 0 {
        0
    } else {
        let p = sqrt_floor(x - 1);
        if (p + 1) * (p + 1) <= x {
            p + 1
        } else {
            p
        }
    }
}

pub proof fn lemma_sqrt_floor(x: int)
    requires
        x >= 0,
    ensures
        is_sqrt_floor(x, sqrt_floor(x)),
    decreases x,
{
    if x == 0 {
        assert(sqrt_floor(0) == 0);
    } else {
        lemma_sqrt_floor(x - 1);
        let p = sqrt_floor(x - 1);
        if (p + 1) * (p + 1) <= x {
            assert((p + 2) * (p + 2) > x) by (nonlinear_arith)
                requires x - 1 < (p + 1) * (p + 1) && 0 <= p
            {}
        }
    }
}

/// The floor square root is unique.
pub proof fn lemma_sqrt_floor_unique(x: int, r1: int, r2: int)
    requires
        is_sqrt_floor(x, r1),
        is_sqrt_floor(x, r2),
    ensures
        r1 == r2,
{
    if r1 < r2 {
        assert((r1 + 1) * (r1 + 1) <= r2 * r2) by (nonlinear_arith)
            requires 0 <= r1 && r1 < r2
        {}
    }
    if r2 < r1 {
        assert((r2 + 1) * (r2 + 1) <= r1 * r1) by (nonlinear_arith)
            requires 0 <= r2 && r2 < r1
        {}
    }
}

pub proof fn lemma_sqrt_floor_zero()
    ensures
        sqrt_floor(0) == 0,
{
}

/// The floor square root dominates any root whose square fits under `x`.
pub proof fn lemma_sqrt_floor_ge(x: int, r: int)
    requires
        0 <= r,
        r * r <= x,
    ensures
        sqrt_floor(x) >= r,
{
    assert(r * r >= 0) by (nonlinear_arith)
        requires r >= 0
    {}
    lemma_sqrt_floor(x);
    let s = sqrt_floor(x);
    if s < r {
        assert((s + 1) * (s + 1) <= r * r) by (nonlinear_arith)
            requires 0 <= s < r
        {}
    }
}

/// Quotient rounded toward zero: the value Rust's `/` computes on signed
/// integers (spec `/` rounds toward negative infinity instead).
pub open spec fn trunc_div(a: int, b: int) -> int {
    if a >= 0 {
        a / b
    } else {
        -((-a) / b)
    }
}

/// A truncating quotient is bounded by `t` whenever the numerator is
/// bounded by `b * t`.
pub proof fn lemma_trunc_div_bound(a: int, b: int, t: int)
    requires
        1 <= b,
        0 <= t,
        -(b * t) <= a <= b * t,
    ensures
        -t <= trunc_div(a, b) <= t,
{
    if a >= 0 {
        vstd::arithmetic::div_mod::lemma_div_pos_is_pos(a, b);
        vstd::arithmetic::div_mod::lemma_div_is_ordered(a, b * t, b);
        vstd::arithmetic::div_mod::lemma_div_multiples_vanish(t, b);
    } else {
        vstd::arithmetic::div_mod::lemma_div_pos_is_pos(-a, b);
        vstd::arithmetic::div_mod::lemma_div_is_ordered(-a, b * t, b);
        vstd::arithmetic::div_mod::lemma_div_multiples_vanish(t, b);
    }
}

/// Truncating division on `i128`, as `/` rounds in Rust.
pub fn div_trunc_i128(a: i128, b: i128) -> (r: i128)
    requires
        1 <= b,
        i128::MIN < a,
    ensures
        r == trunc_div(a as int, b as int),
{
    if a >= 0 {
        a / b
    } else {
        -((-a) / b)
    }
}

/// Largest argument `isqrt` accepts; every sum of two squared coordinate
/// differences stays below it.
pub const ISQRT_MAX: u64 = 9_000_000_000_000_000_000;

/// Floor of the square root of `x`, by binary search.
pub fn isqrt(x: u64) -> (r: u64)
    requires
        x <= ISQRT_MAX,
    ensures
        is_sqrt_floor(x as int, r as int),
        r == sqrt_floor(x as int),
        r <= 3_000_000_000,
{
    let mut lo: u64 = 0;
    let mut hi: u64 = 3_000_000_001;
    assert(hi * hi > x) by (nonlinear_arith)
        requires hi == 3_000_000_001u64 && x <= ISQRT_MAX
    {}
    while lo + 1 < hi
        invariant
            lo < hi <= 3_000_000_001,
            (lo * lo) as int <= x as int,
            (x as int) < (hi * hi) as int,
        decreases hi - lo,
    {
        let mid = lo + (hi - lo) / 2;
        assert(lo < mid < hi);
        assert(mid * mid <= 9_000_000_006_000_000_001) by (nonlinear_arith)
            requires mid <= 3_000_000_001u64
        {}
        if mid * mid <= x {
            lo = mid;
        } else {
            hi = mid;
        }
    }
    proof {
        lemma_sqrt_floor(x as int);
        lemma_sqrt_floor_unique(x as int, lo as int, sqrt_floor(x as int));
    }
    lo
}

} // verus!

//! Fixed-point scalar arithmetic: truncating division, clamping and an
//! integer square root, each pinned to an exact mathematical description.

use vstd::prelude::*;
use vstd::arithmetic::div_mod::{lemma_div_is_ordered, lemma_div_by_multiple};

verus! {

/// Truncating signed division (rounds toward zero), as the machine does.
pub open spec fn div_trunc(a: int, b: int) -> int {
    if a >= 0 {
        a / b
    } else {
        -((-a) / b)
    }
}

/// Truncating division of a signed value by a positive one.
pub fn div_trunc_i64(a: i64, b: i64) -> (r: i64)
    requires
        b > 0,
    ensures
        r == div_trunc(a as int, b as int),
{
    a / b
}

/// The value nearest `a` inside `[-lim, lim]`.
pub open spec fn clamp(a: int, lim: int) -> int {
    if a < -lim {
        -lim
    } else if a > lim {
        lim
    } else {
        a
    }
}

/// Clamps a wide intermediate to a symmetric `i64` range.
pub fn clamp_i128(a: i128, lim: i64) -> (r: i64)
    requires
        lim >= 0,
    ensures
        r == clamp(a as int, lim as int),
{
    if a < -(lim as i128) {
        -lim
    } else if a > lim as i128 {
        lim
    } else {
        a as i64
    }
}

/// Whether `r` is the square root of `q`, rounded down.
pub open spec fn is_sqrt_floor(q: int, r: int) -> bool {
    &&& r >= 0
    &&& r * r <= q
    &&& q < (r + 1) * (r + 1)
}

/// The square root of `q`, rounded down.
pub open spec fn sqrt_floor(q: int) -> int {
    choose|r: int| is_sqrt_floor(q, r)
}

/// A nonnegative number has exactly one rounded-down square root.
pub proof fn lemma_sqrt_floor_unique(q: int, r: int)
    requires
        q >= 0,
        is_sqrt_floor(q, r),
    ensures
        sqrt_floor(q) == r,
{
    lemma_sqrt_floor_exists(q as nat);
    let s = sqrt_floor(q);
    assert(is_sqrt_floor(q, s));
    if s < r {
        assert((s + 1) * (s + 1) <= r * r) by (nonlinear_arith)
            requires 0 <= s + 1 <= r,
        ;
    }
    if r < s {
        assert((r + 1) * (r + 1) <= s * s) by (nonlinear_arith)
            requires 0 <= r + 1 <= s,
        ;
    }
}

/// Every nonnegative number has a rounded-down square root.
pub proof fn lemma_sqrt_floor_exists(q: nat)
    ensures
        is_sqrt_floor(q as int, sqrt_floor(q as int)),
    decreases q,
{
    if q == 0 {
        assert(is_sqrt_floor(0, 0));
    } else {
        lemma_sqrt_floor_exists((q - 1) as nat);
        let s = sqrt_floor(q - 1);
        assert(is_sqrt_floor(q - 1, s));
        if (s + 1) * (s + 1) <= q {
            assert(q < (s + 2) * (s + 2)) by (nonlinear_arith)
                requires
                    s >= 0,
                    q >= 1,
                    q - 1 < (s + 1) * (s + 1),
            ;
            assert(is_sqrt_floor(q as int, s + 1));
        } else {
            assert(is_sqrt_floor(q as int, s));
        }
    }
    let w = choose|r: int| is_sqrt_floor(q as int, r);
    assert(is_sqrt_floor(q as int, w));
}

/// The square root of `q`, rounded down, for `q` below `2^92`.
pub fn isqrt_u128(q: u128) -> (r: u128)
    requires
        q < 0x1000_0000_0000_0000_0000_0000,
    ensures
        r as int == sqrt_floor(q as int),
        r * r <= q,
{
    let mut lo: u128 = 0;
    let mut hi: u128 = 0x4000_0000_0000;
    proof {
        assert(hi * hi == 0x1000_0000_0000_0000_0000_0000) by (bit_vector)
            requires hi == 0x4000_0000_0000u128,
        ;
    }
    while hi - lo > 1
        invariant
            lo < hi,
            lo * lo <= q,
            q < hi * hi,
            hi <= 0x4000_0000_0000,
        decreases hi - lo,
    {
        let mid = lo + (hi - lo) / 2;
        assert(lo < mid < hi);
        proof {
            assert(mid * mid <= 0x1000_0000_0000_0000_0000_0000) by (nonlinear_arith)
                requires 0 <= mid <= 0x4000_0000_0000,
            ;
        }
        if mid * mid <= q {
            lo = mid;
        } else {
            hi = mid;
        }
    }
    proof {
        assert(hi == lo + 1);
        assert(is_sqrt_floor(q as int, lo as int));
        lemma_sqrt_floor_unique(q as int, lo as int);
    }
    lo
}

/// Quotients cannot exceed a bound that the numerator respects times the
/// denominator: if `a <= c * b` then `a / b <= c`.
pub proof fn lemma_div_bound(a: int, b: int, c: int)
    requires
        0 <= a,
        0 < b,
        0 <= c,
        a <= c * b,
    ensures
        a / b <= c,
{
    lemma_div_is_ordered(a, c * b, b);
    lemma_div_by_multiple(c, b);
}

/// Truncating division by a positive denominator never grows magnitude
/// past the same bound: if `|a| <= c * b` then `|div_trunc(a, b)| <= c`.
pub proof fn lemma_div_trunc_bound(a: int, b: int, c: int)
    requires
        0 < b,
        0 <= c,
        -(c * b) <= a <= c * b,
    ensures
        -c <= div_trunc(a, b) <= c,
{
    if a >= 0 {
        lemma_div_bound(a, b, c);
        vstd::arithmetic::div_mod::lemma_div_pos_is_pos(a, b);
    } else {
        lemma_div_bound(-a, b, c);
        vstd::arithmetic::div_mod::lemma_div_pos_is_pos(-a, b);
    }
}

} // verus!

//! The softened inverse-square pairwise attraction, in fixed point.
//!
//! The plane-unit law is `F(a, b) = (b - a) * G / (|b - a|^2 + eps)^(3/2)`:
//! an attraction of `a` toward `b`, kept finite near zero separation by the
//! softening term `eps`. In milli-units that becomes
//! `div_trunc((b - a) * GRAV * FP^3, q * sqrt_floor(q))` per component,
//! where `q = |b - a|^2 + SOFTEN_MILLI2` in square milli-units.

use vstd::prelude::*;

use crate::{FORCE_NUM, PAIR_FORCE_LIMIT, SOFTEN_MILLI2};
use crate::fixed::{div_trunc, sqrt_floor, is_sqrt_floor, isqrt_u128, lemma_div_bound};
use crate::vec2::Vec2;

verus! {

/// Squared separation of `a` and `b` plus the softening term,
/// in square milli-units.
pub open spec fn soft_dist2(a: Vec2, b: Vec2) -> int {
    (b.x - a.x) * (b.x - a.x) + (b.y - a.y) * (b.y - a.y) + SOFTEN_MILLI2
}

/// The component of the pairwise force along `x`.
pub open spec fn pair_force_x(a: Vec2, b: Vec2) -> int {
    let q = soft_dist2(a, b);
    div_trunc((b.x - a.x) * FORCE_NUM, q * sqrt_floor(q))
}

/// The component of the pairwise force along `y`.
pub open spec fn pair_force_y(a: Vec2, b: Vec2) -> int {
    let q = soft_dist2(a, b);
    div_trunc((b.y - a.y) * FORCE_NUM, q * sqrt_floor(q))
}

/// Each component of a pairwise force stays within `PAIR_FORCE_LIMIT`,
/// because the softening term floors the denominator.
pub proof fn lemma_pair_force_bound(a: Vec2, b: Vec2)
    requires
        a.in_range(),
        b.in_range(),
    ensures
        -PAIR_FORCE_LIMIT <= pair_force_x(a, b) <= PAIR_FORCE_LIMIT,
        -PAIR_FORCE_LIMIT <= pair_force_y(a, b) <= PAIR_FORCE_LIMIT,
{
    lemma_component_bound(b.x - a.x, b.y - a.y);
    lemma_component_bound(b.y - a.y, b.x - a.x);
    assert(soft_dist2(a, b) == sym_dist2(b.x - a.x, b.y - a.y));
    assert(soft_dist2(a, b) == sym_dist2(b.y - a.y, b.x - a.x));
}

/// `soft_dist2` written over the separation components, symmetric in the
/// two axes so one bound argument serves both.
spec fn sym_dist2(du: int, dv: int) -> int {
    du * du + dv * dv + SOFTEN_MILLI2
}

/// Bound on one force component `div_trunc(du * FORCE_NUM, q * sqrt_floor(q))`
/// where `q = sym_dist2(du, dv)`.
proof fn lemma_component_bound(du: int, dv: int)
    requires
        -2_000_000_000_000 <= du <= 2_000_000_000_000,
        -2_000_000_000_000 <= dv <= 2_000_000_000_000,
    ensures
        -PAIR_FORCE_LIMIT
            <= div_trunc(du * FORCE_NUM, sym_dist2(du, dv) * sqrt_floor(sym_dist2(du, dv)))
            <= PAIR_FORCE_LIMIT,
{
    let q = sym_dist2(du, dv);
    assert(du * du >= 0 && dv * dv >= 0 && du * du >= du && du * du >= -du) by (nonlinear_arith);
    crate::fixed::lemma_sqrt_floor_exists(q as nat);
    let s = sqrt_floor(q);
    assert(is_sqrt_floor(q, s));
    // The separation never exceeds the root of the softened square distance.
    assert(du <= s + 1 && -du <= s + 1) by (nonlinear_arith)
        requires
            du * du <= q,
            s >= 0,
            q < (s + 1) * (s + 1),
    ;
    assert(s >= 1) by (nonlinear_arith)
        requires
            s >= 0,
            q >= SOFTEN_MILLI2,
            s * s <= q,
            q < (s + 1) * (s + 1),
    ;
    assert(du <= s && -du <= s) by (nonlinear_arith)
        requires
            du * du <= q,
            s >= 1,
            q < (s + 1) * (s + 1),
    ;
    // `|du| * FORCE_NUM <= PAIR_FORCE_LIMIT * (q * s)`, since
    // `FORCE_NUM == PAIR_FORCE_LIMIT * SOFTEN_MILLI2`, `|du| <= s`
    // and `SOFTEN_MILLI2 <= q`.
    assert(du * FORCE_NUM <= PAIR_FORCE_LIMIT * (q * s) && -(du * FORCE_NUM)
        <= PAIR_FORCE_LIMIT * (q * s)) by (nonlinear_arith)
        requires
            du <= s,
            -du <= s,
            s >= 1,
            q >= SOFTEN_MILLI2,
    ;
    assert(q * s >= 1) by (nonlinear_arith)
        requires
            q >= 1,
            s >= 1,
    ;
    if du >= 0 {
        lemma_div_bound(du * FORCE_NUM, q * s, PAIR_FORCE_LIMIT as int);
        vstd::arithmetic::div_mod::lemma_div_pos_is_pos(du * FORCE_NUM, q * s);
    } else {
        lemma_div_bound(-(du * FORCE_NUM), q * s, PAIR_FORCE_LIMIT as int);
        vstd::arithmetic::div_mod::lemma_div_pos_is_pos(-(du * FORCE_NUM), q * s);
        assert(-(du * FORCE_NUM) == (-du) * FORCE_NUM) by (nonlinear_arith);
    }
}

/// The pairwise force `a` feels from a body at `b`, per component.
pub fn pair_force(a: Vec2, b: Vec2) -> (f: Vec2)
    requires
        a.in_range(),
        b.in_range(),
    ensures
        f.x == pair_force_x(a, b),
        f.y == pair_force_y(a, b),
        -PAIR_FORCE_LIMIT <= f.x <= PAIR_FORCE_LIMIT,
        -PAIR_FORCE_LIMIT <= f.y <= PAIR_FORCE_LIMIT,
{
    proof {
        lemma_pair_force_bound(a, b);
    }
    let dx: i64 = b.x - a.x;
    let dy: i64 = b.y - a.y;
    proof {
        assert(0 <= dx as int * dx as int <= 4_000_000_000_000_000_000_000_000 && 0 <= dy as int
            * dy as int <= 4_000_000_000_000_000_000_000_000) by (nonlinear_arith)
            requires
                -2_000_000_000_000 <= dx as int <= 2_000_000_000_000,
                -2_000_000_000_000 <= dy as int <= 2_000_000_000_000,
        ;
    }
    let dx2: i128 = (dx as i128) * (dx as i128);
    let dy2: i128 = (dy as i128) * (dy as i128);
    let q: u128 = (dx2 + dy2 + SOFTEN_MILLI2 as i128) as u128;
    let s: u128 = isqrt_u128(q);
    proof {
        crate::fixed::lemma_sqrt_floor_exists(q as nat);
        assert(s >= 1) by (nonlinear_arith)
            requires
                s as int == sqrt_floor(q as int),
                is_sqrt_floor(q as int, sqrt_floor(q as int)),
                q >= 1,
        ;
        assert(s <= 0x400_0000_0000) by (nonlinear_arith)
            requires
                s * s <= q,
                q <= 8_000_000_005_000_000_000_000_000,
        ;
        assert(1 <= q * s <= 35_184_372_110_822_232_555_520_000_000_000_000_000) by (nonlinear_arith)
            requires
                1 <= q <= 8_000_000_005_000_000_000_000_000,
                1 <= s <= 0x400_0000_0000,
        ;
    }
    let den: u128 = q * s;
    let fx = force_component(dx, den);
    let fy = force_component(dy, den);
    proof {
        assert(soft_dist2(a, b) == q as int);
    }
    Vec2 { x: fx, y: fy }
}

/// One signed component `div_trunc(du * FORCE_NUM, den)` of the force.
fn force_component(du: i64, den: u128) -> (r: i64)
    requires
        den >= 1,
        -2_000_000_000_000 <= du as int <= 2_000_000_000_000,
        -PAIR_FORCE_LIMIT <= div_trunc(du as int * FORCE_NUM, den as int) <= PAIR_FORCE_LIMIT,
    ensures
        r == div_trunc(du as int * FORCE_NUM, den as int),
{
    let mag: u128 = if du >= 0 {
        du as u128
    } else {
        (-du) as u128
    };
    let quot: u128 = mag * (FORCE_NUM as u128) / den;
    proof {
        if du >= 0 {
            assert(quot == div_trunc(du as int * FORCE_NUM, den as int));
        } else {
            assert(mag as int * FORCE_NUM == -(du as int * FORCE_NUM)) by (nonlinear_arith)
                requires mag as int == -(du as int),
            ;
            assert(quot == -div_trunc(du as int * FORCE_NUM, den as int));
        }
    }
    if du >= 0 {
        quot as i64
    } else {
        -(quot as i64)
    }
}

} // verus!

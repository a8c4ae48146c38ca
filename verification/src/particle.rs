//! Particles and their per-body force and integration steps.

use vstd::prelude::*;

use crate::{COORD_LIMIT, COUNT_LIMIT, DT_LIMIT, FP, PAIR_FORCE_LIMIT};
use crate::fixed::{clamp, clamp_i128, div_trunc};
use crate::force::{pair_force, pair_force_x, pair_force_y};
use crate::vec2::Vec2;

verus! {

/// One body of the simulation: identity, position, velocity, acceleration,
/// all coordinates in fixed-point milli-units.
#[derive(Clone, Copy, PartialEq, Eq, Structural, Debug)]
pub struct Particle {
    pub id: u32,
    pub pos: Vec2,
    pub vel: Vec2,
    pub accel: Vec2,
}

/// The exact pairwise force `me` feels from every listed particle whose id
/// differs from its own: the brute-force reference sum, x component paired
/// with y component.
pub open spec fn spec_brute(ps: Seq<Particle>, me: Particle) -> (int, int)
    decreases ps.len(),
{
    if ps.len() == 0 {
        (0, 0)
    } else {
        let rest = spec_brute(ps.drop_last(), me);
        let q = ps.last();
        if q.id == me.id {
            rest
        } else {
            (rest.0 + pair_force_x(me.pos, q.pos), rest.1 + pair_force_y(me.pos, q.pos))
        }
    }
}

/// The velocity component after one timestep: `vel + accel * dt`, in fixed
/// point, kept inside the simulation's coordinate range.
pub open spec fn step_vel_x(p: Particle, dt: int) -> int {
    clamp(p.vel.x + div_trunc(p.accel.x * dt, FP as int), COORD_LIMIT as int)
}

/// See `step_vel_x`.
pub open spec fn step_vel_y(p: Particle, dt: int) -> int {
    clamp(p.vel.y + div_trunc(p.accel.y * dt, FP as int), COORD_LIMIT as int)
}

/// The position component after one timestep: `pos + vel' * dt` with the
/// freshly updated velocity (semi-implicit Euler), kept inside the
/// simulation's coordinate range.
pub open spec fn step_pos_x(p: Particle, dt: int) -> int {
    clamp(p.pos.x + div_trunc(step_vel_x(p, dt) * dt, FP as int), COORD_LIMIT as int)
}

/// See `step_pos_x`.
pub open spec fn step_pos_y(p: Particle, dt: int) -> int {
    clamp(p.pos.y + div_trunc(step_vel_y(p, dt) * dt, FP as int), COORD_LIMIT as int)
}

/// A 64-bit component times a bounded timestep stays far inside `i128`.
proof fn lemma_dt_product(a: int, dt: int)
    requires
        -9_223_372_036_854_775_808 <= a <= 9_223_372_036_854_775_807,
        0 <= dt <= DT_LIMIT,
    ensures
        -9_223_372_036_854_775_808_000_000 <= a * dt <= 9_223_372_036_854_775_808_000_000,
{
    assert(-9_223_372_036_854_775_808_000_000 <= a * dt
        <= 9_223_372_036_854_775_808_000_000) by (nonlinear_arith)
        requires
            -9_223_372_036_854_775_808 <= a <= 9_223_372_036_854_775_807,
            0 <= dt <= 1_000_000,
    ;
}

impl Particle {
    /// A fresh particle at rest acceleration.
    pub fn new(id: u32, pos: Vec2, vel: Vec2) -> (r: Particle)
        ensures
            r == (Particle { id, pos, vel, accel: Vec2 { x: 0, y: 0 } }),
    {
        Particle { id, pos, vel, accel: Vec2 { x: 0, y: 0 } }
    }

    /// Recomputes this particle's acceleration as the exact pairwise sum
    /// over all neighbors with a different id: the brute-force counterpart
    /// of the tree's approximate evaluation.
    pub fn update(&mut self, neighbors: &[Particle])
        requires
            old(self).pos.in_range(),
            neighbors@.len() <= COUNT_LIMIT,
            forall|i: int| 0 <= i < neighbors@.len() ==> (#[trigger] neighbors@[i].pos).in_range(),
        ensures
            final(self).accel.x as int == spec_brute(neighbors@, *old(self)).0,
            final(self).accel.y as int == spec_brute(neighbors@, *old(self)).1,
            final(self).id == old(self).id,
            final(self).pos == old(self).pos,
            final(self).vel == old(self).vel,
    {
        let ghost me = *self;
        let mut fx: i64 = 0;
        let mut fy: i64 = 0;
        let mut i: usize = 0;
        while i < neighbors.len()
            invariant
                *self == me,
                me.pos.in_range(),
                0 <= i <= neighbors@.len(),
                neighbors@.len() <= COUNT_LIMIT,
                forall|k: int| 0 <= k < neighbors@.len() ==> (#[trigger] neighbors@[k].pos).in_range(),
                -(i as int * PAIR_FORCE_LIMIT) <= fx <= i as int * PAIR_FORCE_LIMIT,
                -(i as int * PAIR_FORCE_LIMIT) <= fy <= i as int * PAIR_FORCE_LIMIT,
                fx as int == spec_brute(neighbors@.subrange(0, i as int), me).0,
                fy as int == spec_brute(neighbors@.subrange(0, i as int), me).1,
            decreases neighbors@.len() - i,
        {
            let q = &neighbors[i];
            if q.id != self.id {
                let f = pair_force(self.pos, q.pos);
                fx = fx + f.x;
                fy = fy + f.y;
            }
            i = i + 1;
            proof {
                let pre = neighbors@.subrange(0, i - 1 as int);
                let cur = neighbors@.subrange(0, i as int);
                assert(cur.drop_last() =~= pre);
                assert(cur.last() == neighbors@[i - 1]);
            }
        }
        proof {
            assert(neighbors@.subrange(0, neighbors@.len() as int) =~= neighbors@);
        }
        self.accel = Vec2 { x: fx, y: fy };
    }

    /// Advances this particle one timestep of `dt_milli` thousandths of a
    /// second: velocity first from the acceleration, then position from the
    /// new velocity. Components are kept inside the coordinate range, a
    /// bound far beyond any reachable state.
    pub fn step(&mut self, dt_milli: u64)
        requires
            dt_milli <= DT_LIMIT,
        ensures
            final(self).vel.x as int == step_vel_x(*old(self), dt_milli as int),
            final(self).vel.y as int == step_vel_y(*old(self), dt_milli as int),
            final(self).pos.x as int == step_pos_x(*old(self), dt_milli as int),
            final(self).pos.y as int == step_pos_y(*old(self), dt_milli as int),
            final(self).pos.in_range(),
            final(self).vel.in_range(),
            final(self).id == old(self).id,
            final(self).accel == old(self).accel,
    {
        let dt = dt_milli as i128;
        proof {
            lemma_dt_product(self.accel.x as int, dt as int);
            lemma_dt_product(self.accel.y as int, dt as int);
        }
        let vx = clamp_i128(self.vel.x as i128 + (self.accel.x as i128 * dt) / (FP as i128), COORD_LIMIT);
        let vy = clamp_i128(self.vel.y as i128 + (self.accel.y as i128 * dt) / (FP as i128), COORD_LIMIT);
        self.vel = Vec2 { x: vx, y: vy };
        proof {
            lemma_dt_product(vx as int, dt as int);
            lemma_dt_product(vy as int, dt as int);
        }
        let px = clamp_i128(self.pos.x as i128 + (vx as i128 * dt) / (FP as i128), COORD_LIMIT);
        let py = clamp_i128(self.pos.y as i128 + (vy as i128 * dt) / (FP as i128), COORD_LIMIT);
        self.pos = Vec2 { x: px, y: py };
    }
}

} // verus!

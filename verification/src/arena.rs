//! The simulation driver: owns the particles, rebuilds the tree and
//! recomputes every acceleration each tick, and integrates unless frozen.

use vstd::prelude::*;

use crate::{BURST_RADIUS2, COUNT_LIMIT, DT_LIMIT, SPIN, THETA_DEFAULT};
use crate::particle::{step_pos_x, step_pos_y, step_vel_x, step_vel_y, Particle};
use crate::tree::{construct_tree, positions, spec_construct, spec_force, Node, TreeError};
use crate::vec2::Vec2;

verus! {

/// The tangential spin a freshly spawned particle starts with: the position
/// rotated a quarter turn and scaled.
pub open spec fn spin_velocity(p: Vec2) -> Vec2 {
    Vec2 { x: (-(p.y as int) * SPIN) as i64, y: (p.x as int * SPIN) as i64 }
}

/// Whether a spawn position lies inside the burst radius.
pub open spec fn in_burst(p: Vec2) -> bool {
    p.x * p.x + p.y * p.y <= BURST_RADIUS2
}

/// The driver: the particle store, the most recent tree, the freeze state,
/// the viewport extent the renderer reported, the overlay toggles, and the
/// monotonic id counter, which is never reused, not even across a reset.
pub struct Arena {
    pub particles: Vec<Particle>,
    pub tree: Option<Node>,
    pub width: i64,
    pub height: i64,
    pub vel_indicator: bool,
    pub accel_indicator: bool,
    pub tree_indicator: bool,
    pub freeze: bool,
    pub id_counter: u32,
}

impl Arena {
    /// The driver's invariant: not too many particles, positions and
    /// velocities in coordinate range, and ids strictly increasing along
    /// the store and all below the counter.
    pub open spec fn wf(self) -> bool {
        &&& self.particles@.len() <= COUNT_LIMIT
        &&& forall|i: int|
            0 <= i < self.particles@.len() ==> (#[trigger] self.particles@[i]).pos.in_range()
                && self.particles@[i].vel.in_range()
        &&& forall|i: int, j: int|
            0 <= i < j < self.particles@.len() ==> (#[trigger] self.particles@[i]).id < (
            #[trigger] self.particles@[j]).id
        &&& forall|i: int|
            0 <= i < self.particles@.len() ==> (#[trigger] self.particles@[i]).id
                < self.id_counter
    }

    /// An empty arena of the given viewport extent.
    pub fn new(width: i64, height: i64) -> (r: Arena)
        ensures
            r.wf(),
            r.particles@.len() == 0,
            r.tree is None,
            r.width == width,
            r.height == height,
            !r.vel_indicator && !r.accel_indicator && !r.tree_indicator,
            !r.freeze,
            r.id_counter == 0,
    {
        Arena {
            particles: Vec::new(),
            tree: None,
            width,
            height,
            vel_indicator: false,
            accel_indicator: false,
            tree_indicator: false,
            freeze: false,
            id_counter: 0,
        }
    }

    /// Flips the freeze state and touches nothing else.
    pub fn toggle_freeze(&mut self)
        ensures
            *final(self) == (Arena { freeze: !old(self).freeze, ..*old(self) }),
    {
        self.freeze = !self.freeze;
    }

    /// Flips the velocity overlay toggle and touches nothing else.
    pub fn toggle_velocity_indicator(&mut self)
        ensures
            *final(self) == (Arena { vel_indicator: !old(self).vel_indicator, ..*old(self) }),
    {
        self.vel_indicator = !self.vel_indicator;
    }

    /// Flips the acceleration overlay toggle and touches nothing else.
    pub fn toggle_acceleration_indicator(&mut self)
        ensures
            *final(self) == (Arena { accel_indicator: !old(self).accel_indicator, ..*old(self) }),
    {
        self.accel_indicator = !self.accel_indicator;
    }

    /// Flips the tree overlay toggle and touches nothing else.
    pub fn toggle_tree_indicator(&mut self)
        ensures
            *final(self) == (Arena { tree_indicator: !old(self).tree_indicator, ..*old(self) }),
    {
        self.tree_indicator = !self.tree_indicator;
    }

    /// Records a new viewport extent.
    pub fn update_size(&mut self, size: Vec2)
        ensures
            *final(self) == (Arena { width: size.x, height: size.y, ..*old(self) }),
    {
        self.width = size.x;
        self.height = size.y;
    }

    /// Appends one particle with the next id.
    pub fn add_particle(&mut self, pos: Vec2, vel: Vec2)
        requires
            old(self).wf(),
            old(self).particles@.len() < COUNT_LIMIT,
            old(self).id_counter < u32::MAX,
            pos.in_range(),
            vel.in_range(),
        ensures
            final(self).wf(),
            final(self).particles@ == old(self).particles@.push(
                Particle { id: old(self).id_counter, pos, vel, accel: Vec2 { x: 0, y: 0 } },
            ),
            final(self).id_counter == old(self).id_counter + 1,
            final(self).tree == old(self).tree,
            final(self).freeze == old(self).freeze,
            final(self).width == old(self).width,
            final(self).height == old(self).height,
            final(self).vel_indicator == old(self).vel_indicator,
            final(self).accel_indicator == old(self).accel_indicator,
            final(self).tree_indicator == old(self).tree_indicator,
    {
        let particle = Particle::new(self.id_counter, pos, vel);
        self.id_counter = self.id_counter + 1;
        self.particles.push(particle);
    }

    /// Spawns one particle per seed position, in order: each gets the next
    /// id and the tangential spin velocity. The seeds come from whatever
    /// radial sampling the caller uses; they must lie inside the burst
    /// radius.
    pub fn big_bang(&mut self, seeds: &Vec<Vec2>)
        requires
            old(self).wf(),
            old(self).particles@.len() + seeds@.len() <= COUNT_LIMIT,
            old(self).id_counter + seeds@.len() <= u32::MAX,
            forall|i: int| 0 <= i < seeds@.len() ==> in_burst(#[trigger] seeds@[i]),
        ensures
            final(self).wf(),
            final(self).particles@.len() == old(self).particles@.len() + seeds@.len(),
            forall|i: int|
                0 <= i < old(self).particles@.len() ==> final(self).particles@[i] == old(
                    self,
                ).particles@[i],
            forall|j: int|
                0 <= j < seeds@.len() ==> final(self).particles@[old(self).particles@.len() + j]
                    == (Particle {
                    id: (old(self).id_counter + j) as u32,
                    pos: seeds@[j],
                    vel: spin_velocity(seeds@[j]),
                    accel: Vec2 { x: 0, y: 0 },
                }),
            final(self).id_counter == old(self).id_counter + seeds@.len(),
            final(self).tree == old(self).tree,
            final(self).freeze == old(self).freeze,
            final(self).width == old(self).width,
            final(self).height == old(self).height,
            final(self).vel_indicator == old(self).vel_indicator,
            final(self).accel_indicator == old(self).accel_indicator,
            final(self).tree_indicator == old(self).tree_indicator,
    {
        let mut i: usize = 0;
        while i < seeds.len()
            invariant
                0 <= i <= seeds@.len(),
                old(self).wf(),
                self.wf(),
                old(self).particles@.len() + seeds@.len() <= COUNT_LIMIT,
                old(self).id_counter + seeds@.len() <= u32::MAX,
                forall|k: int| 0 <= k < seeds@.len() ==> in_burst(#[trigger] seeds@[k]),
                self.particles@.len() == old(self).particles@.len() + i,
                self.id_counter == old(self).id_counter + i,
                forall|k: int|
                    0 <= k < old(self).particles@.len() ==> self.particles@[k] == old(
                        self,
                    ).particles@[k],
                forall|j: int|
                    0 <= j < i ==> self.particles@[old(self).particles@.len() + j] == (Particle {
                        id: (old(self).id_counter + j) as u32,
                        pos: seeds@[j],
                        vel: spin_velocity(seeds@[j]),
                        accel: Vec2 { x: 0, y: 0 },
                    }),
                self.tree == old(self).tree,
                self.freeze == old(self).freeze,
                self.width == old(self).width,
                self.height == old(self).height,
                self.vel_indicator == old(self).vel_indicator,
                self.accel_indicator == old(self).accel_indicator,
                self.tree_indicator == old(self).tree_indicator,
            decreases seeds@.len() - i,
        {
            let s = seeds[i];
            proof {
                assert(-100_000 <= s.x <= 100_000 && -100_000 <= s.y <= 100_000)
                    by (nonlinear_arith)
                    requires s.x * s.x + s.y * s.y <= 10_000_000_000,
                ;
            }
            let vel = Vec2 { x: -s.y * crate::SPIN, y: s.x * crate::SPIN };
            self.add_particle(s, vel);
            i = i + 1;
        }
    }

    /// Discards every particle and spawns a fresh burst from the seeds.
    /// The id counter carries on where it was, so ids stay unique across
    /// resets.
    pub fn reset(&mut self, seeds: &Vec<Vec2>)
        requires
            old(self).wf(),
            seeds@.len() <= COUNT_LIMIT,
            old(self).id_counter + seeds@.len() <= u32::MAX,
            forall|i: int| 0 <= i < seeds@.len() ==> in_burst(#[trigger] seeds@[i]),
        ensures
            final(self).wf(),
            final(self).particles@.len() == seeds@.len(),
            forall|j: int|
                0 <= j < seeds@.len() ==> final(self).particles@[j] == (Particle {
                    id: (old(self).id_counter + j) as u32,
                    pos: seeds@[j],
                    vel: spin_velocity(seeds@[j]),
                    accel: Vec2 { x: 0, y: 0 },
                }),
            final(self).id_counter == old(self).id_counter + seeds@.len(),
            final(self).tree == old(self).tree,
            final(self).freeze == old(self).freeze,
            final(self).width == old(self).width,
            final(self).height == old(self).height,
            final(self).vel_indicator == old(self).vel_indicator,
            final(self).accel_indicator == old(self).accel_indicator,
            final(self).tree_indicator == old(self).tree_indicator,
    {
        self.particles.clear();
        self.big_bang(seeds);
    }

    /// One tick's force pass: rebuilds the tree from the current positions
    /// and recomputes every particle's acceleration from it, touching no
    /// position or velocity. On an empty particle store the tick is
    /// rejected and nothing changes.
    pub fn update(&mut self) -> (r: Result<(), TreeError>)
        requires
            old(self).wf(),
        ensures
            final(self).wf(),
            r is Err <==> old(self).particles@.len() == 0,
            r is Err ==> *final(self) == *old(self) && r == Err::<(), TreeError>(
                TreeError::EmptyInput,
            ),
            r is Ok ==> ({
                let t = spec_construct(positions(old(self).particles@));
                &&& final(self).tree == Some(t)
                &&& final(self).particles@.len() == old(self).particles@.len()
                &&& forall|i: int|
                    0 <= i < old(self).particles@.len() ==> {
                        let prev = old(self).particles@[i];
                        let cur = #[trigger] final(self).particles@[i];
                        &&& cur.id == prev.id
                        &&& cur.pos == prev.pos
                        &&& cur.vel == prev.vel
                        &&& cur.accel.x as int == spec_force(t, prev.pos, THETA_DEFAULT as int).0
                        &&& cur.accel.y as int == spec_force(t, prev.pos, THETA_DEFAULT as int).1
                    }
                &&& final(self).freeze == old(self).freeze
                &&& final(self).id_counter == old(self).id_counter
                &&& final(self).width == old(self).width
                &&& final(self).height == old(self).height
                &&& final(self).vel_indicator == old(self).vel_indicator
                &&& final(self).accel_indicator == old(self).accel_indicator
                &&& final(self).tree_indicator == old(self).tree_indicator
            }),
    {
        let tree = match construct_tree(self.particles.as_slice()) {
            Ok(tree) => tree,
            Err(e) => {
                return Err(e);
            },
        };
        let ghost t = spec_construct(positions(old(self).particles@));
        let mut i: usize = 0;
        while i < self.particles.len()
            invariant
                0 <= i <= self.particles@.len(),
                self.wf(),
                tree.wf(),
                tree == t,
                self.particles@.len() == old(self).particles@.len(),
                forall|k: int|
                    i <= k < self.particles@.len() ==> #[trigger] self.particles@[k] == old(
                        self,
                    ).particles@[k],
                forall|k: int|
                    0 <= k < i ==> {
                        let prev = old(self).particles@[k];
                        let cur = #[trigger] self.particles@[k];
                        &&& cur.id == prev.id
                        &&& cur.pos == prev.pos
                        &&& cur.vel == prev.vel
                        &&& cur.accel.x as int == spec_force(t, prev.pos, THETA_DEFAULT as int).0
                        &&& cur.accel.y as int == spec_force(t, prev.pos, THETA_DEFAULT as int).1
                    },
                self.tree == old(self).tree,
                self.freeze == old(self).freeze,
                self.id_counter == old(self).id_counter,
                self.width == old(self).width,
                self.height == old(self).height,
                self.vel_indicator == old(self).vel_indicator,
                self.accel_indicator == old(self).accel_indicator,
                self.tree_indicator == old(self).tree_indicator,
            decreases self.particles@.len() - i,
        {
            let mut p = self.particles[i];
            let f = tree.compute_force(p.pos, THETA_DEFAULT);
            p.accel = f;
            self.particles.set(i, p);
            i = i + 1;
        }
        self.tree = Some(tree);
        Ok(())
    }

    /// One tick's integration pass: advances every particle by `dt_milli`
    /// thousandths of a second, unless the simulation is frozen, in which
    /// case nothing at all changes.
    pub fn step(&mut self, dt_milli: u64)
        requires
            old(self).wf(),
            dt_milli <= DT_LIMIT,
        ensures
            final(self).wf(),
            old(self).freeze ==> *final(self) == *old(self),
            !old(self).freeze ==> ({
                &&& final(self).particles@.len() == old(self).particles@.len()
                &&& forall|i: int|
                    0 <= i < old(self).particles@.len() ==> {
                        let prev = old(self).particles@[i];
                        let cur = #[trigger] final(self).particles@[i];
                        &&& cur.id == prev.id
                        &&& cur.accel == prev.accel
                        &&& cur.vel.x as int == step_vel_x(prev, dt_milli as int)
                        &&& cur.vel.y as int == step_vel_y(prev, dt_milli as int)
                        &&& cur.pos.x as int == step_pos_x(prev, dt_milli as int)
                        &&& cur.pos.y as int == step_pos_y(prev, dt_milli as int)
                    }
                &&& final(self).tree == old(self).tree
                &&& final(self).freeze == old(self).freeze
                &&& final(self).id_counter == old(self).id_counter
                &&& final(self).width == old(self).width
                &&& final(self).height == old(self).height
                &&& final(self).vel_indicator == old(self).vel_indicator
                &&& final(self).accel_indicator == old(self).accel_indicator
                &&& final(self).tree_indicator == old(self).tree_indicator
            }),
    {
        if self.freeze {
            return ;
        }
        let dt = dt_milli;
        let mut i: usize = 0;
        while i < self.particles.len()
            invariant
                0 <= i <= self.particles@.len(),
                self.wf(),
                dt <= DT_LIMIT,
                self.particles@.len() == old(self).particles@.len(),
                forall|k: int|
                    i <= k < self.particles@.len() ==> #[trigger] self.particles@[k] == old(
                        self,
                    ).particles@[k],
                forall|k: int|
                    0 <= k < i ==> {
                        let prev = old(self).particles@[k];
                        let cur = #[trigger] self.particles@[k];
                        &&& cur.id == prev.id
                        &&& cur.accel == prev.accel
                        &&& cur.vel.x as int == step_vel_x(prev, dt as int)
                        &&& cur.vel.y as int == step_vel_y(prev, dt as int)
                        &&& cur.pos.x as int == step_pos_x(prev, dt as int)
                        &&& cur.pos.y as int == step_pos_y(prev, dt as int)
                    },
                self.tree == old(self).tree,
                self.freeze == old(self).freeze,
                self.id_counter == old(self).id_counter,
                self.width == old(self).width,
                self.height == old(self).height,
                self.vel_indicator == old(self).vel_indicator,
                self.accel_indicator == old(self).accel_indicator,
                self.tree_indicator == old(self).tree_indicator,
            decreases self.particles@.len() - i,
        {
            let mut p = self.particles[i];
            p.step(dt);
            self.particles.set(i, p);
            i = i + 1;
        }
    }
}

} // verus!

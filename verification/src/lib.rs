//! A Barnes-Hut n-body simulation core on fixed-point plane coordinates.
//!
//! The library rebuilds a quadtree over the current particle positions each
//! tick, aggregates mass per region, evaluates a softened inverse-square
//! attraction with an opening-angle cutoff, and advances the particles with
//! semi-implicit Euler integration.
//!
//! Coordinates, velocities and forces are carried as signed integers in
//! milli-units (`FP` stored steps per plane unit), so every arithmetic step
//! of the simulation is exact, deterministic and checked. The surrounding
//! application converts to and from whatever units its renderer uses.

use vstd::prelude::*;

pub mod fixed;
pub mod vec2;
pub mod force;
pub mod tree;
pub mod particle;
pub mod laws;
pub mod arena;

verus! {

/// Fixed-point scale: stored steps per plane unit.
pub const FP: i64 = 1000;

/// Largest coordinate magnitude the simulation carries, in milli-units.
/// Positions and velocities are clamped here by the integrator, so all
/// force arithmetic stays well inside `i128`.
pub const COORD_LIMIT: i64 = 1_000_000_000_000;

/// Largest number of particles a tree or arena holds.
pub const COUNT_LIMIT: usize = 1_000_000;

/// Gravitational constant of the force law, scaled for visualization.
pub const GRAV: i64 = 5000;

/// Softening term of the force law: five square plane units, expressed in
/// square milli-units. It bounds the force at near-zero separation.
pub const SOFTEN_MILLI2: i64 = 5_000_000;

/// `GRAV * FP * FP * FP`: the numerator scale of the fixed-point force law.
pub const FORCE_NUM: i64 = 5_000_000_000_000;

/// Largest magnitude one pairwise force component can take:
/// `FORCE_NUM / SOFTEN_MILLI2`.
pub const PAIR_FORCE_LIMIT: i64 = 1_000_000;

/// Largest opening-angle threshold accepted, in thousandths.
pub const THETA_LIMIT: u64 = 1_000_000;

/// Opening-angle threshold the per-tick pipeline uses, in thousandths.
pub const THETA_DEFAULT: u64 = 200;

/// Largest timestep the integrator accepts, in thousandths of a second.
pub const DT_LIMIT: u64 = 1_000_000;

/// Subdivision budget of the tree: an insertion that would split deeper than
/// this merges the remaining points into one leaf aggregate instead, which
/// keeps coincident positions from recursing without bound.
pub const MAX_DEPTH: u64 = 64;

/// Tangential spin factor applied to freshly spawned particles.
pub const SPIN: i64 = 5;

/// Spawn radius of a particle burst, squared, in square milli-units
/// (one hundred plane units).
pub const BURST_RADIUS2: i64 = 10_000_000_000;

} // verus!

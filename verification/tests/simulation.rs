//! Tests for the simulation driver and the integrator.

use barneshut::arena::Arena;
use barneshut::particle::Particle;
use barneshut::vec2::Vec2;

/// Deterministic in-radius seed positions for a spawn burst.
fn burst_seeds(n: usize) -> Vec<Vec2> {
    let mut seeds = Vec::new();
    let mut state: u64 = 0x2545_f491_4f6c_dd1d;
    for _ in 0..n {
        state = state.wrapping_mul(6_364_136_223_846_793_005).wrapping_add(1_442_695_040_888_963_407);
        let x = (state >> 20) as i64 % 70_000;
        state = state.wrapping_mul(6_364_136_223_846_793_005).wrapping_add(1_442_695_040_888_963_407);
        let y = (state >> 20) as i64 % 70_000;
        seeds.push(Vec2::new(x - 35_000, y - 35_000));
    }
    seeds
}

#[test]
fn reset_spawns_the_requested_burst() {
    let mut arena = Arena::new(800_000, 600_000);
    // Advance the id counter first: ids are never reused, even across reset.
    arena.add_particle(Vec2::new(0, 0), Vec2::new(0, 0));
    arena.add_particle(Vec2::new(1_000, 0), Vec2::new(0, 0));
    let counter_before = arena.id_counter;
    assert_eq!(counter_before, 2);

    let seeds = burst_seeds(500);
    arena.reset(&seeds);

    assert_eq!(arena.particles.len(), 500);
    for (j, p) in arena.particles.iter().enumerate() {
        // Ids continue monotonically from the pre-reset counter.
        assert_eq!(p.id, counter_before + j as u32);
        // Every position lies within the burst radius of one hundred
        // plane units around the origin.
        assert!(p.pos.x * p.pos.x + p.pos.y * p.pos.y <= 10_000_000_000);
        assert_eq!(p.pos, seeds[j]);
        // The spawn velocity is the tangential spin seed.
        assert_eq!((p.vel.x, p.vel.y), (-seeds[j].y * 5, seeds[j].x * 5));
        assert_eq!((p.accel.x, p.accel.y), (0, 0));
    }
    assert_eq!(arena.id_counter, 502);
}

#[test]
fn freeze_suppresses_only_the_integrator() {
    let mut arena = Arena::new(800_000, 600_000);
    arena.add_particle(Vec2::new(0, 0), Vec2::new(2_000, 0));
    arena.add_particle(Vec2::new(10_000, 0), Vec2::new(0, 1_000));
    arena.add_particle(Vec2::new(-4_000, 6_000), Vec2::new(500, -500));

    arena.toggle_freeze();
    assert!(arena.freeze);

    let before: Vec<Particle> = arena.particles.clone();
    for _ in 0..10 {
        arena.update().unwrap();
        arena.step(16);
    }
    for (i, p) in arena.particles.iter().enumerate() {
        // Positions and velocities are bit-identical to their pre-freeze
        // values...
        assert_eq!(p.pos, before[i].pos);
        assert_eq!(p.vel, before[i].vel);
        assert_eq!(p.id, before[i].id);
    }
    // ...while accelerations were still recomputed from the fresh tree.
    assert!(arena.particles.iter().any(|p| p.accel.x != 0 || p.accel.y != 0));
    assert!(arena.tree.is_some());

    // Unfreezing lets the integrator move the particles again.
    arena.toggle_freeze();
    assert!(!arena.freeze);
    arena.update().unwrap();
    arena.step(16);
    assert!(arena.particles.iter().zip(before.iter()).any(|(p, b)| p.pos != b.pos));
}

#[test]
fn update_on_empty_store_changes_nothing() {
    let mut arena = Arena::new(100_000, 100_000);
    let r = arena.update();
    assert!(r.is_err());
    assert_eq!(arena.particles.len(), 0);
    assert!(arena.tree.is_none());
}

#[test]
fn update_recomputes_accelerations_only() {
    let mut arena = Arena::new(100_000, 100_000);
    arena.add_particle(Vec2::new(0, 0), Vec2::new(123, -456));
    arena.add_particle(Vec2::new(10_000, 0), Vec2::new(-789, 42));
    arena.update().unwrap();
    assert_eq!(arena.particles[0].pos, Vec2::new(0, 0));
    assert_eq!(arena.particles[0].vel, Vec2::new(123, -456));
    // At the default opening angle of 0.2 a two-body tree still descends
    // to its leaves, so each acceleration is the exact pairwise pull.
    assert_eq!((arena.particles[0].accel.x, arena.particles[0].accel.y), (46_475, 0));
    assert_eq!((arena.particles[1].accel.x, arena.particles[1].accel.y), (-46_475, 0));
}

#[test]
fn step_is_semi_implicit_euler() {
    let mut p = Particle::new(7, Vec2::new(0, 0), Vec2::new(1_000, 0));
    p.accel = Vec2::new(1_000, -2_000);
    // One full second: velocity first, then position from the new velocity.
    p.step(1_000);
    assert_eq!((p.vel.x, p.vel.y), (2_000, -2_000));
    assert_eq!((p.pos.x, p.pos.y), (2_000, -2_000));
    assert_eq!(p.id, 7);
    // A sixteen-millisecond tick truncates toward zero.
    let mut q = Particle::new(8, Vec2::new(100, 100), Vec2::new(1_000, -1_000));
    q.accel = Vec2::new(500, 500);
    q.step(16);
    // vel += accel * 16 / 1000; pos += vel * 16 / 1000.
    assert_eq!((q.vel.x, q.vel.y), (1_008, -992));
    assert_eq!((q.pos.x, q.pos.y), (116, 85));
}

#[test]
fn burst_appends_after_existing_particles() {
    let mut arena = Arena::new(100_000, 100_000);
    arena.add_particle(Vec2::new(7, 7), Vec2::new(1, 1));
    let seeds = vec![Vec2::new(1_000, 0), Vec2::new(0, -2_000)];
    arena.big_bang(&seeds);
    assert_eq!(arena.particles.len(), 3);
    assert_eq!(arena.particles[0].pos, Vec2::new(7, 7));
    assert_eq!(arena.particles[1].id, 1);
    assert_eq!(arena.particles[2].id, 2);
    assert_eq!(arena.particles[2].pos, Vec2::new(0, -2_000));
    assert_eq!((arena.particles[2].vel.x, arena.particles[2].vel.y), (10_000, 0));
}

#[test]
fn step_clamps_at_the_coordinate_range() {
    // The integrator keeps components inside the simulation's coordinate
    // range, a bound far beyond any reachable state.
    let lim: i64 = 1_000_000_000_000;
    let mut p = Particle::new(0, Vec2::new(lim, 0), Vec2::new(lim, 0));
    p.accel = Vec2::new(i64::MAX, 0);
    p.step(1_000);
    assert_eq!(p.vel.x, lim);
    assert_eq!(p.pos.x, lim);
}

#[test]
fn toggles_flip_and_restore() {
    let mut arena = Arena::new(1, 2);
    assert!(!arena.vel_indicator && !arena.accel_indicator && !arena.tree_indicator);
    arena.toggle_velocity_indicator();
    arena.toggle_acceleration_indicator();
    arena.toggle_tree_indicator();
    assert!(arena.vel_indicator && arena.accel_indicator && arena.tree_indicator);
    arena.toggle_velocity_indicator();
    assert!(!arena.vel_indicator);
    arena.update_size(Vec2::new(640_000, 480_000));
    assert_eq!((arena.width, arena.height), (640_000, 480_000));
}

#[test]
fn brute_force_skips_only_the_same_id() {
    let pts = vec![
        Particle::new(0, Vec2::new(0, 0), Vec2::new(0, 0)),
        Particle::new(1, Vec2::new(10_000, 0), Vec2::new(0, 0)),
    ];
    let mut me = pts[0];
    me.update(&pts);
    assert_eq!((me.accel.x, me.accel.y), (46_475, 0));
    // A particle alone in the list feels nothing from itself.
    let solo = vec![Particle::new(5, Vec2::new(3_000, 3_000), Vec2::new(0, 0))];
    let mut s = solo[0];
    s.update(&solo);
    assert_eq!((s.accel.x, s.accel.y), (0, 0));
}

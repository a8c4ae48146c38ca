//! Tests for tree construction, aggregates and force evaluation.

use barneshut::particle::Particle;
use barneshut::tree::{construct_tree, TreeError};
use barneshut::vec2::Vec2;

fn body(id: u32, x: i64, y: i64) -> Particle {
    Particle::new(id, Vec2::new(x, y), Vec2::new(0, 0))
}

#[test]
fn two_bodies_pairwise_force() {
    // Two particles ten plane units apart. At zero opening angle the tree
    // descends to the leaves, so each feels exactly the softened pairwise
    // attraction G * d / (d^2 + eps)^1.5 = 5000 * 10 / 105^1.5, about
    // 46.47 plane units, directed toward the other body.
    let pts = vec![body(0, 0, 0), body(1, 10_000, 0)];
    let tree = construct_tree(&pts).unwrap();
    assert!(tree.is_resolved());
    let f0 = tree.compute_force(pts[0].pos, 0);
    let f1 = tree.compute_force(pts[1].pos, 0);
    assert_eq!((f0.x, f0.y), (46_475, 0));
    assert_eq!((f1.x, f1.y), (-46_475, 0));
    // Within one percent of the plane-unit value 46.4714.
    assert!((f0.x - 46_471).abs() <= 464);
    // The opening test measures the larger region extent, so even for this
    // axis-aligned pair (whose bounding box is flat) the root never passes
    // as far: with two particles the evaluation stays leaf-exact at any
    // opening angle.
    let fa = tree.compute_force(pts[0].pos, 500);
    assert_eq!((fa.x, fa.y), (46_475, 0));
}

#[test]
fn empty_input_is_rejected() {
    let pts: Vec<Particle> = vec![];
    match construct_tree(&pts) {
        Ok(_) => panic!("an empty particle set must be rejected"),
        Err(e) => assert_eq!(e, TreeError::EmptyInput),
    }
}

#[test]
fn mass_is_conserved_over_leaves() {
    let pts = vec![
        body(0, 0, 0),
        body(1, 10_000, 0),
        body(2, -3_000, 4_000),
        body(3, 7_000, -9_000),
        body(4, 2_000, 2_000),
        body(5, 2_001, 2_001),
        body(6, -8_000, -1_000),
    ];
    let tree = construct_tree(&pts).unwrap();
    assert_eq!(tree.count(), 7);
    assert_eq!(tree.leaf_weight_sum(), 7);
}

#[test]
fn coincident_points_merge_at_the_cap() {
    // Identical positions cannot be separated by subdividing; the builder
    // must terminate and merge them into one leaf aggregate, losing no mass.
    let pts = vec![body(0, 500, 500), body(1, 500, 500), body(2, 500, 500), body(3, 9_000, 0)];
    let tree = construct_tree(&pts).unwrap();
    assert_eq!(tree.count(), 4);
    assert_eq!(tree.leaf_weight_sum(), 4);
    assert!(!tree.is_resolved());
    let c = tree.center_of_mass();
    assert_eq!((c.x, c.y), ((500 * 3 + 9_000) / 4, (500 * 3) / 4));
}

#[test]
fn root_center_of_mass_is_the_mean() {
    let pts = vec![body(0, 0, 0), body(1, 10_000, 0), body(2, 2_000, 7_000)];
    let tree = construct_tree(&pts).unwrap();
    let c = tree.center_of_mass();
    assert_eq!((c.x, c.y), (4_000, 2_333));

    // The truncated mean rounds toward zero on negative sums as well.
    let neg = vec![body(0, -5_000, 0), body(1, 0, -1_000)];
    let tn = construct_tree(&neg).unwrap();
    let cn = tn.center_of_mass();
    assert_eq!((cn.x, cn.y), (-2_500, -500));
}

#[test]
fn zero_theta_matches_brute_force() {
    // At zero opening angle the tree evaluation must agree exactly with
    // the quadratic pairwise sum for every particle.
    let pts = vec![
        body(0, 0, 0),
        body(1, 40_000, 30_000),
        body(2, 45_000, 35_000),
        body(3, 90_000, -20_000),
        body(4, 95_000, -25_000),
        body(5, 20_000, 80_000),
        body(6, 25_000, 85_000),
        body(7, -60_000, 60_000),
    ];
    let tree = construct_tree(&pts).unwrap();
    assert!(tree.is_resolved());
    for i in 0..pts.len() {
        let f = tree.compute_force(pts[i].pos, 0);
        let mut p = pts[i];
        p.update(&pts);
        assert_eq!((f.x, f.y), (p.accel.x, p.accel.y));
    }
}

#[test]
fn deviation_grows_from_zero_theta() {
    // Raising the opening angle lets ever larger regions stand in as
    // single bodies, and the deviation from the exact sum grows in steps.
    let pts = vec![
        body(0, 0, 0),
        body(1, 40_000, 30_000),
        body(2, 45_000, 35_000),
        body(3, 90_000, -20_000),
        body(4, 95_000, -25_000),
        body(5, 20_000, 80_000),
        body(6, 25_000, 85_000),
        body(7, -60_000, 60_000),
    ];
    let tree = construct_tree(&pts).unwrap();
    let exact = tree.compute_force(pts[0].pos, 0);
    assert_eq!((exact.x, exact.y), (3_746, 3_692));
    let dev = |theta: u64| -> i64 {
        let f = tree.compute_force(pts[0].pos, theta);
        (f.x - exact.x).abs() + (f.y - exact.y).abs()
    };
    assert_eq!(dev(0), 0);
    assert_eq!(dev(200), 10);
    assert_eq!(dev(2000), 1_267);
    assert!(dev(0) <= dev(200) && dev(200) <= dev(2000));
}

#[test]
fn rebuilding_reproduces_every_aggregate() {
    let pts = vec![
        body(0, 1_000, 2_000),
        body(1, -4_000, 8_000),
        body(2, 12_000, -3_000),
        body(3, 500, 500),
        body(4, -9_000, -9_000),
    ];
    let t1 = construct_tree(&pts).unwrap();
    let t2 = construct_tree(&pts).unwrap();
    assert_eq!(t1.count(), t2.count());
    let c1 = t1.center_of_mass();
    let c2 = t2.center_of_mass();
    assert_eq!((c1.x, c1.y), (c2.x, c2.y));
    let r1 = t1.rectangles();
    let r2 = t2.rectangles();
    assert_eq!(r1.len(), r2.len());
    for i in 0..r1.len() {
        assert_eq!(r1[i], r2[i]);
    }
}

#[test]
fn insertion_order_leaves_root_aggregates_alone() {
    let a = vec![
        body(0, 1_000, 2_000),
        body(1, -4_000, 8_000),
        body(2, 12_000, -3_000),
        body(3, -9_000, -9_000),
    ];
    let b = vec![a[2], a[0], a[3], a[1]];
    let ta = construct_tree(&a).unwrap();
    let tb = construct_tree(&b).unwrap();
    assert_eq!(ta.count(), tb.count());
    let ca = ta.center_of_mass();
    let cb = tb.center_of_mass();
    assert_eq!((ca.x, ca.y), (cb.x, cb.y));
}

#[test]
fn midpoint_ties_go_to_the_lower_left() {
    // (5, 5) sits exactly on both midlines of the box spanned by (0, 0)
    // and (10, 10); the strict greater-than tests send it to the lower
    // left, where it shares a quadrant with (0, 0), so that quadrant
    // subdivides further.
    let pts = vec![body(0, 0, 0), body(1, 10_000, 10_000), body(2, 5_000, 5_000)];
    let tree = construct_tree(&pts).unwrap();
    let rects = tree.rectangles();
    assert_eq!(rects.len(), 9);
    let has = |ul: (i64, i64), lr: (i64, i64)| -> bool {
        rects.iter().any(|r| (r.0.x, r.0.y) == ul && (r.1.x, r.1.y) == lr)
    };
    // The lower-left quadrant was split...
    assert!(has((0, 2_500), (2_500, 0)));
    // ...and the upper-right quadrant was not.
    assert!(!has((5_000, 10_000), (7_500, 7_500)));
}

#[test]
fn single_body_feels_no_force_from_itself() {
    let pts = vec![body(0, 3_000, -2_000)];
    let tree = construct_tree(&pts).unwrap();
    let f = tree.compute_force(pts[0].pos, 0);
    assert_eq!((f.x, f.y), (0, 0));
}

#[test]
fn leaf_flag_matches_structure() {
    let one = construct_tree(&vec![body(0, 0, 0)]).unwrap();
    assert!(one.is_leaf());
    let two = construct_tree(&vec![body(0, 0, 0), body(1, 5_000, 5_000)]).unwrap();
    assert!(!two.is_leaf());
    assert_eq!(two.rectangles().len(), 5);
}

//! The library's laws: proofs that the quadtree conserves mass, aggregates
//! the center of mass exactly, evaluates forces exactly at zero opening
//! angle, and rebuilds deterministically.

use vstd::prelude::*;
use vstd::multiset::Multiset;
use vstd::seq_lib::{commutative_foldr, lemma_fold_right_permutation, lemma_multiset_commutative};
use vstd::arithmetic::power2::{pow2, lemma_pow2_pos, lemma_pow2_unfold, lemma2_to64, lemma2_to64_rest};

use crate::{COUNT_LIMIT, MAX_DEPTH};
use crate::fixed::div_trunc;
use crate::force::{pair_force_x, pair_force_y};
use crate::particle::{spec_brute, Particle};
use crate::tree::{
    com_x, com_y, contents, empty_node, leaves_weight, positions, quad_get, quad_set,
    lemma_mid64, lemma_quad_set, lemma_spec_insert_props, resolved, spec_bbox, spec_com,
    spec_construct,
    spec_force, spec_fresh_quad, spec_insert, spec_insert_all, sum_xs, sum_ys, Node, Quadrant,
};
use crate::vec2::Vec2;

verus! {

/// Mass conservation: the counts carried by the leaves of a well-formed
/// tree add up exactly to the tree's total count, which `construct_tree`
/// in turn guarantees equals the number of particles inserted.
pub proof fn lemma_mass_conservation(t: Node)
    requires
        t.wf(),
    ensures
        leaves_weight(t) == t.n,
    decreases t,
{
    match t.children {
        Some(q) => {
            lemma_mass_conservation(q.ul);
            lemma_mass_conservation(q.ur);
            lemma_mass_conservation(q.ll);
            lemma_mass_conservation(q.lr);
        },
        None => {},
    }
}

/// The bounding box of a nonempty in-range position sequence has ordered,
/// in-range corners.
pub proof fn lemma_bbox_props(ps: Seq<Vec2>)
    requires
        ps.len() >= 1,
        forall|i: int| 0 <= i < ps.len() ==> (#[trigger] ps[i]).in_range(),
    ensures
        ({
            let c = spec_bbox(ps);
            &&& c.0.in_range()
            &&& c.1.in_range()
            &&& c.0.x <= c.1.x
            &&& c.1.y <= c.0.y
        }),
    decreases ps.len(),
{
    if ps.len() > 1 {
        lemma_bbox_props(ps.drop_last());
        assert(ps.last().in_range());
    } else {
        assert(ps[0].in_range());
    }
}

/// Inserting a sequence of in-range positions into a well-formed root
/// keeps it well-formed and within depth, leaves the region alone, and
/// raises the count and coordinate sums by exactly the sequence totals.
pub proof fn lemma_insert_all_props(root: Node, ps: Seq<Vec2>)
    requires
        root.wf(),
        root.within_depth(MAX_DEPTH as nat),
        root.n + ps.len() <= COUNT_LIMIT,
        forall|i: int| 0 <= i < ps.len() ==> (#[trigger] ps[i]).in_range(),
    ensures
        ({
            let t = spec_insert_all(root, ps);
            &&& t.wf()
            &&& t.within_depth(MAX_DEPTH as nat)
            &&& t.upper_left == root.upper_left
            &&& t.lower_right == root.lower_right
            &&& t.n == root.n + ps.len()
            &&& t.sum_x == root.sum_x + sum_xs(ps)
            &&& t.sum_y == root.sum_y + sum_ys(ps)
        }),
    decreases ps.len(),
{
    if ps.len() > 0 {
        lemma_insert_all_props(root, ps.drop_last());
        let prev = spec_insert_all(root, ps.drop_last());
        assert(ps.last().in_range());
        lemma_spec_insert_props(prev, ps.last(), MAX_DEPTH as nat);
    }
}

/// The tree built over a nonempty in-range position sequence is
/// well-formed, covers the sequence's bounding box, and counts and sums
/// exactly the positions given.
pub proof fn lemma_construct_props(ps: Seq<Vec2>)
    requires
        1 <= ps.len() <= COUNT_LIMIT,
        forall|i: int| 0 <= i < ps.len() ==> (#[trigger] ps[i]).in_range(),
    ensures
        ({
            let t = spec_construct(ps);
            &&& t.wf()
            &&& t.within_depth(MAX_DEPTH as nat)
            &&& (t.upper_left, t.lower_right) == spec_bbox(ps)
            &&& t.n == ps.len()
            &&& t.sum_x == sum_xs(ps)
            &&& t.sum_y == sum_ys(ps)
        }),
{
    lemma_bbox_props(ps);
    let c = spec_bbox(ps);
    lemma_insert_all_props(empty_node(c.0, c.1), ps);
}

/// Center-of-mass correctness: the root of a constructed tree carries the
/// arithmetic mean of all input positions, exact up to the truncated
/// integer division by the count.
pub proof fn lemma_center_of_mass(ps: Seq<Vec2>, t: Node)
    requires
        1 <= ps.len() <= COUNT_LIMIT,
        forall|i: int| 0 <= i < ps.len() ==> (#[trigger] ps[i]).in_range(),
        t == spec_construct(ps),
    ensures
        com_x(t) == div_trunc(sum_xs(ps), ps.len() as int),
        com_y(t) == div_trunc(sum_ys(ps), ps.len() as int),
{
    lemma_construct_props(ps);
}

/// Idempotent rebuild: building is a function of the position sequence, so
/// two trees built over the same unmodified positions agree on every node,
/// aggregates included.
pub proof fn lemma_rebuild_idempotent(ps: Seq<Vec2>, t1: Node, t2: Node)
    requires
        t1 == spec_construct(ps),
        t2 == spec_construct(ps),
    ensures
        t1 == t2,
        t1.n == t2.n,
        t1.sum_x == t2.sum_x,
        t1.sum_y == t2.sum_y,
        com_x(t1) == com_x(t2),
        com_y(t1) == com_y(t2),
{
}

/// The `x` summand of `sum_xs` as a fold operator.
spec fn sum_x_op() -> spec_fn(Vec2, int) -> int {
    |v: Vec2, acc: int| acc + v.x
}

/// The `y` summand of `sum_ys` as a fold operator.
spec fn sum_y_op() -> spec_fn(Vec2, int) -> int {
    |v: Vec2, acc: int| acc + v.y
}

/// Folding the coordinate summands shifts by the base value.
proof fn lemma_sum_fold_shift(ps: Seq<Vec2>, bx: int, by: int)
    ensures
        ps.fold_right(sum_x_op(), bx) == bx + ps.fold_right(sum_x_op(), 0),
        ps.fold_right(sum_y_op(), by) == by + ps.fold_right(sum_y_op(), 0),
    decreases ps.len(),
{
    if ps.len() > 0 {
        let v = ps.last();
        lemma_sum_fold_shift(ps.drop_last(), sum_x_op()(v, bx), sum_y_op()(v, by));
        lemma_sum_fold_shift(ps.drop_last(), sum_x_op()(v, 0), sum_y_op()(v, 0));
    }
}

/// The coordinate sums are the folds of their summands.
proof fn lemma_sum_fold(ps: Seq<Vec2>)
    ensures
        sum_xs(ps) == ps.fold_right(sum_x_op(), 0),
        sum_ys(ps) == ps.fold_right(sum_y_op(), 0),
    decreases ps.len(),
{
    if ps.len() > 0 {
        let v = ps.last();
        lemma_sum_fold(ps.drop_last());
        lemma_sum_fold_shift(ps.drop_last(), sum_x_op()(v, 0), sum_y_op()(v, 0));
    }
}

/// Coordinate sums only depend on the multiset of positions.
proof fn lemma_sum_permutation(s1: Seq<Vec2>, s2: Seq<Vec2>)
    requires
        s1.to_multiset() == s2.to_multiset(),
    ensures
        sum_xs(s1) == sum_xs(s2),
        sum_ys(s1) == sum_ys(s2),
{
    lemma_sum_fold(s1);
    lemma_sum_fold(s2);
    assert(commutative_foldr(sum_x_op()));
    assert(commutative_foldr(sum_y_op()));
    lemma_fold_right_permutation(s1, s2, sum_x_op(), 0);
    lemma_fold_right_permutation(s1, s2, sum_y_op(), 0);
}

/// Insertion order shapes the inside of the tree but not the root's
/// aggregates: two builds over reorderings of the same positions agree on
/// the root count, the coordinate sums and the center of mass.
pub proof fn lemma_order_independent_aggregates(ps1: Seq<Vec2>, ps2: Seq<Vec2>)
    requires
        1 <= ps1.len() <= COUNT_LIMIT,
        forall|i: int| 0 <= i < ps1.len() ==> (#[trigger] ps1[i]).in_range(),
        forall|i: int| 0 <= i < ps2.len() ==> (#[trigger] ps2[i]).in_range(),
        ps1.to_multiset() == ps2.to_multiset(),
    ensures
        spec_construct(ps1).n == spec_construct(ps2).n,
        spec_construct(ps1).sum_x == spec_construct(ps2).sum_x,
        spec_construct(ps1).sum_y == spec_construct(ps2).sum_y,
        com_x(spec_construct(ps1)) == com_x(spec_construct(ps2)),
        com_y(spec_construct(ps1)) == com_y(spec_construct(ps2)),
{
    ps1.to_multiset_ensures();
    ps2.to_multiset_ensures();
    assert(ps1.to_multiset().len() == ps2.to_multiset().len());
    assert(ps1.len() == ps2.len());
    lemma_construct_props(ps1);
    lemma_construct_props(ps2);
    lemma_sum_permutation(ps1, ps2);
}

/// The exact pairwise force on `p` from a bare sequence of positions:
/// the reference the tree evaluation is held against.
pub open spec fn bf(ps: Seq<Vec2>, p: Vec2) -> (int, int)
    decreases ps.len(),
{
    if ps.len() == 0 {
        (0, 0)
    } else {
        let rest = bf(ps.drop_last(), p);
        (rest.0 + pair_force_x(p, ps.last()), rest.1 + pair_force_y(p, ps.last()))
    }
}

/// The `x` summand of `bf` as a fold operator.
spec fn fx_of(p: Vec2) -> spec_fn(Vec2, int) -> int {
    |v: Vec2, acc: int| acc + pair_force_x(p, v)
}

/// The `y` summand of `bf` as a fold operator.
spec fn fy_of(p: Vec2) -> spec_fn(Vec2, int) -> int {
    |v: Vec2, acc: int| acc + pair_force_y(p, v)
}

/// Folding the force summands shifts by the base value.
proof fn lemma_fold_shift(ps: Seq<Vec2>, p: Vec2, bx: int, by: int)
    ensures
        ps.fold_right(fx_of(p), bx) == bx + ps.fold_right(fx_of(p), 0),
        ps.fold_right(fy_of(p), by) == by + ps.fold_right(fy_of(p), 0),
    decreases ps.len(),
{
    if ps.len() > 0 {
        let v = ps.last();
        lemma_fold_shift(ps.drop_last(), p, fx_of(p)(v, bx), fy_of(p)(v, by));
        lemma_fold_shift(ps.drop_last(), p, fx_of(p)(v, 0), fy_of(p)(v, 0));
    }
}

/// `bf` is the fold of the force summands.
proof fn lemma_bf_fold(ps: Seq<Vec2>, p: Vec2)
    ensures
        bf(ps, p).0 == ps.fold_right(fx_of(p), 0),
        bf(ps, p).1 == ps.fold_right(fy_of(p), 0),
    decreases ps.len(),
{
    if ps.len() > 0 {
        let v = ps.last();
        lemma_bf_fold(ps.drop_last(), p);
        lemma_fold_shift(ps.drop_last(), p, fx_of(p)(v, 0), fy_of(p)(v, 0));
    }
}

/// Integer sums do not care about order: the exact force over a sequence
/// only depends on its multiset of positions.
pub proof fn lemma_bf_permutation(s1: Seq<Vec2>, s2: Seq<Vec2>, p: Vec2)
    requires
        s1.to_multiset() == s2.to_multiset(),
    ensures
        bf(s1, p) == bf(s2, p),
{
    lemma_bf_fold(s1, p);
    lemma_bf_fold(s2, p);
    assert(commutative_foldr(fx_of(p)));
    assert(commutative_foldr(fy_of(p)));
    lemma_fold_right_permutation(s1, s2, fx_of(p), 0);
    lemma_fold_right_permutation(s1, s2, fy_of(p), 0);
}

/// The exact force over a concatenation splits into the two parts.
proof fn lemma_bf_concat(a: Seq<Vec2>, b: Seq<Vec2>, p: Vec2)
    ensures
        bf(a + b, p).0 == bf(a, p).0 + bf(b, p).0,
        bf(a + b, p).1 == bf(a, p).1 + bf(b, p).1,
    decreases b.len(),
{
    if b.len() == 0 {
        assert(a + b =~= a);
    } else {
        assert((a + b).drop_last() =~= a + b.drop_last());
        assert((a + b).last() == b.last());
        lemma_bf_concat(a, b.drop_last(), p);
    }
}

/// A body exerts no force on its own position: the separation is zero, so
/// the numerator of the force law vanishes.
pub proof fn lemma_pair_force_self(a: Vec2)
    ensures
        pair_force_x(a, a) == 0,
        pair_force_y(a, a) == 0,
{
    let q = crate::force::soft_dist2(a, a);
    crate::fixed::lemma_sqrt_floor_exists(q as nat);
    let s = crate::fixed::sqrt_floor(q);
    assert(s >= 1) by (nonlinear_arith)
        requires
            s >= 0,
            s * s <= q,
            q >= 1,
            q < (s + 1) * (s + 1),
    ;
    assert(q * s >= 1) by (nonlinear_arith)
        requires
            q >= 1,
            s >= 1,
    ;
    vstd::arithmetic::div_mod::lemma_div_of0(q * s);
}

/// At zero opening angle the descent always reaches the leaves, so the
/// tree force over a resolved tree is the exact force over its contents.
#[verifier::rlimit(80)]
pub proof fn lemma_force_exact_leaves(t: Node, p: Vec2)
    requires
        t.wf(),
        resolved(t),
    ensures
        spec_force(t, p, 0).0 == bf(contents(t), p).0,
        spec_force(t, p, 0).1 == bf(contents(t), p).1,
    decreases t,
{
    match t.children {
        Some(q) => {
            assert(!crate::tree::far_enough(t, p, 0)) by {
                let sx = t.lower_right.x - t.upper_left.x;
                let sy = t.upper_left.y - t.lower_right.y;
                let side = if sx > sy { sx } else { sy };
                let d2 = (com_x(t) - p.x) * (com_x(t) - p.x) + (com_y(t) - p.y) * (com_y(t)
                    - p.y);
                assert(side >= 0);
                assert(side * side * (crate::FP as int * crate::FP as int) >= 0)
                    by (nonlinear_arith)
                    requires side >= 0,
                ;
                assert(0 * 0 * d2 == 0) by (nonlinear_arith);
            }
            lemma_force_exact_leaves(q.ul, p);
            lemma_force_exact_leaves(q.ur, p);
            lemma_force_exact_leaves(q.ll, p);
            lemma_force_exact_leaves(q.lr, p);
            let c0 = contents(q.ul);
            let c1 = contents(q.ur);
            let c2 = contents(q.ll);
            let c3 = contents(q.lr);
            lemma_bf_concat(c0, c1, p);
            lemma_bf_concat(c0 + c1, c2, p);
            lemma_bf_concat(c0 + c1 + c2, c3, p);
            assert(contents(t) == c0 + c1 + c2 + c3);
            assert(bf(contents(t), p).0 == bf(c0, p).0 + bf(c1, p).0 + bf(c2, p).0 + bf(c3, p).0);
            assert(bf(contents(t), p).1 == bf(c0, p).1 + bf(c1, p).1 + bf(c2, p).1 + bf(c3, p).1);
            assert(spec_force(t, p, 0).0 == spec_force(q.ul, p, 0).0 + spec_force(q.ur, p, 0).0
                + spec_force(q.ll, p, 0).0 + spec_force(q.lr, p, 0).0);
            assert(spec_force(t, p, 0).1 == spec_force(q.ul, p, 0).1 + spec_force(q.ur, p, 0).1
                + spec_force(q.ll, p, 0).1 + spec_force(q.lr, p, 0).1);
            assert(spec_force(t, p, 0).0 == bf(contents(t), p).0);
            assert(spec_force(t, p, 0).1 == bf(contents(t), p).1);
        },
        None => {
            if t.n == 0 {
                assert(contents(t) == Seq::<Vec2>::empty());
                assert(bf(contents(t), p) == (0int, 0int));
                assert(pair_force_x(p, spec_com(t)) * t.n == 0 && pair_force_y(p, spec_com(t))
                    * t.n == 0) by (nonlinear_arith)
                    requires t.n == 0,
                ;
            } else {
                assert(t.n == 1);
                assert(pair_force_x(p, spec_com(t)) * t.n == pair_force_x(p, spec_com(t))
                    && pair_force_y(p, spec_com(t)) * t.n == pair_force_y(p, spec_com(t)))
                    by (nonlinear_arith)
                    requires t.n == 1,
                ;
                assert(div_trunc(t.sum_x as int, 1) == t.sum_x);
                assert(div_trunc(t.sum_y as int, 1) == t.sum_y);
                assert(spec_com(t) == Vec2 { x: t.sum_x, y: t.sum_y });
                let pt = Vec2 { x: t.sum_x, y: t.sum_y };
                assert(contents(t) == seq![pt]);
                assert(seq![pt].drop_last() =~= Seq::<Vec2>::empty());
                assert(bf(Seq::<Vec2>::empty(), p) == (0int, 0int));
                assert(seq![pt].last() == pt);
                assert(bf(seq![pt], p).0 == bf(seq![pt].drop_last(), p).0 + pair_force_x(p, pt));
                assert(bf(seq![pt], p).1 == bf(seq![pt].drop_last(), p).1 + pair_force_y(p, pt));
                assert(bf(contents(t), p) == (pair_force_x(p, pt), pair_force_y(p, pt)));
            }
        },
    }
}

/// Inserting a point into a tree that stays resolved adds exactly that
/// point to the tree's contents, and the tree was resolved before.
#[verifier::rlimit(100)]
proof fn lemma_insert_contents(t: Node, p: Vec2, depth: nat)
    requires
        t.wf(),
        t.within_depth(depth),
        t.n < COUNT_LIMIT,
        p.in_range(),
    ensures
        resolved(spec_insert(t, p, depth)) ==> resolved(t) && contents(
            spec_insert(t, p, depth),
        ).to_multiset() == contents(t).to_multiset().insert(p),
    decreases depth,
{
    broadcast use vstd::seq_lib::group_to_multiset_ensures;
    broadcast use vstd::multiset::group_multiset_axioms;

    let r = spec_insert(t, p, depth);
    if resolved(r) {
        if depth == 0 || (t.children is None && t.n >= 2) {
            assert(t.children is None);
            assert(r.n == t.n + 1 && r.n <= 1);
            assert(t.n == 0);
            assert(t.sum_x == 0 && t.sum_y == 0);
            assert(Vec2 { x: r.sum_x, y: r.sum_y } == p);
            assert(contents(r) =~= Seq::<Vec2>::empty().push(p));
            assert(contents(t) =~= Seq::<Vec2>::empty());
            assert(contents(r).to_multiset() =~= contents(t).to_multiset().insert(p));
        } else {
            match t.children {
                Some(q) => {
                    let which = crate::tree::quadrant_of(t.upper_left, t.lower_right, p);
                    let kid = quad_get(*q, which);
                    match which {
                        Quadrant::UpperLeft => {},
                        Quadrant::UpperRight => {},
                        Quadrant::LowerLeft => {},
                        Quadrant::LowerRight => {},
                    }
                    let kid2 = spec_insert(kid, p, (depth - 1) as nat);
                    lemma_spec_insert_props(kid, p, (depth - 1) as nat);
                    lemma_quad_set(*q, which, kid2);
                    let q2 = quad_set(*q, which, kid2);
                    assert(r.children == Some(Box::new(q2)));
                    assert(resolved(q2.ul) && resolved(q2.ur) && resolved(q2.ll) && resolved(
                        q2.lr,
                    ));
                    assert(resolved(kid2));
                    lemma_insert_contents(kid, p, (depth - 1) as nat);
                    assert(resolved(t));
                    lemma_multiset_commutative(contents(q.ul), contents(q.ur));
                    lemma_multiset_commutative(contents(q.ul) + contents(q.ur), contents(q.ll));
                    lemma_multiset_commutative(
                        contents(q.ul) + contents(q.ur) + contents(q.ll),
                        contents(q.lr),
                    );
                    lemma_multiset_commutative(contents(q2.ul), contents(q2.ur));
                    lemma_multiset_commutative(contents(q2.ul) + contents(q2.ur), contents(q2.ll));
                    lemma_multiset_commutative(
                        contents(q2.ul) + contents(q2.ur) + contents(q2.ll),
                        contents(q2.lr),
                    );
                    assert(contents(r).to_multiset() =~= contents(t).to_multiset().insert(p));
                },
                None => {
                    if t.n == 0 {
                        assert(Vec2 { x: r.sum_x, y: r.sum_y } == p);
                        assert(contents(r) =~= Seq::<Vec2>::empty().push(p));
                        assert(contents(t) =~= Seq::<Vec2>::empty());
                        assert(contents(r).to_multiset() =~= contents(t).to_multiset().insert(p));
                    } else {
                        let held = Vec2 { x: t.sum_x, y: t.sum_y };
                        assert(held.in_range());
                        let q0 = spec_fresh_quad(t.upper_left, t.lower_right);
                        crate::tree::lemma_mid64(t.upper_left.x, t.lower_right.x);
                        crate::tree::lemma_mid64(t.lower_right.y, t.upper_left.y);
                        let wa = crate::tree::quadrant_of(t.upper_left, t.lower_right, held);
                        match wa {
                            Quadrant::UpperLeft => {},
                            Quadrant::UpperRight => {},
                            Quadrant::LowerLeft => {},
                            Quadrant::LowerRight => {},
                        }
                        let ka0 = quad_get(q0, wa);
                        let ka1 = spec_insert(ka0, held, (depth - 1) as nat);
                        assert(ka0.wf() && contents(ka0) =~= Seq::<Vec2>::empty());
                        lemma_spec_insert_props(ka0, held, (depth - 1) as nat);
                        lemma_insert_contents(ka0, held, (depth - 1) as nat);
                        lemma_quad_set(q0, wa, ka1);
                        let q1 = quad_set(q0, wa, ka1);
                        let wb = crate::tree::quadrant_of(t.upper_left, t.lower_right, p);
                        match wb {
                            Quadrant::UpperLeft => {},
                            Quadrant::UpperRight => {},
                            Quadrant::LowerLeft => {},
                            Quadrant::LowerRight => {},
                        }
                        let kb0 = quad_get(q1, wb);
                        let kb1 = spec_insert(kb0, p, (depth - 1) as nat);
                        assert(kb0.wf());
                        lemma_spec_insert_props(kb0, p, (depth - 1) as nat);
                        lemma_insert_contents(kb0, p, (depth - 1) as nat);
                        lemma_quad_set(q1, wb, kb1);
                        let q2 = quad_set(q1, wb, kb1);
                        assert(r.children == Some(Box::new(q2)));
                        assert(resolved(q2.ul) && resolved(q2.ur) && resolved(q2.ll) && resolved(
                            q2.lr,
                        ));
                        assert(resolved(kb1));
                        assert(contents(kb1).to_multiset() == contents(kb0).to_multiset().insert(
                            p,
                        ));
                        if wb == wa {
                            assert(kb0 == ka1);
                            assert(resolved(ka1));
                            assert(contents(ka1).to_multiset() == contents(
                                ka0,
                            ).to_multiset().insert(held));
                        } else {
                            assert(resolved(ka1));
                            assert(contents(ka1).to_multiset() == contents(
                                ka0,
                            ).to_multiset().insert(held));
                            assert(contents(kb0) =~= Seq::<Vec2>::empty());
                        }
                        lemma_multiset_commutative(contents(q2.ul), contents(q2.ur));
                        lemma_multiset_commutative(
                            contents(q2.ul) + contents(q2.ur),
                            contents(q2.ll),
                        );
                        lemma_multiset_commutative(
                            contents(q2.ul) + contents(q2.ur) + contents(q2.ll),
                            contents(q2.lr),
                        );
                        assert(contents(t) =~= Seq::<Vec2>::empty().push(held));
                        assert(contents(r).to_multiset() =~= contents(t).to_multiset().insert(p));
                    }
                },
            }
        }
    }
}

/// Inserting a position sequence into a root that ends up resolved leaves
/// exactly the root's contents plus that sequence in the tree.
proof fn lemma_insert_all_contents(root: Node, ps: Seq<Vec2>)
    requires
        root.wf(),
        root.within_depth(MAX_DEPTH as nat),
        root.n + ps.len() <= COUNT_LIMIT,
        forall|i: int| 0 <= i < ps.len() ==> (#[trigger] ps[i]).in_range(),
    ensures
        resolved(spec_insert_all(root, ps)) ==> contents(spec_insert_all(root, ps)).to_multiset()
            == contents(root).to_multiset().add(ps.to_multiset()),
    decreases ps.len(),
{
    broadcast use vstd::seq_lib::group_to_multiset_ensures;
    broadcast use vstd::multiset::group_multiset_axioms;

    let r = spec_insert_all(root, ps);
    if resolved(r) {
        if ps.len() == 0 {
            assert(r == root);
            assert(ps.to_multiset() =~= Multiset::<Vec2>::empty());
            assert(contents(r).to_multiset() =~= contents(root).to_multiset().add(
                ps.to_multiset(),
            ));
        } else {
            let prev = spec_insert_all(root, ps.drop_last());
            lemma_insert_all_props(root, ps.drop_last());
            assert(ps.last().in_range());
            lemma_insert_contents(prev, ps.last(), MAX_DEPTH as nat);
            assert(resolved(prev));
            lemma_insert_all_contents(root, ps.drop_last());
            assert(ps =~= ps.drop_last().push(ps.last()));
            assert(ps.to_multiset() =~= ps.drop_last().to_multiset().insert(ps.last()));
            assert(contents(r).to_multiset() =~= contents(root).to_multiset().add(
                ps.to_multiset(),
            ));
        }
    }
}

/// A constructed tree that comes out resolved holds exactly the input
/// positions, one per occupied leaf.
pub proof fn lemma_construct_contents(ps: Seq<Vec2>)
    requires
        1 <= ps.len() <= COUNT_LIMIT,
        forall|i: int| 0 <= i < ps.len() ==> (#[trigger] ps[i]).in_range(),
    ensures
        resolved(spec_construct(ps)) ==> contents(spec_construct(ps)).to_multiset()
            == ps.to_multiset(),
{
    broadcast use vstd::multiset::group_multiset_axioms;
    broadcast use vstd::seq_lib::group_to_multiset_ensures;

    lemma_bbox_props(ps);
    let c = spec_bbox(ps);
    let root = empty_node(c.0, c.1);
    lemma_insert_all_contents(root, ps);
    if resolved(spec_construct(ps)) {
        assert(contents(root) =~= Seq::<Vec2>::empty());
        assert(contents(root).to_multiset() =~= Multiset::<Vec2>::empty());
        assert(Multiset::<Vec2>::empty().add(ps.to_multiset()) =~= ps.to_multiset());
    }
}

/// The separation invariant: `[xl, xh] x [yl, yh]` bounds every position
/// that the quadrant tests above this node let through (the node's region,
/// with the low edge moved in by one on an axis entered from the greater
/// side of a strict midline test), and `d` further halvings shrink that box
/// to a single point: its extents are below `2^d`. A leaf under this
/// invariant holds at most one point, and that point lies in the box.
pub open spec fn sep_inv(t: Node, d: nat, xl: int, xh: int, yl: int, yh: int) -> bool
    decreases t,
{
    &&& xh - xl < pow2(d)
    &&& yh - yl < pow2(d)
    &&& xh == t.lower_right.x
    &&& t.upper_left.x <= xl <= t.upper_left.x + 1
    &&& yh == t.upper_left.y
    &&& t.lower_right.y <= yl <= t.lower_right.y + 1
    &&& match t.children {
        Some(q) => {
            let mx = crate::tree::mid64(t.upper_left.x, t.lower_right.x) as int;
            let my = crate::tree::mid64(t.lower_right.y, t.upper_left.y) as int;
            &&& d >= 1
            &&& sep_inv(q.ul, (d - 1) as nat, xl, mx, my + 1, yh)
            &&& sep_inv(q.ur, (d - 1) as nat, mx + 1, xh, my + 1, yh)
            &&& sep_inv(q.ll, (d - 1) as nat, xl, mx, yl, my)
            &&& sep_inv(q.lr, (d - 1) as nat, mx + 1, xh, yl, my)
        },
        None => {
            &&& t.n <= 1
            &&& (t.n == 1 ==> xl <= t.sum_x <= xh && yl <= t.sum_y <= yh)
        },
    }
}

/// A tree under the separation invariant is resolved.
proof fn lemma_sep_resolved(t: Node, d: nat, xl: int, xh: int, yl: int, yh: int)
    requires
        sep_inv(t, d, xl, xh, yl, yh),
    ensures
        resolved(t),
    decreases t,
{
    match t.children {
        Some(q) => {
            let mx = crate::tree::mid64(t.upper_left.x, t.lower_right.x) as int;
            let my = crate::tree::mid64(t.lower_right.y, t.upper_left.y) as int;
            lemma_sep_resolved(q.ul, (d - 1) as nat, xl, mx, my + 1, yh);
            lemma_sep_resolved(q.ur, (d - 1) as nat, mx + 1, xh, my + 1, yh);
            lemma_sep_resolved(q.ll, (d - 1) as nat, xl, mx, yl, my);
            lemma_sep_resolved(q.lr, (d - 1) as nat, mx + 1, xh, yl, my);
        },
        None => {},
    }
}

/// Splitting a stored interval `[sl, sh]` at its floored midpoint `m` cuts
/// a reach interval `[xl, xh]` (the stored one, at most trimmed by one at
/// the low edge) into `[xl, m]` and `[m + 1, xh]`, and both halves fit one
/// fewer halving: this is why distinct points always separate before the
/// subdivision budget runs out.
proof fn lemma_axis_split(sl: int, sh: int, xl: int, xh: int, d: nat)
    requires
        sl <= sh,
        xh == sh,
        sl <= xl <= sl + 1,
        xh - xl < pow2(d),
        d >= 1,
    ensures
        ({
            let m = sl + (sh - sl) / 2;
            &&& sl <= m <= sh
            &&& m - xl < pow2((d - 1) as nat)
            &&& xh - (m + 1) < pow2((d - 1) as nat)
        }),
{
    lemma_pow2_unfold(d);
    lemma_pow2_pos((d - 1) as nat);
    let w = sh - sl;
    let h = w / 2;
    assert(2 * h <= w < 2 * h + 2);
}

/// Inserting a point that lies in a node's reach box and is new to the
/// subtree keeps the separation invariant: the point either lands in an
/// empty leaf or descends past midline tests that keep shrinking the box,
/// so the subdivision budget never runs out before distinct points part.
#[verifier::rlimit(100)]
proof fn lemma_insert_sep(t: Node, p: Vec2, d: nat, xl: int, xh: int, yl: int, yh: int)
    requires
        t.wf(),
        t.within_depth(d),
        t.n < COUNT_LIMIT,
        p.in_range(),
        sep_inv(t, d, xl, xh, yl, yh),
        xl <= p.x <= xh,
        yl <= p.y <= yh,
        contents(t).to_multiset().count(p) == 0,
    ensures
        sep_inv(spec_insert(t, p, d), d, xl, xh, yl, yh),
    decreases d,
{
    broadcast use vstd::seq_lib::group_to_multiset_ensures;
    broadcast use vstd::multiset::group_multiset_axioms;

    let r = spec_insert(t, p, d);
    lemma_mid64(t.upper_left.x, t.lower_right.x);
    lemma_mid64(t.lower_right.y, t.upper_left.y);
    let mx = crate::tree::mid64(t.upper_left.x, t.lower_right.x) as int;
    let my = crate::tree::mid64(t.lower_right.y, t.upper_left.y) as int;
    lemma_pow2_pos(d);
    if d == 0 || (t.children is None && t.n >= 2) {
        assert(t.children is None);
        assert(t.n <= 1);
        if t.n == 1 {
            // The budget is exhausted, so the reach box is one point and the
            // new point coincides with the held one, against its newness.
            assert(d == 0);
            lemma2_to64();
            assert(xh - xl <= 0 && yh - yl <= 0);
            let held = Vec2 { x: t.sum_x, y: t.sum_y };
            assert(held == p);
            assert(contents(t) =~= Seq::<Vec2>::empty().push(held));
            assert(contents(t).to_multiset().count(p) == 1);
            assert(false);
        }
        assert(sep_inv(r, d, xl, xh, yl, yh));
    } else {
        match t.children {
            Some(q) => {
                let which = crate::tree::quadrant_of(t.upper_left, t.lower_right, p);
                let kid = quad_get(*q, which);
                match which {
                    Quadrant::UpperLeft => {},
                    Quadrant::UpperRight => {},
                    Quadrant::LowerLeft => {},
                    Quadrant::LowerRight => {},
                }
                let kid2 = spec_insert(kid, p, (d - 1) as nat);
                lemma_multiset_commutative(contents(q.ul), contents(q.ur));
                lemma_multiset_commutative(contents(q.ul) + contents(q.ur), contents(q.ll));
                lemma_multiset_commutative(
                    contents(q.ul) + contents(q.ur) + contents(q.ll),
                    contents(q.lr),
                );
                assert(contents(q.ul).to_multiset().count(p) == 0 && contents(
                    q.ur,
                ).to_multiset().count(p) == 0 && contents(q.ll).to_multiset().count(p) == 0
                    && contents(q.lr).to_multiset().count(p) == 0);
                assert(contents(kid).to_multiset().count(p) == 0);
                match which {
                    Quadrant::UpperLeft => {
                        lemma_insert_sep(kid, p, (d - 1) as nat, xl, mx, my + 1, yh);
                    },
                    Quadrant::UpperRight => {
                        lemma_insert_sep(kid, p, (d - 1) as nat, mx + 1, xh, my + 1, yh);
                    },
                    Quadrant::LowerLeft => {
                        lemma_insert_sep(kid, p, (d - 1) as nat, xl, mx, yl, my);
                    },
                    Quadrant::LowerRight => {
                        lemma_insert_sep(kid, p, (d - 1) as nat, mx + 1, xh, yl, my);
                    },
                }
                lemma_quad_set(*q, which, kid2);
                assert(r.children == Some(Box::new(quad_set(*q, which, kid2))));
                assert(sep_inv(r, d, xl, xh, yl, yh));
            },
            None => {
                if t.n == 0 {
                    assert(sep_inv(r, d, xl, xh, yl, yh));
                } else {
                    let held = Vec2 { x: t.sum_x, y: t.sum_y };
                    assert(held.in_range());
                    assert(contents(t) =~= Seq::<Vec2>::empty().push(held));
                    assert(contents(t).to_multiset().count(held) == 1);
                    assert(p != held);
                    lemma_axis_split(t.upper_left.x as int, t.lower_right.x as int, xl, xh, d);
                    lemma_axis_split(t.lower_right.y as int, t.upper_left.y as int, yl, yh, d);
                    let q0 = spec_fresh_quad(t.upper_left, t.lower_right);
                    assert(sep_inv(q0.ul, (d - 1) as nat, xl, mx, my + 1, yh));
                    assert(sep_inv(q0.ur, (d - 1) as nat, mx + 1, xh, my + 1, yh));
                    assert(sep_inv(q0.ll, (d - 1) as nat, xl, mx, yl, my));
                    assert(sep_inv(q0.lr, (d - 1) as nat, mx + 1, xh, yl, my));
                    let wa = crate::tree::quadrant_of(t.upper_left, t.lower_right, held);
                    let ka0 = quad_get(q0, wa);
                    let ka1 = spec_insert(ka0, held, (d - 1) as nat);
                    match wa {
                        Quadrant::UpperLeft => {},
                        Quadrant::UpperRight => {},
                        Quadrant::LowerLeft => {},
                        Quadrant::LowerRight => {},
                    }
                    assert(ka0.wf() && contents(ka0) =~= Seq::<Vec2>::empty());
                    assert(contents(ka0).to_multiset().count(held) == 0);
                    lemma_spec_insert_props(ka0, held, (d - 1) as nat);
                    match wa {
                        Quadrant::UpperLeft => {
                            lemma_insert_sep(ka0, held, (d - 1) as nat, xl, mx, my + 1, yh);
                        },
                        Quadrant::UpperRight => {
                            lemma_insert_sep(ka0, held, (d - 1) as nat, mx + 1, xh, my + 1, yh);
                        },
                        Quadrant::LowerLeft => {
                            lemma_insert_sep(ka0, held, (d - 1) as nat, xl, mx, yl, my);
                        },
                        Quadrant::LowerRight => {
                            lemma_insert_sep(ka0, held, (d - 1) as nat, mx + 1, xh, yl, my);
                        },
                    }
                    match wa {
                        Quadrant::UpperLeft => {
                            lemma_sep_resolved(ka1, (d - 1) as nat, xl, mx, my + 1, yh);
                        },
                        Quadrant::UpperRight => {
                            lemma_sep_resolved(ka1, (d - 1) as nat, mx + 1, xh, my + 1, yh);
                        },
                        Quadrant::LowerLeft => {
                            lemma_sep_resolved(ka1, (d - 1) as nat, xl, mx, yl, my);
                        },
                        Quadrant::LowerRight => {
                            lemma_sep_resolved(ka1, (d - 1) as nat, mx + 1, xh, yl, my);
                        },
                    }
                    lemma_insert_contents(ka0, held, (d - 1) as nat);
                    assert(contents(ka1).to_multiset() == contents(ka0).to_multiset().insert(
                        held,
                    ));
                    lemma_quad_set(q0, wa, ka1);
                    let q1 = quad_set(q0, wa, ka1);
                    let wb = crate::tree::quadrant_of(t.upper_left, t.lower_right, p);
                    let kb0 = quad_get(q1, wb);
                    let kb1 = spec_insert(kb0, p, (d - 1) as nat);
                    match wb {
                        Quadrant::UpperLeft => {},
                        Quadrant::UpperRight => {},
                        Quadrant::LowerLeft => {},
                        Quadrant::LowerRight => {},
                    }
                    assert(kb0.wf());
                    assert(contents(kb0).to_multiset().count(p) == 0);
                    lemma_spec_insert_props(kb0, p, (d - 1) as nat);
                    match wb {
                        Quadrant::UpperLeft => {
                            lemma_insert_sep(kb0, p, (d - 1) as nat, xl, mx, my + 1, yh);
                        },
                        Quadrant::UpperRight => {
                            lemma_insert_sep(kb0, p, (d - 1) as nat, mx + 1, xh, my + 1, yh);
                        },
                        Quadrant::LowerLeft => {
                            lemma_insert_sep(kb0, p, (d - 1) as nat, xl, mx, yl, my);
                        },
                        Quadrant::LowerRight => {
                            lemma_insert_sep(kb0, p, (d - 1) as nat, mx + 1, xh, yl, my);
                        },
                    }
                    lemma_quad_set(q1, wb, kb1);
                    let q2 = quad_set(q1, wb, kb1);
                    assert(r.children == Some(Box::new(q2)));
                    assert(sep_inv(r, d, xl, xh, yl, yh));
                }
            },
        }
    }
}

/// The bounding box of a position sequence contains every one of its
/// positions.
pub proof fn lemma_bbox_contains(ps: Seq<Vec2>)
    requires
        ps.len() >= 1,
    ensures
        forall|k: int|
            0 <= k < ps.len() ==> {
                let c = spec_bbox(ps);
                &&& c.0.x <= (#[trigger] ps[k]).x <= c.1.x
                &&& c.1.y <= ps[k].y <= c.0.y
            },
    decreases ps.len(),
{
    if ps.len() > 1 {
        lemma_bbox_contains(ps.drop_last());
        assert(forall|k: int|
            0 <= k < ps.len() - 1 ==> ps.drop_last()[k] == (#[trigger] ps[k]));
    }
}

/// Inserting pairwise-distinct, box-contained positions into an empty root
/// keeps the separation invariant, so the tree stays resolved and holds
/// exactly those positions.
proof fn lemma_insert_all_sep(root: Node, ps: Seq<Vec2>, xl: int, xh: int, yl: int, yh: int)
    requires
        root.wf(),
        root.within_depth(MAX_DEPTH as nat),
        root.children is None,
        root.n == 0,
        sep_inv(root, MAX_DEPTH as nat, xl, xh, yl, yh),
        ps.len() <= COUNT_LIMIT,
        forall|i: int| 0 <= i < ps.len() ==> (#[trigger] ps[i]).in_range(),
        forall|k: int|
            0 <= k < ps.len() ==> xl <= (#[trigger] ps[k]).x <= xh && yl <= ps[k].y <= yh,
        forall|i: int, j: int|
            0 <= i < ps.len() && 0 <= j < ps.len() && i != j ==> (#[trigger] ps[i]) != (
            #[trigger] ps[j]),
    ensures
        ({
            let t = spec_insert_all(root, ps);
            &&& sep_inv(t, MAX_DEPTH as nat, xl, xh, yl, yh)
            &&& resolved(t)
            &&& contents(t).to_multiset() == ps.to_multiset()
        }),
    decreases ps.len(),
{
    broadcast use vstd::seq_lib::group_to_multiset_ensures;
    broadcast use vstd::multiset::group_multiset_axioms;

    let t = spec_insert_all(root, ps);
    if ps.len() == 0 {
        assert(t == root);
        lemma_sep_resolved(root, MAX_DEPTH as nat, xl, xh, yl, yh);
        assert(contents(root) =~= Seq::<Vec2>::empty());
        assert(contents(root).to_multiset() =~= ps.to_multiset());
    } else {
        let prior = ps.drop_last();
        let p = ps.last();
        let prev = spec_insert_all(root, prior);
        lemma_insert_all_sep(root, prior, xl, xh, yl, yh);
        lemma_insert_all_props(root, prior);
        assert(p.in_range());
        assert(contents(prev).to_multiset().count(p) == 0) by {
            if contents(prev).to_multiset().count(p) > 0 {
                assert(prior.to_multiset().count(p) > 0);
                assert(prior.contains(p));
                let i = choose|i: int| 0 <= i < prior.len() && prior[i] == p;
                assert(ps[i] == ps[ps.len() - 1] && i != ps.len() - 1);
            }
        }
        lemma_insert_sep(prev, p, MAX_DEPTH as nat, xl, xh, yl, yh);
        lemma_sep_resolved(t, MAX_DEPTH as nat, xl, xh, yl, yh);
        lemma_insert_contents(prev, p, MAX_DEPTH as nat);
        assert(ps =~= prior.push(p));
        assert(contents(t).to_multiset() =~= ps.to_multiset());
    }
}

/// A tree built over pairwise-distinct in-range positions is resolved:
/// within the coordinate range, sixty-four subdivisions always separate two
/// distinct fixed-point positions, so no leaf ever merges two of them.
pub proof fn lemma_distinct_positions_resolved(ps: Seq<Vec2>)
    requires
        1 <= ps.len() <= COUNT_LIMIT,
        forall|i: int| 0 <= i < ps.len() ==> (#[trigger] ps[i]).in_range(),
        forall|i: int, j: int|
            0 <= i < ps.len() && 0 <= j < ps.len() && i != j ==> (#[trigger] ps[i]) != (
            #[trigger] ps[j]),
    ensures
        resolved(spec_construct(ps)),
        contents(spec_construct(ps)).to_multiset() == ps.to_multiset(),
{
    lemma_bbox_props(ps);
    lemma_bbox_contains(ps);
    let c = spec_bbox(ps);
    let root = empty_node(c.0, c.1);
    lemma2_to64();
    lemma2_to64_rest();
    assert(c.1.x - c.0.x < pow2(MAX_DEPTH as nat));
    assert(c.0.y - c.1.y < pow2(MAX_DEPTH as nat));
    assert(sep_inv(root, MAX_DEPTH as nat, c.0.x as int, c.1.x as int, c.1.y as int, c.0.y as int));
    lemma_insert_all_sep(root, ps, c.0.x as int, c.1.x as int, c.1.y as int, c.0.y as int);
}

/// The per-particle brute-force sum, which skips bodies sharing the query
/// particle's id, equals the plain positional sum whenever every body with
/// that id sits at the query particle's own position: a body exerts no
/// force on its own position.
proof fn lemma_brute_is_bf(ps: Seq<Particle>, me: Particle)
    requires
        forall|i: int|
            0 <= i < ps.len() && (#[trigger] ps[i]).id == me.id ==> ps[i].pos == me.pos,
    ensures
        spec_brute(ps, me) == bf(positions(ps), me.pos),
    decreases ps.len(),
{
    if ps.len() == 0 {
        assert(positions(ps).len() == 0);
    } else {
        assert(positions(ps).drop_last() =~= positions(ps.drop_last()));
        assert(positions(ps).last() == ps.last().pos);
        lemma_brute_is_bf(ps.drop_last(), me);
        if ps.last().id == me.id {
            assert(ps[ps.len() - 1].pos == me.pos);
            lemma_pair_force_self(me.pos);
        }
    }
}

/// Exactness at zero opening angle: on the tree built over particles with
/// pairwise-distinct positions and unique ids, the evaluation at
/// `theta == 0` for any of the particles is exactly the brute-force
/// pairwise sum over all other particles. Distinct positions make the tree
/// resolved, so every point stands alone at a leaf; unique ids line the
/// brute-force sum (which skips by id) up with the tree, which holds every
/// position and contributes nothing at the query particle's own.
pub proof fn lemma_exact_at_zero_theta(ps: Seq<Particle>, t: Node, k: int)
    requires
        1 <= ps.len() <= COUNT_LIMIT,
        forall|i: int| 0 <= i < ps.len() ==> (#[trigger] ps[i]).pos.in_range(),
        t == spec_construct(positions(ps)),
        forall|i: int, j: int|
            0 <= i < ps.len() && 0 <= j < ps.len() && i != j ==> (#[trigger] ps[i]).pos != (
            #[trigger] ps[j]).pos,
        forall|i: int, j: int|
            0 <= i < ps.len() && 0 <= j < ps.len() && i != j ==> (#[trigger] ps[i]).id != (
            #[trigger] ps[j]).id,
        0 <= k < ps.len(),
    ensures
        spec_force(t, ps[k].pos, 0).0 == spec_brute(ps, ps[k]).0,
        spec_force(t, ps[k].pos, 0).1 == spec_brute(ps, ps[k]).1,
        resolved(t),
{
    let vs = positions(ps);
    assert(vs.len() == ps.len());
    assert(forall|i: int| 0 <= i < vs.len() ==> (#[trigger] vs[i]).in_range()) by {
        assert(forall|i: int|
            0 <= i < vs.len() ==> vs[i] == (#[trigger] ps[i]).pos);
    }
    assert(forall|i: int, j: int|
        0 <= i < vs.len() && 0 <= j < vs.len() && i != j ==> (#[trigger] vs[i]) != (
        #[trigger] vs[j])) by {
        assert(forall|i: int|
            0 <= i < vs.len() ==> vs[i] == (#[trigger] ps[i]).pos);
    }
    lemma_distinct_positions_resolved(vs);
    lemma_construct_props(vs);
    lemma_construct_contents(vs);
    lemma_force_exact_leaves(t, ps[k].pos);
    lemma_bf_permutation(contents(t), vs, ps[k].pos);
    assert(forall|i: int|
        0 <= i < ps.len() && (#[trigger] ps[i]).id == ps[k].id ==> ps[i].pos == ps[k].pos);
    lemma_brute_is_bf(ps, ps[k]);
}

/// A zero opening angle minimizes the approximation error: at any opening
/// threshold the force deviates from the exact pairwise sum by at least as
/// much as at zero, where the deviation vanishes.
pub proof fn lemma_zero_theta_minimizes_deviation(ps: Seq<Particle>, t: Node, k: int, theta: int)
    requires
        1 <= ps.len() <= COUNT_LIMIT,
        forall|i: int| 0 <= i < ps.len() ==> (#[trigger] ps[i]).pos.in_range(),
        t == spec_construct(positions(ps)),
        forall|i: int, j: int|
            0 <= i < ps.len() && 0 <= j < ps.len() && i != j ==> (#[trigger] ps[i]).pos != (
            #[trigger] ps[j]).pos,
        forall|i: int, j: int|
            0 <= i < ps.len() && 0 <= j < ps.len() && i != j ==> (#[trigger] ps[i]).id != (
            #[trigger] ps[j]).id,
        0 <= k < ps.len(),
        0 <= theta,
    ensures
        ({
            let exact = spec_brute(ps, ps[k]);
            let at_zero = spec_force(t, ps[k].pos, 0);
            let at_theta = spec_force(t, ps[k].pos, theta);
            vstd::math::abs(at_zero.0 - exact.0) + vstd::math::abs(at_zero.1 - exact.1)
                <= vstd::math::abs(at_theta.0 - exact.0) + vstd::math::abs(at_theta.1 - exact.1)
        }),
{
    lemma_exact_at_zero_theta(ps, t, k);
}

} // verus!

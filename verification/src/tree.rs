//! The Barnes-Hut quadtree.
//!
//! Each node covers an axis-aligned region, keeps the exact sum of the
//! positions inserted into its subtree together with their count (so its
//! center of mass is the truncated mean `sum / n`), and either is a leaf or
//! carries exactly four children covering the region's quadrants.
//!
//! Every mutation is pinned to a specification function, so a tree built
//! from a position sequence is a mathematical function of that sequence.

use vstd::prelude::*;

use crate::{COORD_LIMIT, COUNT_LIMIT, FP, PAIR_FORCE_LIMIT, THETA_LIMIT};
use crate::fixed::{div_trunc, div_trunc_i64, lemma_div_trunc_bound};
use crate::force::{pair_force, pair_force_x, pair_force_y};
use crate::particle::Particle;
use crate::vec2::Vec2;

verus! {

/// One of the four subdivisions of a node's region.
#[derive(Clone, Copy, PartialEq, Eq, Structural, Debug)]
pub enum Quadrant {
    UpperLeft,
    UpperRight,
    LowerLeft,
    LowerRight,
}

/// A quadtree node. `upper_left` carries the region's least `x` and greatest
/// `y`; `lower_right` the greatest `x` and least `y`. `sum_x`/`sum_y` hold
/// the exact sum of all positions in the subtree and `n` their count.
pub struct Node {
    pub upper_left: Vec2,
    pub lower_right: Vec2,
    pub sum_x: i64,
    pub sum_y: i64,
    pub n: usize,
    pub children: Option<Box<Quad>>,
}

/// The four children of an interior node.
pub struct Quad {
    pub ul: Node,
    pub ur: Node,
    pub ll: Node,
    pub lr: Node,
}

/// Midpoint of `lo <= hi`, rounded down, staying within the endpoints.
pub open spec fn mid64(lo: i64, hi: i64) -> i64 {
    (lo + (hi - lo) / 2) as i64
}

/// The midpoint of an ordered pair of in-range coordinates is exact.
pub proof fn lemma_mid64(lo: i64, hi: i64)
    requires
        lo <= hi,
        -COORD_LIMIT <= lo,
        hi <= COORD_LIMIT,
    ensures
        mid64(lo, hi) == lo + (hi - lo) / 2,
        lo <= mid64(lo, hi) <= hi,
{
}

/// Midpoint of `lo <= hi`, rounded down.
pub fn mid_i64(lo: i64, hi: i64) -> (m: i64)
    requires
        lo <= hi,
        -COORD_LIMIT <= lo,
        hi <= COORD_LIMIT,
    ensures
        m == mid64(lo, hi),
        lo <= m <= hi,
{
    proof {
        lemma_mid64(lo, hi);
    }
    lo + (hi - lo) / 2
}

/// Which quadrant of the region `(ul, lr)` the point `p` falls into.
/// A point exactly on a midline goes to the lower/left side: the
/// comparisons are strictly greater-than.
pub open spec fn quadrant_of(ul: Vec2, lr: Vec2, p: Vec2) -> Quadrant {
    let mx = mid64(ul.x, lr.x);
    let my = mid64(lr.y, ul.y);
    if p.x > mx {
        if p.y > my {
            Quadrant::UpperRight
        } else {
            Quadrant::LowerRight
        }
    } else {
        if p.y > my {
            Quadrant::UpperLeft
        } else {
            Quadrant::LowerLeft
        }
    }
}

/// The child of `q` at `which`.
pub open spec fn quad_get(q: Quad, which: Quadrant) -> Node {
    match which {
        Quadrant::UpperLeft => q.ul,
        Quadrant::UpperRight => q.ur,
        Quadrant::LowerLeft => q.ll,
        Quadrant::LowerRight => q.lr,
    }
}

/// `q` with its child at `which` replaced by `k`.
pub open spec fn quad_set(q: Quad, which: Quadrant, k: Node) -> Quad {
    match which {
        Quadrant::UpperLeft => Quad { ul: k, ..q },
        Quadrant::UpperRight => Quad { ur: k, ..q },
        Quadrant::LowerLeft => Quad { ll: k, ..q },
        Quadrant::LowerRight => Quad { lr: k, ..q },
    }
}

/// How `quad_set` acts on each field.
pub proof fn lemma_quad_set(q: Quad, which: Quadrant, k: Node)
    ensures
        ({
            let r = quad_set(q, which, k);
            &&& r.ul == (if which is UpperLeft { k } else { q.ul })
            &&& r.ur == (if which is UpperRight { k } else { q.ur })
            &&& r.ll == (if which is LowerLeft { k } else { q.ll })
            &&& r.lr == (if which is LowerRight { k } else { q.lr })
            &&& quad_get(r, which) == k
        }),
{
    match which {
        Quadrant::UpperLeft => {},
        Quadrant::UpperRight => {},
        Quadrant::LowerLeft => {},
        Quadrant::LowerRight => {},
    }
}

/// An empty leaf covering `(ul, lr)`.
pub open spec fn empty_node(ul: Vec2, lr: Vec2) -> Node {
    Node { upper_left: ul, lower_right: lr, sum_x: 0, sum_y: 0, n: 0, children: None }
}

/// Four empty leaves covering the quadrants of `(ul, lr)`, split at the
/// region's midpoint.
pub open spec fn spec_fresh_quad(ul: Vec2, lr: Vec2) -> Quad {
    let mx = mid64(ul.x, lr.x);
    let my = mid64(lr.y, ul.y);
    Quad {
        ul: empty_node(ul, Vec2 { x: mx, y: my }),
        ur: empty_node(Vec2 { x: mx, y: ul.y }, Vec2 { x: lr.x, y: my }),
        ll: empty_node(Vec2 { x: ul.x, y: my }, Vec2 { x: mx, y: lr.y }),
        lr: empty_node(Vec2 { x: mx, y: my }, lr),
    }
}

impl Node {
    /// The region corners are ordered and inside the coordinate range.
    pub open spec fn region_ok(self) -> bool {
        &&& self.upper_left.in_range()
        &&& self.lower_right.in_range()
        &&& self.upper_left.x <= self.lower_right.x
        &&& self.lower_right.y <= self.upper_left.y
    }

    /// Well-formedness: region ordered, aggregates bounded by the count,
    /// and an interior node's count and sums are exactly the totals over
    /// its four children, which are well-formed in turn. An interior node
    /// holds at least two points.
    pub open spec fn wf(self) -> bool
        decreases self,
    {
        &&& self.region_ok()
        &&& self.n <= COUNT_LIMIT
        &&& -(self.n as int * COORD_LIMIT) <= self.sum_x <= self.n as int * COORD_LIMIT
        &&& -(self.n as int * COORD_LIMIT) <= self.sum_y <= self.n as int * COORD_LIMIT
        &&& match self.children {
            Some(q) => {
                &&& self.n >= 2
                &&& self.n as int == q.ul.n + q.ur.n + q.ll.n + q.lr.n
                &&& self.sum_x as int == q.ul.sum_x + q.ur.sum_x + q.ll.sum_x + q.lr.sum_x
                &&& self.sum_y as int == q.ul.sum_y + q.ur.sum_y + q.ll.sum_y + q.lr.sum_y
                &&& q.ul.wf()
                &&& q.ur.wf()
                &&& q.ll.wf()
                &&& q.lr.wf()
            },
            None => true,
        }
    }

    /// The subtree never subdivides more than `depth` further levels.
    pub open spec fn within_depth(self, depth: nat) -> bool
        decreases self,
    {
        match self.children {
            Some(q) => {
                &&& depth >= 1
                &&& q.ul.within_depth((depth - 1) as nat)
                &&& q.ur.within_depth((depth - 1) as nat)
                &&& q.ll.within_depth((depth - 1) as nat)
                &&& q.lr.within_depth((depth - 1) as nat)
            },
            None => true,
        }
    }

    /// Whether this node is a leaf.
    pub fn is_leaf(&self) -> (r: bool)
        ensures
            r == (self.children is None),
    {
        self.children.is_none()
    }
}

/// What inserting `p` makes of the subtree `t`, with `depth` further
/// subdivisions allowed.
///
/// With budget left, an interior node aggregates `p` and passes it to the
/// child whose quadrant holds it; an empty leaf absorbs `p`; a leaf holding
/// one point splits, re-inserting the held point and then `p`. With the
/// budget exhausted (or on an already merged leaf) the point merges into
/// the leaf's aggregate, which bounds the recursion that coincident
/// positions would otherwise force without bound.
pub open spec fn spec_insert(t: Node, p: Vec2, depth: nat) -> Node
    decreases depth,
{
    if depth == 0 || (t.children is None && t.n >= 2) {
        Node {
            sum_x: (t.sum_x + p.x) as i64,
            sum_y: (t.sum_y + p.y) as i64,
            n: (t.n + 1) as usize,
            ..t
        }
    } else {
        match t.children {
            Some(q) => {
                let which = quadrant_of(t.upper_left, t.lower_right, p);
                let kid = spec_insert(quad_get(*q, which), p, (depth - 1) as nat);
                Node {
                    sum_x: (t.sum_x + p.x) as i64,
                    sum_y: (t.sum_y + p.y) as i64,
                    n: (t.n + 1) as usize,
                    children: Some(Box::new(quad_set(*q, which, kid))),
                    ..t
                }
            },
            None => {
                if t.n == 0 {
                    Node { sum_x: p.x, sum_y: p.y, n: 1, ..t }
                } else {
                    let held = Vec2 { x: t.sum_x, y: t.sum_y };
                    let q0 = spec_fresh_quad(t.upper_left, t.lower_right);
                    let wa = quadrant_of(t.upper_left, t.lower_right, held);
                    let q1 = quad_set(q0, wa, spec_insert(quad_get(q0, wa), held, (depth - 1) as nat));
                    let wb = quadrant_of(t.upper_left, t.lower_right, p);
                    let q2 = quad_set(q1, wb, spec_insert(quad_get(q1, wb), p, (depth - 1) as nat));
                    Node {
                        sum_x: (t.sum_x + p.x) as i64,
                        sum_y: (t.sum_y + p.y) as i64,
                        n: (t.n + 1) as usize,
                        children: Some(Box::new(q2)),
                        ..t
                    }
                }
            },
        }
    }
}

/// Inserting one in-range point into a well-formed subtree keeps it
/// well-formed within the same budget, leaves the region alone, and adds
/// the point to the count and the coordinate sums.
#[verifier::rlimit(80)]
pub proof fn lemma_spec_insert_props(t: Node, p: Vec2, depth: nat)
    requires
        t.wf(),
        t.within_depth(depth),
        t.n < COUNT_LIMIT,
        p.in_range(),
    ensures
        ({
            let r = spec_insert(t, p, depth);
            &&& r.wf()
            &&& r.within_depth(depth)
            &&& r.upper_left == t.upper_left
            &&& r.lower_right == t.lower_right
            &&& r.n == t.n + 1
            &&& r.sum_x == t.sum_x + p.x
            &&& r.sum_y == t.sum_y + p.y
            &&& r.children is Some <==> (t.children is Some || t.n == 1 && depth > 0)
        }),
    decreases depth,
{
    let r = spec_insert(t, p, depth);
    if depth == 0 || (t.children is None && t.n >= 2) {
        assert(t.children is None);
        assert(r.wf());
        assert(r.within_depth(depth));
    } else {
        match t.children {
            Some(q) => {
                let which = quadrant_of(t.upper_left, t.lower_right, p);
                let kid = quad_get(*q, which);
                match which {
                    Quadrant::UpperLeft => {},
                    Quadrant::UpperRight => {},
                    Quadrant::LowerLeft => {},
                    Quadrant::LowerRight => {},
                }
                lemma_spec_insert_props(kid, p, (depth - 1) as nat);
                lemma_quad_set(*q, which, spec_insert(kid, p, (depth - 1) as nat));
                assert(r.children == Some(
                    Box::new(quad_set(*q, which, spec_insert(kid, p, (depth - 1) as nat))),
                ));
                assert(r.wf());
                assert(r.within_depth(depth));
            },
            None => {
                if t.n == 0 {
                } else {
                    let held = Vec2 { x: t.sum_x, y: t.sum_y };
                    assert(held.in_range());
                    let q0 = spec_fresh_quad(t.upper_left, t.lower_right);
                    lemma_mid64(t.upper_left.x, t.lower_right.x);
                    lemma_mid64(t.lower_right.y, t.upper_left.y);
                    let wa = quadrant_of(t.upper_left, t.lower_right, held);
                    match wa {
                        Quadrant::UpperLeft => {},
                        Quadrant::UpperRight => {},
                        Quadrant::LowerLeft => {},
                        Quadrant::LowerRight => {},
                    }
                    let ka0 = quad_get(q0, wa);
                    let ka1 = spec_insert(ka0, held, (depth - 1) as nat);
                    assert(ka0.wf());
                    lemma_spec_insert_props(ka0, held, (depth - 1) as nat);
                    lemma_quad_set(q0, wa, ka1);
                    let q1 = quad_set(q0, wa, ka1);
                    assert(q1.ul.wf() && q1.ur.wf() && q1.ll.wf() && q1.lr.wf());
                    assert(q1.ul.n + q1.ur.n + q1.ll.n + q1.lr.n == 1);
                    assert(q1.ul.sum_x + q1.ur.sum_x + q1.ll.sum_x + q1.lr.sum_x == held.x);
                    assert(q1.ul.sum_y + q1.ur.sum_y + q1.ll.sum_y + q1.lr.sum_y == held.y);
                    let wb = quadrant_of(t.upper_left, t.lower_right, p);
                    let kb0 = quad_get(q1, wb);
                    let kb1 = spec_insert(kb0, p, (depth - 1) as nat);
                    assert(kb0.wf());
                    lemma_spec_insert_props(kb0, p, (depth - 1) as nat);
                    lemma_quad_set(q1, wb, kb1);
                    let q2 = quad_set(q1, wb, kb1);
                    assert(q2.ul.wf() && q2.ur.wf() && q2.ll.wf() && q2.lr.wf());
                    assert(q2.ul.n + q2.ur.n + q2.ll.n + q2.lr.n == 2);
                    assert(q2.ul.sum_x + q2.ur.sum_x + q2.ll.sum_x + q2.lr.sum_x == held.x + p.x);
                    assert(q2.ul.sum_y + q2.ur.sum_y + q2.ll.sum_y + q2.lr.sum_y == held.y + p.y);
                    assert(r.children == Some(Box::new(q2)));
                    assert(r.wf());
                    assert(q2.ul.within_depth((depth - 1) as nat) && q2.ur.within_depth(
                        (depth - 1) as nat,
                    ) && q2.ll.within_depth((depth - 1) as nat) && q2.lr.within_depth(
                        (depth - 1) as nat,
                    ));
                    assert(r.within_depth(depth));
                }
            },
        }
    }
}

impl Node {
    /// A fresh empty leaf covering the region from `upper_left` to
    /// `lower_right`.
    pub fn new(upper_left: Vec2, lower_right: Vec2) -> (r: Node)
        ensures
            r == empty_node(upper_left, lower_right),
    {
        Node { upper_left, lower_right, sum_x: 0, sum_y: 0, n: 0, children: None }
    }

    /// Folds one more position into this node's aggregate count and sums.
    fn add_mass(&mut self, point: Vec2)
        requires
            old(self).n < COUNT_LIMIT,
            point.in_range(),
            -(old(self).n as int * COORD_LIMIT) <= old(self).sum_x <= old(self).n as int
                * COORD_LIMIT,
            -(old(self).n as int * COORD_LIMIT) <= old(self).sum_y <= old(self).n as int
                * COORD_LIMIT,
        ensures
            final(self).sum_x == old(self).sum_x + point.x,
            final(self).sum_y == old(self).sum_y + point.y,
            final(self).n == old(self).n + 1,
            final(self).upper_left == old(self).upper_left,
            final(self).lower_right == old(self).lower_right,
            final(self).children == old(self).children,
    {
        self.sum_x = self.sum_x + point.x;
        self.sum_y = self.sum_y + point.y;
        self.n = self.n + 1;
    }

    /// Which quadrant of this node's region holds `point`.
    fn get_quadrant(&self, point: Vec2) -> (r: Quadrant)
        requires
            self.region_ok(),
        ensures
            r == quadrant_of(self.upper_left, self.lower_right, point),
    {
        let mx = mid_i64(self.upper_left.x, self.lower_right.x);
        let my = mid_i64(self.lower_right.y, self.upper_left.y);
        if point.x > mx {
            if point.y > my {
                Quadrant::UpperRight
            } else {
                Quadrant::LowerRight
            }
        } else {
            if point.y > my {
                Quadrant::UpperLeft
            } else {
                Quadrant::LowerLeft
            }
        }
    }

    /// Splits this leaf's region at its midpoint into four empty children.
    fn create_children(&mut self)
        requires
            old(self).children is None,
            old(self).region_ok(),
        ensures
            final(self).children == Some(
                Box::new(spec_fresh_quad(old(self).upper_left, old(self).lower_right)),
            ),
            final(self).upper_left == old(self).upper_left,
            final(self).lower_right == old(self).lower_right,
            final(self).sum_x == old(self).sum_x,
            final(self).sum_y == old(self).sum_y,
            final(self).n == old(self).n,
    {
        let mx = mid_i64(self.upper_left.x, self.lower_right.x);
        let my = mid_i64(self.lower_right.y, self.upper_left.y);
        self.children = Some(
            Box::new(
                Quad {
                    ul: Node::new(self.upper_left, Vec2 { x: mx, y: my }),
                    ur: Node::new(
                        Vec2 { x: mx, y: self.upper_left.y },
                        Vec2 { x: self.lower_right.x, y: my },
                    ),
                    ll: Node::new(
                        Vec2 { x: self.upper_left.x, y: my },
                        Vec2 { x: mx, y: self.lower_right.y },
                    ),
                    lr: Node::new(Vec2 { x: mx, y: my }, self.lower_right),
                },
            ),
        );
    }

    /// Inserts one position into this subtree, with `depth` further
    /// subdivisions allowed, exactly as `spec_insert` describes.
    fn insert(&mut self, point: Vec2, depth: u64)
        requires
            old(self).wf(),
            old(self).within_depth(depth as nat),
            old(self).n < COUNT_LIMIT,
            point.in_range(),
        ensures
            *final(self) == spec_insert(*old(self), point, depth as nat),
        decreases depth,
    {
        proof {
            lemma_spec_insert_props(*old(self), point, depth as nat);
        }
        if depth == 0 || (self.children.is_none() && self.n >= 2) {
            self.add_mass(point);
        } else if self.children.is_some() {
            self.add_mass(point);
            let which = self.get_quadrant(point);
            let mut q = self.children.take().unwrap();
            proof {
                let ghost t = *old(self);
                let ghost qq = t.children->0;
                assert(quad_get(*qq, which).wf() && quad_get(*qq, which).n < COUNT_LIMIT
                    && quad_get(*qq, which).within_depth((depth - 1) as nat)) by {
                    match which {
                        Quadrant::UpperLeft => {},
                        Quadrant::UpperRight => {},
                        Quadrant::LowerLeft => {},
                        Quadrant::LowerRight => {},
                    }
                }
            }
            match which {
                Quadrant::UpperLeft => q.ul.insert(point, depth - 1),
                Quadrant::UpperRight => q.ur.insert(point, depth - 1),
                Quadrant::LowerLeft => q.ll.insert(point, depth - 1),
                Quadrant::LowerRight => q.lr.insert(point, depth - 1),
            }
            self.children = Some(q);
            proof {
                let ghost t = *old(self);
                let ghost qq = t.children->0;
                let ghost kid = spec_insert(quad_get(*qq, which), point, (depth - 1) as nat);
                lemma_quad_set(*qq, which, kid);
                assert(*self == spec_insert(t, point, depth as nat));
            }
        } else if self.n == 0 {
            self.add_mass(point);
        } else {
            let held = Vec2 { x: self.sum_x, y: self.sum_y };
            self.create_children();
            self.add_mass(point);
            let mut q = self.children.take().unwrap();
            let wa = self.get_quadrant(held);
            proof {
                let ghost t = *old(self);
                lemma_mid64(t.upper_left.x, t.lower_right.x);
                lemma_mid64(t.lower_right.y, t.upper_left.y);
                let ghost q0 = spec_fresh_quad(t.upper_left, t.lower_right);
                assert(quad_get(q0, wa).wf()) by {
                    match wa {
                        Quadrant::UpperLeft => {},
                        Quadrant::UpperRight => {},
                        Quadrant::LowerLeft => {},
                        Quadrant::LowerRight => {},
                    }
                }
                lemma_spec_insert_props(quad_get(q0, wa), held, (depth - 1) as nat);
            }
            match wa {
                Quadrant::UpperLeft => q.ul.insert(held, depth - 1),
                Quadrant::UpperRight => q.ur.insert(held, depth - 1),
                Quadrant::LowerLeft => q.ll.insert(held, depth - 1),
                Quadrant::LowerRight => q.lr.insert(held, depth - 1),
            }
            proof {
                let ghost t = *old(self);
                let ghost q0 = spec_fresh_quad(t.upper_left, t.lower_right);
                let ghost ka1 = spec_insert(quad_get(q0, wa), held, (depth - 1) as nat);
                lemma_quad_set(q0, wa, ka1);
                let ghost q1 = quad_set(q0, wa, ka1);
                assert(*q == q1);
                assert(quad_get(q1, quadrant_of(t.upper_left, t.lower_right, point)).wf()
                    && quad_get(q1, quadrant_of(t.upper_left, t.lower_right, point)).n
                    < COUNT_LIMIT && quad_get(
                    q1,
                    quadrant_of(t.upper_left, t.lower_right, point),
                ).within_depth((depth - 1) as nat)) by {
                    match quadrant_of(t.upper_left, t.lower_right, point) {
                        Quadrant::UpperLeft => {},
                        Quadrant::UpperRight => {},
                        Quadrant::LowerLeft => {},
                        Quadrant::LowerRight => {},
                    }
                }
            }
            let wb = self.get_quadrant(point);
            match wb {
                Quadrant::UpperLeft => q.ul.insert(point, depth - 1),
                Quadrant::UpperRight => q.ur.insert(point, depth - 1),
                Quadrant::LowerLeft => q.ll.insert(point, depth - 1),
                Quadrant::LowerRight => q.lr.insert(point, depth - 1),
            }
            self.children = Some(q);
            proof {
                let ghost t = *old(self);
                let ghost q0 = spec_fresh_quad(t.upper_left, t.lower_right);
                let ghost ka1 = spec_insert(quad_get(q0, wa), held, (depth - 1) as nat);
                let ghost q1 = quad_set(q0, wa, ka1);
                let ghost kb1 = spec_insert(quad_get(q1, wb), point, (depth - 1) as nat);
                lemma_quad_set(q1, wb, kb1);
                assert(*self == spec_insert(t, point, depth as nat));
            }
        }
    }
}

/// The `x` component of a node's center of mass: the truncated mean of the
/// positions in its subtree, zero for an empty node.
pub open spec fn com_x(t: Node) -> int {
    if t.n == 0 {
        0
    } else {
        div_trunc(t.sum_x as int, t.n as int)
    }
}

/// See `com_x`.
pub open spec fn com_y(t: Node) -> int {
    if t.n == 0 {
        0
    } else {
        div_trunc(t.sum_y as int, t.n as int)
    }
}

/// A node's center of mass as a vector.
pub open spec fn spec_com(t: Node) -> Vec2 {
    Vec2 { x: com_x(t) as i64, y: com_y(t) as i64 }
}

/// A well-formed node's center of mass lies in the coordinate range, so the
/// vector form is exact.
pub proof fn lemma_com_range(t: Node)
    requires
        t.wf(),
    ensures
        spec_com(t).in_range(),
        spec_com(t).x as int == com_x(t),
        spec_com(t).y as int == com_y(t),
        -COORD_LIMIT <= com_x(t) <= COORD_LIMIT,
        -COORD_LIMIT <= com_y(t) <= COORD_LIMIT,
{
    if t.n != 0 {
        assert(t.n as int * COORD_LIMIT == COORD_LIMIT as int * t.n as int);
        lemma_div_trunc_bound(t.sum_x as int, t.n as int, COORD_LIMIT as int);
        lemma_div_trunc_bound(t.sum_y as int, t.n as int, COORD_LIMIT as int);
        assert(-(COORD_LIMIT as int) * t.n as int <= t.sum_x);
    }
}

/// The Barnes-Hut opening test: the whole subtree may stand in as a single
/// body when `side / dist < theta`, that is, when the region looks small
/// from the query point. Compared in squares, so it is exact: `side` is the
/// larger of the region's two extents in milli-units (taking only one axis
/// would let a degenerate flat or thin region pass as infinitely far, even
/// with the query point inside it), `dist` the distance from the query
/// point to the center of mass, and `theta` is in thousandths.
pub open spec fn far_enough(t: Node, p: Vec2, theta: int) -> bool {
    let sx = t.lower_right.x - t.upper_left.x;
    let sy = t.upper_left.y - t.lower_right.y;
    let side = if sx > sy { sx } else { sy };
    let dx = com_x(t) - p.x;
    let dy = com_y(t) - p.y;
    side * side * (FP as int * FP as int) < theta * theta * (dx * dx + dy * dy)
}

/// The force the subtree `t` exerts on a query point, x then y component.
///
/// A leaf acts as one body of mass `n` at its center of mass (so an empty
/// leaf contributes nothing). An interior node far enough away under the
/// opening threshold does the same; otherwise the four children contribute
/// independently.
pub open spec fn spec_force(t: Node, p: Vec2, theta: int) -> (int, int)
    decreases t,
{
    match t.children {
        Some(q) => {
            if far_enough(t, p, theta) {
                (pair_force_x(p, spec_com(t)) * t.n, pair_force_y(p, spec_com(t)) * t.n)
            } else {
                let f0 = spec_force(q.ul, p, theta);
                let f1 = spec_force(q.ur, p, theta);
                let f2 = spec_force(q.ll, p, theta);
                let f3 = spec_force(q.lr, p, theta);
                (f0.0 + f1.0 + f2.0 + f3.0, f0.1 + f1.1 + f2.1 + f3.1)
            }
        },
        None => (pair_force_x(p, spec_com(t)) * t.n, pair_force_y(p, spec_com(t)) * t.n),
    }
}

impl Node {
    /// This node's center of mass, exact up to the truncated mean.
    pub fn center_of_mass(&self) -> (c: Vec2)
        requires
            self.wf(),
        ensures
            c == spec_com(*self),
            c.in_range(),
            c.x as int == com_x(*self),
            c.y as int == com_y(*self),
    {
        proof {
            lemma_com_range(*self);
        }
        if self.n == 0 {
            Vec2 { x: 0, y: 0 }
        } else {
            Vec2 {
                x: div_trunc_i64(self.sum_x, self.n as i64),
                y: div_trunc_i64(self.sum_y, self.n as i64),
            }
        }
    }

    /// How many positions this subtree holds.
    pub fn count(&self) -> (r: usize)
        ensures
            r == self.n,
    {
        self.n
    }

    /// The Barnes-Hut opening test against this node.
    fn far_test(&self, point: Vec2, theta_milli: u64) -> (r: bool)
        requires
            self.wf(),
            point.in_range(),
            theta_milli <= THETA_LIMIT,
        ensures
            r == far_enough(*self, point, theta_milli as int),
    {
        let com = self.center_of_mass();
        let sx: i64 = self.lower_right.x - self.upper_left.x;
        let sy: i64 = self.upper_left.y - self.lower_right.y;
        let side: i64 = if sx > sy {
            sx
        } else {
            sy
        };
        let dx: i64 = com.x - point.x;
        let dy: i64 = com.y - point.y;
        proof {
            assert(0 <= side as int * side as int <= 4_000_000_000_000_000_000_000_000 && 0
                <= dx as int * dx as int <= 4_000_000_000_000_000_000_000_000 && 0 <= dy as int
                * dy as int <= 4_000_000_000_000_000_000_000_000 && 0 <= theta_milli as int
                * theta_milli as int <= 1_000_000_000_000) by (nonlinear_arith)
                requires
                    0 <= side as int <= 2_000_000_000_000,
                    -2_000_000_000_000 <= dx as int <= 2_000_000_000_000,
                    -2_000_000_000_000 <= dy as int <= 2_000_000_000_000,
                    0 <= theta_milli as int <= 1_000_000,
            ;
            assert(0 <= (theta_milli as int * theta_milli as int) * (dx as int * dx as int
                + dy as int * dy as int) <= 8_000_000_000_000_000_000_000_000_000_000_000_000)
                by (nonlinear_arith)
                requires
                    0 <= theta_milli as int * theta_milli as int <= 1_000_000_000_000,
                    0 <= dx as int * dx as int + dy as int * dy as int
                        <= 8_000_000_000_000_000_000_000_000,
            ;
        }
        let side2: u128 = (side as u128) * (side as u128);
        proof {
            assert(side2 * 1_000_000 <= 4_000_000_000_000_000_000_000_000_000_000)
                by (nonlinear_arith)
                requires 0 <= side2 <= 4_000_000_000_000_000_000_000_000,
            ;
        }
        proof {
            assert(FP as int * FP as int == 1_000_000);
        }
        let lhs: u128 = side2 * 1_000_000;
        let dx2: u128 = ((dx as i128) * (dx as i128)) as u128;
        let dy2: u128 = ((dy as i128) * (dy as i128)) as u128;
        let theta2: u128 = (theta_milli as u128) * (theta_milli as u128);
        let rhs: u128 = theta2 * (dx2 + dy2);
        lhs < rhs
    }

    /// The approximate force this subtree exerts on `point`, by descent
    /// with the opening threshold `theta_milli` (in thousandths): exactly
    /// `spec_force`, with each component bounded by the subtree's count
    /// times the pairwise force limit.
    pub fn compute_force(&self, point: Vec2, theta_milli: u64) -> (f: Vec2)
        requires
            self.wf(),
            point.in_range(),
            theta_milli <= THETA_LIMIT,
        ensures
            f.x as int == spec_force(*self, point, theta_milli as int).0,
            f.y as int == spec_force(*self, point, theta_milli as int).1,
            -(self.n as int * PAIR_FORCE_LIMIT) <= f.x as int <= self.n as int
                * PAIR_FORCE_LIMIT,
            -(self.n as int * PAIR_FORCE_LIMIT) <= f.y as int <= self.n as int
                * PAIR_FORCE_LIMIT,
        decreases *self,
    {
        match &self.children {
            Some(q) => {
                if self.far_test(point, theta_milli) {
                    self.mass_force(point)
                } else {
                    let f0 = q.ul.compute_force(point, theta_milli);
                    let f1 = q.ur.compute_force(point, theta_milli);
                    let f2 = q.ll.compute_force(point, theta_milli);
                    let f3 = q.lr.compute_force(point, theta_milli);
                    Vec2 { x: f0.x + f1.x + f2.x + f3.x, y: f0.y + f1.y + f2.y + f3.y }
                }
            },
            None => self.mass_force(point),
        }
    }

    /// This subtree as a single body: the pairwise force toward its center
    /// of mass, weighted by its count.
    fn mass_force(&self, point: Vec2) -> (f: Vec2)
        requires
            self.wf(),
            point.in_range(),
        ensures
            f.x as int == pair_force_x(point, spec_com(*self)) * self.n,
            f.y as int == pair_force_y(point, spec_com(*self)) * self.n,
            -(self.n as int * PAIR_FORCE_LIMIT) <= f.x as int <= self.n as int
                * PAIR_FORCE_LIMIT,
            -(self.n as int * PAIR_FORCE_LIMIT) <= f.y as int <= self.n as int
                * PAIR_FORCE_LIMIT,
    {
        let com = self.center_of_mass();
        let pf = pair_force(point, com);
        proof {
            assert(-(self.n as int * PAIR_FORCE_LIMIT) <= pf.x as int * self.n as int
                <= self.n as int * PAIR_FORCE_LIMIT && -(self.n as int * PAIR_FORCE_LIMIT)
                <= pf.y as int * self.n as int <= self.n as int * PAIR_FORCE_LIMIT)
                by (nonlinear_arith)
                requires
                    -PAIR_FORCE_LIMIT <= pf.x as int <= PAIR_FORCE_LIMIT,
                    -PAIR_FORCE_LIMIT <= pf.y as int <= PAIR_FORCE_LIMIT,
                    0 <= self.n as int <= COUNT_LIMIT,
            ;
        }
        let fx: i64 = ((pf.x as i128) * (self.n as i128)) as i64;
        let fy: i64 = ((pf.y as i128) * (self.n as i128)) as i64;
        Vec2 { x: fx, y: fy }
    }
}

/// Why a tree could not be built.
#[derive(Clone, Copy, PartialEq, Eq, Structural, Debug)]
pub enum TreeError {
    /// Tree construction was invoked on zero particles.
    EmptyInput,
}

/// The positions of a particle sequence, in order.
pub open spec fn positions(ps: Seq<Particle>) -> Seq<Vec2> {
    ps.map_values(|p: Particle| p.pos)
}

/// The sum of the `x` components of a position sequence.
pub open spec fn sum_xs(ps: Seq<Vec2>) -> int
    decreases ps.len(),
{
    if ps.len() == 0 {
        0
    } else {
        sum_xs(ps.drop_last()) + ps.last().x
    }
}

/// The sum of the `y` components of a position sequence.
pub open spec fn sum_ys(ps: Seq<Vec2>) -> int
    decreases ps.len(),
{
    if ps.len() == 0 {
        0
    } else {
        sum_ys(ps.drop_last()) + ps.last().y
    }
}

/// The axis-aligned bounding box spanning a nonempty position sequence:
/// the upper-left corner (least `x`, greatest `y`) paired with the
/// lower-right corner (greatest `x`, least `y`).
pub open spec fn spec_bbox(ps: Seq<Vec2>) -> (Vec2, Vec2)
    decreases ps.len(),
{
    if ps.len() <= 1 {
        (ps[0], ps[0])
    } else {
        let prior = spec_bbox(ps.drop_last());
        let p = ps.last();
        (
            Vec2 {
                x: if p.x < prior.0.x { p.x } else { prior.0.x },
                y: if p.y > prior.0.y { p.y } else { prior.0.y },
            },
            Vec2 {
                x: if p.x > prior.1.x { p.x } else { prior.1.x },
                y: if p.y < prior.1.y { p.y } else { prior.1.y },
            },
        )
    }
}

/// The tree that inserting a position sequence in order leaves behind.
pub open spec fn spec_insert_all(t: Node, ps: Seq<Vec2>) -> Node
    decreases ps.len(),
{
    if ps.len() == 0 {
        t
    } else {
        spec_insert(spec_insert_all(t, ps.drop_last()), ps.last(), crate::MAX_DEPTH as nat)
    }
}

/// The tree built over a nonempty position sequence: an empty root covering
/// the bounding box, then every position inserted in input order. Building
/// is a mathematical function of the sequence, so rebuilding from unchanged
/// positions reproduces every node exactly.
pub open spec fn spec_construct(ps: Seq<Vec2>) -> Node {
    let corners = spec_bbox(ps);
    spec_insert_all(empty_node(corners.0, corners.1), ps)
}

/// Builds the tree over the particles' current positions: the bounding box
/// is computed first, then every position is inserted in input order.
/// An empty particle set is rejected before anything is read.
pub fn construct_tree(points: &[Particle]) -> (r: Result<Node, TreeError>)
    requires
        points@.len() <= COUNT_LIMIT,
        forall|i: int| 0 <= i < points@.len() ==> (#[trigger] points@[i].pos).in_range(),
    ensures
        points@.len() == 0 <==> r is Err,
        r is Err ==> r == Err::<Node, TreeError>(TreeError::EmptyInput),
        r is Ok ==> ({
            let t = r->Ok_0;
            &&& t == spec_construct(positions(points@))
            &&& t.wf()
            &&& t.within_depth(crate::MAX_DEPTH as nat)
            &&& t.n == points@.len()
            &&& t.sum_x as int == sum_xs(positions(points@))
            &&& t.sum_y as int == sum_ys(positions(points@))
        }),
{
    let ghost ps = positions(points@);
    if points.len() == 0 {
        return Err(TreeError::EmptyInput);
    }
    let mut x_min = points[0].pos.x;
    let mut x_max = points[0].pos.x;
    let mut y_min = points[0].pos.y;
    let mut y_max = points[0].pos.y;
    let mut i: usize = 1;
    proof {
        assert(ps.subrange(0, 1) =~= seq![ps[0]]);
    }
    while i < points.len()
        invariant
            1 <= i <= points@.len(),
            points@.len() <= COUNT_LIMIT,
            forall|k: int| 0 <= k < points@.len() ==> (#[trigger] points@[k].pos).in_range(),
            ps == positions(points@),
            -COORD_LIMIT <= x_min <= x_max <= COORD_LIMIT,
            -COORD_LIMIT <= y_min <= y_max <= COORD_LIMIT,
            spec_bbox(ps.subrange(0, i as int)) == (
                Vec2 { x: x_min, y: y_max },
                Vec2 { x: x_max, y: y_min },
            ),
        decreases points@.len() - i,
    {
        let p = points[i].pos;
        if p.x < x_min {
            x_min = p.x;
        }
        if p.x > x_max {
            x_max = p.x;
        }
        if p.y < y_min {
            y_min = p.y;
        }
        if p.y > y_max {
            y_max = p.y;
        }
        i = i + 1;
        proof {
            let cur = ps.subrange(0, i as int);
            assert(cur.drop_last() =~= ps.subrange(0, i - 1 as int));
            assert(cur.last() == points@[i - 1].pos);
        }
    }
    proof {
        assert(ps.subrange(0, points@.len() as int) =~= ps);
    }
    let mut tree = Node::new(Vec2 { x: x_min, y: y_max }, Vec2 { x: x_max, y: y_min });
    let ghost root = empty_node(Vec2 { x: x_min, y: y_max }, Vec2 { x: x_max, y: y_min });
    proof {
        assert(ps.subrange(0, 0) =~= Seq::<Vec2>::empty());
    }
    let mut j: usize = 0;
    while j < points.len()
        invariant
            0 <= j <= points@.len(),
            points@.len() <= COUNT_LIMIT,
            forall|k: int| 0 <= k < points@.len() ==> (#[trigger] points@[k].pos).in_range(),
            ps == positions(points@),
            tree == spec_insert_all(root, ps.subrange(0, j as int)),
            tree.wf(),
            tree.within_depth(crate::MAX_DEPTH as nat),
            tree.n == j,
            tree.sum_x as int == sum_xs(ps.subrange(0, j as int)),
            tree.sum_y as int == sum_ys(ps.subrange(0, j as int)),
            root.region_ok(),
        decreases points@.len() - j,
    {
        let p = points[j].pos;
        proof {
            lemma_spec_insert_props(tree, p, crate::MAX_DEPTH as nat);
        }
        tree.insert(p, crate::MAX_DEPTH);
        j = j + 1;
        proof {
            let cur = ps.subrange(0, j as int);
            assert(cur.drop_last() =~= ps.subrange(0, j - 1 as int));
            assert(cur.last() == points@[j - 1].pos);
        }
    }
    proof {
        assert(ps.subrange(0, points@.len() as int) =~= ps);
    }
    Ok(tree)
}

/// The total count carried by the leaves of a subtree.
pub open spec fn leaves_weight(t: Node) -> int
    decreases t,
{
    match t.children {
        Some(q) => leaves_weight(q.ul) + leaves_weight(q.ur) + leaves_weight(q.ll)
            + leaves_weight(q.lr),
        None => t.n as int,
    }
}

/// Whether every leaf holds at most one point, so each point of the tree
/// stands alone at its own leaf. Building over pairwise-distinct in-range
/// positions always gives a resolved tree (the subdivision budget outlasts
/// the coordinate range, which `crate::laws` proves); coincident positions
/// merge at the cap and leave a heavier leaf.
pub open spec fn resolved(t: Node) -> bool
    decreases t,
{
    match t.children {
        Some(q) => resolved(q.ul) && resolved(q.ur) && resolved(q.ll) && resolved(q.lr),
        None => t.n <= 1,
    }
}

/// The points a resolved subtree holds, one per occupied leaf, in traversal
/// order. (On a leaf that merged several points this reads the aggregate
/// mean instead, so it is only meaningful on resolved trees.)
pub open spec fn contents(t: Node) -> Seq<Vec2>
    decreases t,
{
    match t.children {
        Some(q) => contents(q.ul) + contents(q.ur) + contents(q.ll) + contents(q.lr),
        None => if t.n == 0 {
            Seq::empty()
        } else {
            seq![Vec2 { x: t.sum_x, y: t.sum_y }]
        },
    }
}

impl Node {
    /// Sums the counts carried by the leaves of this subtree.
    pub fn leaf_weight_sum(&self) -> (r: usize)
        requires
            self.wf(),
        ensures
            r as int == leaves_weight(*self),
        decreases *self,
    {
        proof {
            crate::laws::lemma_mass_conservation(*self);
        }
        match &self.children {
            Some(q) => {
                proof {
                    crate::laws::lemma_mass_conservation(q.ul);
                    crate::laws::lemma_mass_conservation(q.ur);
                    crate::laws::lemma_mass_conservation(q.ll);
                    crate::laws::lemma_mass_conservation(q.lr);
                }
                q.ul.leaf_weight_sum() + q.ur.leaf_weight_sum() + q.ll.leaf_weight_sum()
                    + q.lr.leaf_weight_sum()
            },
            None => self.n,
        }
    }

    /// Whether every leaf of this subtree holds at most one point.
    pub fn is_resolved(&self) -> (r: bool)
        ensures
            r == resolved(*self),
        decreases *self,
    {
        match &self.children {
            Some(q) => q.ul.is_resolved() && q.ur.is_resolved() && q.ll.is_resolved()
                && q.lr.is_resolved(),
            None => self.n <= 1,
        }
    }

    /// The region corners of every node of this subtree, root first, for an
    /// overlay renderer to draw the subdivision rectangles without touching
    /// the tree's representation.
    pub fn rectangles(&self) -> (r: Vec<(Vec2, Vec2)>)
        ensures
            r@ == spec_rects(*self),
        decreases *self,
    {
        let mut v: Vec<(Vec2, Vec2)> = Vec::new();
        v.push((self.upper_left, self.lower_right));
        match &self.children {
            Some(q) => {
                let mut s0 = q.ul.rectangles();
                let mut s1 = q.ur.rectangles();
                let mut s2 = q.ll.rectangles();
                let mut s3 = q.lr.rectangles();
                v.append(&mut s0);
                v.append(&mut s1);
                v.append(&mut s2);
                v.append(&mut s3);
                proof {
                    assert(v@ =~= spec_rects(*self));
                }
            },
            None => {
                proof {
                    assert(v@ =~= spec_rects(*self));
                }
            },
        }
        v
    }
}

/// The region corners of every node of a subtree, root first.
pub open spec fn spec_rects(t: Node) -> Seq<(Vec2, Vec2)>
    decreases t,
{
    match t.children {
        Some(q) => seq![(t.upper_left, t.lower_right)] + spec_rects(q.ul) + spec_rects(q.ur)
            + spec_rects(q.ll) + spec_rects(q.lr),
        None => seq![(t.upper_left, t.lower_right)],
    }
}

} // verus!

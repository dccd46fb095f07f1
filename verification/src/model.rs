//! The mathematical shape of a quadtree and the laws that insertion obeys.
//!
//! `TreeModel` is the ghost view of a node: its region, capacity, stored
//! points and children. `spec_insert` and `spec_accepted` say what
//! insertion does and when a point is stored; the lemmas below prove the
//! structural laws: capacity bounds on leaves, conservation of accepted
//! points, and that rejected points leave the tree untouched.

use vstd::prelude::*;

use crate::geom::Point;
use crate::geom::Rectangle;
use crate::geom::can_subdivide;
use crate::geom::lemma_quadrants_wf;
use crate::geom::ne_rect;
use crate::geom::nw_rect;
use crate::geom::se_rect;
use crate::geom::sw_rect;

verus! {

/// The mathematical shape of a quadtree node: its region, its capacity,
/// the points it stores directly, and its four children if it has divided.
#[verifier::ext_equal]
pub ghost struct TreeModel {
    pub boundary: Rectangle,
    pub capacity: nat,
    pub points: Seq<Point>,
    pub kids: Option<Box<Quads>>,
}

/// The four children of a divided node.
#[verifier::ext_equal]
pub ghost struct Quads {
    pub ne: TreeModel,
    pub nw: TreeModel,
    pub se: TreeModel,
    pub sw: TreeModel,
}

impl TreeModel {
    /// Well-formedness: a valid boundary, a representable capacity, at most
    /// `capacity` stored points, and, once divided, a frozen full list and
    /// four children that quarter this node's region with the same capacity.
    pub open spec fn wf(self) -> bool
        decreases self,
    {
        &&& self.boundary.wf()
        &&& self.capacity <= usize::MAX
        &&& self.points.len() <= self.capacity
        &&& match self.kids {
            None => true,
            Some(q) => {
                &&& self.points.len() == self.capacity
                &&& q.ne.boundary == ne_rect(self.boundary)
                &&& q.nw.boundary == nw_rect(self.boundary)
                &&& q.se.boundary == se_rect(self.boundary)
                &&& q.sw.boundary == sw_rect(self.boundary)
                &&& q.ne.capacity == self.capacity
                &&& q.nw.capacity == self.capacity
                &&& q.se.capacity == self.capacity
                &&& q.sw.capacity == self.capacity
                &&& q.ne.wf()
                &&& q.nw.wf()
                &&& q.se.wf()
                &&& q.sw.wf()
            },
        }
    }

    /// The node after subdivision: the same region, capacity and points,
    /// with four empty children over the quadrants.
    pub open spec fn subdivided(self) -> TreeModel {
        TreeModel {
            kids: Some(
                Box::new(
                    Quads {
                        ne: TreeModel {
                            boundary: ne_rect(self.boundary),
                            capacity: self.capacity,
                            points: Seq::empty(),
                            kids: None,
                        },
                        nw: TreeModel {
                            boundary: nw_rect(self.boundary),
                            capacity: self.capacity,
                            points: Seq::empty(),
                            kids: None,
                        },
                        se: TreeModel {
                            boundary: se_rect(self.boundary),
                            capacity: self.capacity,
                            points: Seq::empty(),
                            kids: None,
                        },
                        sw: TreeModel {
                            boundary: sw_rect(self.boundary),
                            capacity: self.capacity,
                            points: Seq::empty(),
                            kids: None,
                        },
                    },
                ),
            ),
            ..self
        }
    }

    /// What insertion does. A point outside the boundary leaves the node
    /// unchanged. A point inside a node with room is appended. A full leaf
    /// subdivides if its region allows it; the point is then offered to all
    /// four children, each of which applies its own containment test, so a
    /// point on a dividing line is dropped. A full leaf too small to
    /// subdivide drops the point.
    pub open spec fn spec_insert(self, p: Point) -> TreeModel
        decreases self.boundary.w + self.boundary.h
            when self.wf()
    {
        if !self.boundary.spec_contains(p) {
            self
        } else if self.points.len() < self.capacity {
            TreeModel { points: self.points.push(p), ..self }
        } else {
            let base = if self.kids is None {
                if can_subdivide(self.boundary) {
                    self.subdivided()
                } else {
                    self
                }
            } else {
                self
            };
            match base.kids {
                None => self,
                Some(q) => TreeModel {
                    kids: Some(
                        Box::new(
                            Quads {
                                ne: q.ne.spec_insert(p),
                                nw: q.nw.spec_insert(p),
                                se: q.se.spec_insert(p),
                                sw: q.sw.spec_insert(p),
                            },
                        ),
                    ),
                    ..base
                },
            }
        }
    }

    /// Whether insertion stores the point somewhere in the node.
    pub open spec fn spec_accepted(self, p: Point) -> bool
        decreases self.boundary.w + self.boundary.h
            when self.wf()
    {
        if !self.boundary.spec_contains(p) {
            false
        } else if self.points.len() < self.capacity {
            true
        } else {
            let base = if self.kids is None {
                if can_subdivide(self.boundary) {
                    self.subdivided()
                } else {
                    self
                }
            } else {
                self
            };
            match base.kids {
                None => false,
                Some(q) => q.ne.spec_accepted(p) || q.nw.spec_accepted(p)
                    || q.se.spec_accepted(p) || q.sw.spec_accepted(p),
            }
        }
    }

    /// The number of points stored in the whole subtree.
    pub open spec fn count(self) -> nat
        decreases self,
    {
        self.points.len() + (match self.kids {
            None => 0nat,
            Some(q) => q.ne.count() + q.nw.count() + q.se.count() + q.sw.count(),
        })
    }
}

/// Insertion never changes a node's region or capacity.
pub proof fn lemma_insert_frame(t: TreeModel, p: Point)
    requires
        t.wf(),
    ensures
        t.spec_insert(p).boundary == t.boundary,
        t.spec_insert(p).capacity == t.capacity,
{
}

/// An accepted point lay strictly inside the node's region.
pub proof fn lemma_accepted_contains(t: TreeModel, p: Point)
    requires
        t.wf(),
    ensures
        t.spec_accepted(p) ==> t.boundary.spec_contains(p),
{
}

/// A point strictly inside a leaf with room to spare is always accepted.
pub proof fn lemma_leaf_room_accepted(t: TreeModel, p: Point)
    requires
        t.wf(),
        t.boundary.spec_contains(p),
        t.points.len() < t.capacity,
    ensures
        t.spec_accepted(p),
{
}

/// Inserting a point outside the region never mutates the tree: the result
/// is the very same tree and the point is not accepted.
pub proof fn lemma_rejected_unchanged(t: TreeModel, p: Point)
    requires
        t.wf(),
        !t.boundary.spec_contains(p),
    ensures
        t.spec_insert(p) == t,
        !t.spec_accepted(p),
{
}

/// Insertion preserves well-formedness.
pub proof fn lemma_insert_wf(t: TreeModel, p: Point)
    requires
        t.wf(),
    ensures
        t.spec_insert(p).wf(),
    decreases t.boundary.w + t.boundary.h,
{
    if !t.boundary.spec_contains(p) {
    } else if t.points.len() < t.capacity {
    } else {
        let base = if t.kids is None {
            if can_subdivide(t.boundary) {
                t.subdivided()
            } else {
                t
            }
        } else {
            t
        };
        match base.kids {
            None => {},
            Some(q) => {
                if t.kids is None {
                    lemma_quadrants_wf(t.boundary);
                    assert(q.ne.wf() && q.nw.wf() && q.se.wf() && q.sw.wf());
                    assert(base.wf());
                }
                assert(q.ne.wf() && q.nw.wf() && q.se.wf() && q.sw.wf());
                assert(0 <= base.boundary.w / 2 <= i64::MAX);
                assert(0 <= base.boundary.h / 2 <= i64::MAX);
                lemma_insert_wf(q.ne, p);
                lemma_insert_wf(q.nw, p);
                lemma_insert_wf(q.se, p);
                lemma_insert_wf(q.sw, p);
                lemma_insert_frame(q.ne, p);
                lemma_insert_frame(q.nw, p);
                lemma_insert_frame(q.se, p);
                lemma_insert_frame(q.sw, p);
                assert(t.spec_insert(p).wf());
            },
        }
    }
}

/// Conservation at a single insertion: an accepted point raises the total
/// number of stored points by exactly one, a dropped point by nothing. In
/// particular a point is never duplicated across children.
pub proof fn lemma_insert_count(t: TreeModel, p: Point)
    requires
        t.wf(),
    ensures
        t.spec_insert(p).count() == t.count() + (if t.spec_accepted(p) {
            1nat
        } else {
            0nat
        }),
    decreases t.boundary.w + t.boundary.h,
{
    if !t.boundary.spec_contains(p) {
    } else if t.points.len() < t.capacity {
    } else {
        let base = if t.kids is None {
            if can_subdivide(t.boundary) {
                t.subdivided()
            } else {
                t
            }
        } else {
            t
        };
        match base.kids {
            None => {},
            Some(q) => {
                if t.kids is None {
                    lemma_quadrants_wf(t.boundary);
                    assert(q.ne.wf() && q.nw.wf() && q.se.wf() && q.sw.wf());
                    assert(base.wf());
                    assert(q.ne.count() == 0 && q.nw.count() == 0 && q.se.count() == 0
                        && q.sw.count() == 0);
                    assert(base.count() == t.count());
                }
                assert(q.ne.wf() && q.nw.wf() && q.se.wf() && q.sw.wf());
                assert(0 <= base.boundary.w / 2 <= i64::MAX);
                assert(0 <= base.boundary.h / 2 <= i64::MAX);
                lemma_insert_count(q.ne, p);
                lemma_insert_count(q.nw, p);
                lemma_insert_count(q.se, p);
                lemma_insert_count(q.sw, p);
                lemma_accepted_contains(q.ne, p);
                lemma_accepted_contains(q.nw, p);
                lemma_accepted_contains(q.se, p);
                lemma_accepted_contains(q.sw, p);
                crate::geom::lemma_quadrants_disjoint(base.boundary, p);
                assert(t.spec_insert(p).count() == base.points.len() + (q.ne.spec_insert(p).count()
                    + q.nw.spec_insert(p).count() + q.se.spec_insert(p).count()
                    + q.sw.spec_insert(p).count()));
            },
        }
    }
}

/// Every leaf stores at most `capacity` points.
pub open spec fn leaves_within_capacity(t: TreeModel) -> bool
    decreases t,
{
    &&& (t.kids is None ==> t.points.len() <= t.capacity)
    &&& match t.kids {
        None => true,
        Some(q) => leaves_within_capacity(q.ne) && leaves_within_capacity(q.nw)
            && leaves_within_capacity(q.se) && leaves_within_capacity(q.sw),
    }
}

/// The capacity bound holds of every leaf of a well-formed tree — so at
/// every time, since `QuadTree::new` establishes well-formedness and
/// `QuadTree::insert` preserves it.
pub proof fn lemma_capacity_invariant(t: TreeModel)
    requires
        t.wf(),
    ensures
        leaves_within_capacity(t),
    decreases t,
{
    match t.kids {
        None => {},
        Some(q) => {
            lemma_capacity_invariant(q.ne);
            lemma_capacity_invariant(q.nw);
            lemma_capacity_invariant(q.se);
            lemma_capacity_invariant(q.sw);
        },
    }
}

/// The tree after a whole sequence of insertions, first point first.
pub open spec fn insert_all(t: TreeModel, ps: Seq<Point>) -> TreeModel
    decreases ps.len(),
{
    if ps.len() == 0 {
        t
    } else {
        insert_all(t.spec_insert(ps[0]), ps.drop_first())
    }
}

/// Every point of the sequence is accepted by the tree as it stands at
/// that point's turn.
pub open spec fn all_accepted(t: TreeModel, ps: Seq<Point>) -> bool
    decreases ps.len(),
{
    ps.len() == 0 || (t.spec_accepted(ps[0]) && all_accepted(t.spec_insert(ps[0]), ps.drop_first()))
}

/// Insertion conservation: inserting a sequence of points that are all
/// accepted — each lay strictly inside the tree's region and off every
/// dividing line it met, with room or a possible subdivision at its leaf —
/// stores exactly one point per insertion: the total over all nodes grows
/// by the length of the sequence, with no point lost or duplicated.
pub proof fn lemma_insertion_conservation(t: TreeModel, ps: Seq<Point>)
    requires
        t.wf(),
        all_accepted(t, ps),
    ensures
        insert_all(t, ps).wf(),
        insert_all(t, ps).count() == t.count() + ps.len(),
    decreases ps.len(),
{
    if ps.len() == 0 {
    } else {
        lemma_insert_wf(t, ps[0]);
        lemma_insert_count(t, ps[0]);
        lemma_insertion_conservation(t.spec_insert(ps[0]), ps.drop_first());
    }
}

/// The visit order of the structural walk: each node yields its region,
/// whether it has divided, and its own stored points, itself first and
/// then its children in the order northeast, northwest, southeast,
/// southwest.
pub open spec fn spec_walk(t: TreeModel) -> Seq<(Rectangle, bool, Seq<Point>)>
    decreases t,
{
    seq![(t.boundary, t.kids is Some, t.points)] + (match t.kids {
        None => Seq::empty(),
        Some(q) => spec_walk(q.ne) + spec_walk(q.nw) + spec_walk(q.se) + spec_walk(q.sw),
    })
}

} // verus!

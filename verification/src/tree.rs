//! The quadtree itself: a capacity-bounded recursive partition.
//!
//! Every node covers a rectangle and stores up to `capacity` points
//! directly. The first insertion beyond capacity quarters the region into
//! four children (northeast, northwest, southeast, southwest); the node's
//! own list then freezes and later points descend into the children. A
//! point is accepted only strictly inside a node's boundary, so points on
//! a dividing line or on the outer edge are dropped rather than stored
//! twice; a full node whose region is too small to quarter (a half-extent
//! below 2) likewise drops further points. Both policies are part of the
//! contracts below.

use vstd::prelude::*;

use crate::geom::Point;
use crate::geom::QuadError;
use crate::geom::Rectangle;
use crate::geom::can_subdivide;
use crate::geom::lemma_quadrants_wf;
use crate::geom::ne_rect;
use crate::geom::nw_rect;
use crate::geom::se_rect;
use crate::geom::sw_rect;
use crate::model::Quads;
use crate::model::TreeModel;
use crate::model::spec_walk;
use crate::codec::TAG_BOUNDARY;
use crate::codec::TAG_CAPACITY;
use crate::codec::TAG_DIVIDED;
use crate::codec::TAG_POINTS;
use crate::codec::lemma_parse_points_props;
use crate::codec::lemma_ser_points_len;
use crate::codec::lemma_ser_points_snoc;
use crate::codec::parse_node;
use crate::codec::push_i64;
use crate::codec::push_u64;
use crate::codec::read_points;
use crate::codec::read_rect;
use crate::codec::read_tag;
use crate::codec::read_u64;
use crate::codec::ser_points;
use crate::codec::spec_serialize;
use vstd::bytes::lemma_auto_spec_u64_to_from_le_bytes;

verus! {

/// A quadtree node. The four children are either all present (`divided`)
/// or all absent; each child is owned exclusively by its parent.
pub struct QuadTree {
    pub(crate) boundary: Rectangle,
    pub(crate) capacity: usize,
    pub(crate) points: Vec<Point>,
    pub(crate) northwest: Option<Box<QuadTree>>,
    pub(crate) northeast: Option<Box<QuadTree>>,
    pub(crate) southwest: Option<Box<QuadTree>>,
    pub(crate) southeast: Option<Box<QuadTree>>,
    pub(crate) divided: bool,
}

impl QuadTree {
    /// The abstract shape of this node.
    pub(crate) open spec fn model(self) -> TreeModel
        decreases self,
    {
        TreeModel {
            boundary: self.boundary,
            capacity: self.capacity as nat,
            points: self.points@,
            kids: if !self.divided {
                None
            } else {
                match (self.northeast, self.northwest, self.southeast, self.southwest) {
                    (Some(ne), Some(nw), Some(se), Some(sw)) => Some(
                        Box::new(
                            Quads {
                                ne: ne.model(),
                                nw: nw.model(),
                                se: se.model(),
                                sw: sw.model(),
                            },
                        ),
                    ),
                    _ => None,
                }
            },
        }
    }

    /// The `divided` flag agrees with the presence of the children,
    /// recursively.
    pub(crate) open spec fn inv(self) -> bool
        decreases self,
    {
        &&& self.divided <==> self.northeast is Some
        &&& self.divided <==> self.northwest is Some
        &&& self.divided <==> self.southeast is Some
        &&& self.divided <==> self.southwest is Some
        &&& match (self.northeast, self.northwest, self.southeast, self.southwest) {
            (Some(ne), Some(nw), Some(se), Some(sw)) => ne.inv() && nw.inv() && se.inv()
                && sw.inv(),
            _ => true,
        }
    }

    /// Validity of the whole tree: the structure is consistent and its
    /// abstract shape is well-formed.
    pub closed spec fn wf(self) -> bool {
        self.inv() && self.model().wf()
    }

    /// Builds an empty tree over `boundary` holding at most `capacity`
    /// points per node; a degenerate boundary is rejected.
    pub fn new(boundary: Rectangle, capacity: usize) -> (r: Result<QuadTree, QuadError>)
        ensures
            (match r {
                Ok(t) => {
                    &&& boundary.wf()
                    &&& t.wf()
                    &&& t@ == (TreeModel {
                        boundary,
                        capacity: capacity as nat,
                        points: Seq::<Point>::empty(),
                        kids: None,
                    })
                },
                Err(e) => e == QuadError::InvalidConstruction && !boundary.wf(),
            }),
    {
        if !boundary.valid() {
            return Err(QuadError::InvalidConstruction);
        }
        let t = QuadTree {
            boundary,
            capacity,
            points: Vec::new(),
            northwest: None,
            northeast: None,
            southwest: None,
            southeast: None,
            divided: false,
        };
        proof {
            assert(t.model() =~= TreeModel {
                boundary,
                capacity: capacity as nat,
                points: Seq::<Point>::empty(),
                kids: None,
            });
        }
        Ok(t)
    }

    /// Quarters this node's region into four empty children.
    fn subdivide(&mut self)
        requires
            old(self).wf(),
            !old(self).divided,
            can_subdivide(old(self).boundary),
            old(self).points@.len() == old(self).capacity,
        ensures
            final(self).wf(),
            final(self).divided,
            final(self)@ == old(self)@.subdivided(),
            final(self).boundary == old(self).boundary,
    {
        proof {
            lemma_quadrants_wf(self.boundary);
        }
        let b = self.boundary;
        let half_w = half(b.w);
        let half_h = half(b.h);
        let ne = Rectangle { x: b.x + half_w, y: b.y - half_h, w: half_w, h: half_h };
        self.northeast = Some(Box::new(Self::empty_node(ne, self.capacity)));
        let nw = Rectangle { x: b.x - half_w, y: b.y - half_h, w: half_w, h: half_h };
        self.northwest = Some(Box::new(Self::empty_node(nw, self.capacity)));
        let se = Rectangle { x: b.x + half_w, y: b.y + half_h, w: half_w, h: half_h };
        self.southeast = Some(Box::new(Self::empty_node(se, self.capacity)));
        let sw = Rectangle { x: b.x - half_w, y: b.y + half_h, w: half_w, h: half_h };
        self.southwest = Some(Box::new(Self::empty_node(sw, self.capacity)));
        self.divided = true;
        proof {
            assert(self.model().kids.unwrap().ne =~= old(self)@.subdivided().kids.unwrap().ne);
            assert(self.model().kids.unwrap().nw =~= old(self)@.subdivided().kids.unwrap().nw);
            assert(self.model().kids.unwrap().se =~= old(self)@.subdivided().kids.unwrap().se);
            assert(self.model().kids.unwrap().sw =~= old(self)@.subdivided().kids.unwrap().sw);
            assert(self.model().kids.unwrap() =~= old(self)@.subdivided().kids.unwrap());
            assert(self.model() =~= old(self)@.subdivided());
            assert(self.inv());
            let m = self.model();
            let q = m.kids.unwrap();
            assert(q.ne.wf());
            assert(q.nw.wf());
            assert(q.se.wf());
            assert(q.sw.wf());
            assert(m.wf());
        }
    }

    /// A leaf with no stored points.
    fn empty_node(boundary: Rectangle, capacity: usize) -> (t: QuadTree)
        ensures
            t.inv(),
            !t.divided,
            t@ == (TreeModel {
                boundary,
                capacity: capacity as nat,
                points: Seq::<Point>::empty(),
                kids: None,
            }),
    {
        let t = QuadTree {
            boundary,
            capacity,
            points: Vec::new(),
            northwest: None,
            northeast: None,
            southwest: None,
            southeast: None,
            divided: false,
        };
        proof {
            assert(t.model() =~= TreeModel {
                boundary,
                capacity: capacity as nat,
                points: Seq::<Point>::empty(),
                kids: None,
            });
        }
        t
    }

    /// Inserts a point, reporting whether it was stored. The point is
    /// dropped (and the tree left unchanged) when it lies outside or on the
    /// edge of this node's region; otherwise it is appended here if there
    /// is room, and handed to the four children after subdivision if not.
    pub fn insert(&mut self, point: Point) -> (r: bool)
        requires
            old(self).wf(),
        ensures
            final(self).wf(),
            final(self)@ == old(self)@.spec_insert(point),
            r == old(self)@.spec_accepted(point),
        decreases old(self)@.boundary.w + old(self)@.boundary.h,
    {
        if !self.boundary.contains(point) {
            return false;
        }
        if self.points.len() < self.capacity {
            self.points.push(point);
            proof {
                assert(self.model() =~= old(self)@.spec_insert(point));
            }
            return true;
        }
        if !self.divided {
            if self.boundary.w < 2 || self.boundary.h < 2 {
                return false;
            }
            self.subdivide();
        }
        let ghost base = old(self).model();
        let ghost mid = self.model();
        proof {
            if old(self).divided {
                assert(mid == base);
            } else {
                assert(mid == base.subdivided());
            }
            assert(self.wf());
            assert(mid.wf());
            let q = mid.kids.unwrap();
            assert(q.ne.boundary == ne_rect(mid.boundary) && q.ne.wf());
            assert(q.nw.boundary == nw_rect(mid.boundary) && q.nw.wf());
            assert(q.se.boundary == se_rect(mid.boundary) && q.se.wf());
            assert(q.sw.boundary == sw_rect(mid.boundary) && q.sw.wf());
            assert(0 <= mid.boundary.w / 2 <= i64::MAX);
            assert(0 <= mid.boundary.h / 2 <= i64::MAX);
        }
        let mut ne = self.northeast.take().unwrap();
        let r1 = (&mut *ne).insert(point);
        self.northeast = Some(ne);
        let mut nw = self.northwest.take().unwrap();
        let r2 = (&mut *nw).insert(point);
        self.northwest = Some(nw);
        let mut se = self.southeast.take().unwrap();
        let r3 = (&mut *se).insert(point);
        self.southeast = Some(se);
        let mut sw = self.southwest.take().unwrap();
        let r4 = (&mut *sw).insert(point);
        self.southwest = Some(sw);
        proof {
            let q = mid.kids.unwrap();
            assert(self.model().kids.unwrap() =~= Box::new(Quads {
                ne: q.ne.spec_insert(point),
                nw: q.nw.spec_insert(point),
                se: q.se.spec_insert(point),
                sw: q.sw.spec_insert(point),
            }));
            assert(self.model() =~= old(self)@.spec_insert(point));
        }
        r1 || r2 || r3 || r4
    }
}

impl QuadTree {
    /// Encodes the whole tree. The encoding is lossless: `deserialize`
    /// rebuilds a structurally identical tree from it
    /// (`codec::lemma_round_trip`).
    pub fn serialize(&self) -> (out: Vec<u8>)
        requires
            self.wf(),
        ensures
            out@ == spec_serialize(self@),
    {
        let mut out: Vec<u8> = Vec::new();
        self.ser_into(&mut out);
        out
    }

    /// Appends this node's encoding to `out`.
    fn ser_into(&self, out: &mut Vec<u8>)
        requires
            self.inv(),
        ensures
            final(out)@ == old(out)@ + spec_serialize(self.model()),
        decreases self,
    {
        proof {
            lemma_auto_spec_u64_to_from_le_bytes();
            lemma_ser_points_len(self.model().points);
        }
        out.push(TAG_BOUNDARY);
        push_i64(out, self.boundary.x);
        push_i64(out, self.boundary.y);
        push_i64(out, self.boundary.w);
        push_i64(out, self.boundary.h);
        out.push(TAG_CAPACITY);
        push_u64(out, self.capacity as u64);
        out.push(TAG_POINTS);
        push_u64(out, self.points.len() as u64);
        let ghost before_points = out@;
        let mut k: usize = 0;
        while k < self.points.len()
            invariant
                k <= self.points@.len(),
                out@ == before_points + ser_points(self.points@.subrange(0, k as int)),
            decreases self.points@.len() - k,
        {
            let p = self.points[k];
            push_i64(out, p.x);
            push_i64(out, p.y);
            proof {
                lemma_ser_points_snoc(self.points@.subrange(0, k as int), p);
                assert(self.points@.subrange(0, k as int + 1) =~= self.points@.subrange(
                    0,
                    k as int,
                ).push(p));
                assert(out@ =~= before_points + ser_points(
                    self.points@.subrange(0, k as int + 1),
                ));
            }
            k = k + 1;
        }
        proof {
            assert(self.points@.subrange(0, self.points@.len() as int) =~= self.points@);
        }
        out.push(TAG_DIVIDED);
        if self.divided {
            out.push(1u8);
            match (&self.northeast, &self.northwest, &self.southeast, &self.southwest) {
                (Some(ne), Some(nw), Some(se), Some(sw)) => {
                    ne.ser_into(out);
                    nw.ser_into(out);
                    se.ser_into(out);
                    sw.ser_into(out);
                },
                _ => {},
            }
        } else {
            out.push(0u8);
        }
        proof {
            assert(out@ =~= old(out)@ + spec_serialize(self.model()));
        }
    }

    /// Decodes a tree. Exactly the complete, well-formed encodings are
    /// accepted; a truncated, trailing-garbage or invariant-breaking buffer
    /// is `MalformedData`.
    pub fn deserialize(bytes: &[u8]) -> (r: Result<QuadTree, QuadError>)
        ensures
            (match r {
                Ok(t) => {
                    &&& parse_node(bytes@, 0) == Some((t@, bytes@.len() as int))
                    &&& t.wf()
                },
                Err(e) => {
                    &&& e == QuadError::MalformedData
                    &&& (match parse_node(bytes@, 0) {
                        Some((m, j)) => j != bytes@.len(),
                        None => true,
                    })
                },
            }),
    {
        match Self::read_node(bytes, 0) {
            None => Err(QuadError::MalformedData),
            Some((t, j)) => if j == bytes.len() {
                Ok(t)
            } else {
                Err(QuadError::MalformedData)
            },
        }
    }

    /// Decodes one node at `i`, recursively.
    #[verifier::rlimit(100)]
    #[verifier::spinoff_prover]
    fn read_node(s: &[u8], i: usize) -> (r: Option<(QuadTree, usize)>)
        ensures
            (match r {
                Some((t, j)) => {
                    &&& parse_node(s@, i as int) == Some((t.model(), j as int))
                    &&& t.wf()
                    &&& i < j <= s@.len()
                },
                None => parse_node(s@, i as int) is None,
            }),
        decreases s@.len() - i,
    {
        let j0 = match read_tag(s, i, TAG_BOUNDARY) {
            None => {
                return None;
            },
            Some(j) => j,
        };
        let (rect, j1) = match read_rect(s, j0) {
            None => {
                return None;
            },
            Some(v) => v,
        };
        if !rect.valid() {
            return None;
        }
        let j2 = match read_tag(s, j1, TAG_CAPACITY) {
            None => {
                return None;
            },
            Some(j) => j,
        };
        let (cap64, j3) = match read_u64(s, j2) {
            None => {
                return None;
            },
            Some(v) => v,
        };
        if cap64 > usize::MAX as u64 {
            return None;
        }
        let cap = cap64 as usize;
        let j4 = match read_tag(s, j3, TAG_POINTS) {
            None => {
                return None;
            },
            Some(j) => j,
        };
        let (n64, j5) = match read_u64(s, j4) {
            None => {
                return None;
            },
            Some(v) => v,
        };
        if n64 > cap64 {
            return None;
        }
        let (pts, j6) = match read_points(s, j5, n64) {
            None => {
                return None;
            },
            Some(v) => v,
        };
        proof {
            lemma_parse_points_props(s@, j5 as int, n64 as nat);
        }
        let j7 = match read_tag(s, j6, TAG_DIVIDED) {
            None => {
                return None;
            },
            Some(j) => j,
        };
        if j7 >= s.len() {
            return None;
        }
        let d = s[j7];
        let j8 = j7 + 1;
        if d == 0 {
            let t = QuadTree {
                boundary: rect,
                capacity: cap,
                points: pts,
                northwest: None,
                northeast: None,
                southwest: None,
                southeast: None,
                divided: false,
            };
            proof {
                assert(t.model() =~= TreeModel {
                    boundary: rect,
                    capacity: cap64 as nat,
                    points: pts@,
                    kids: None,
                });
                assert(t.model().wf());
                assert(parse_node(s@, i as int) == Some((t.model(), j8 as int)));
            }
            Some((t, j8))
        } else if d == 1 {
            if pts.len() != cap {
                return None;
            }
            let (ne, k1) = match Self::read_node(s, j8) {
                None => {
                    return None;
                },
                Some(v) => v,
            };
            let (nw, k2) = match Self::read_node(s, k1) {
                None => {
                    return None;
                },
                Some(v) => v,
            };
            let (se, k3) = match Self::read_node(s, k2) {
                None => {
                    return None;
                },
                Some(v) => v,
            };
            let (sw, k4) = match Self::read_node(s, k3) {
                None => {
                    return None;
                },
                Some(v) => v,
            };
            let hw = half(rect.w);
            let hh = half(rect.h);
            let e_ne = Rectangle { x: rect.x + hw, y: rect.y - hh, w: hw, h: hh };
            let e_nw = Rectangle { x: rect.x - hw, y: rect.y - hh, w: hw, h: hh };
            let e_se = Rectangle { x: rect.x + hw, y: rect.y + hh, w: hw, h: hh };
            let e_sw = Rectangle { x: rect.x - hw, y: rect.y + hh, w: hw, h: hh };
            proof {
                assert(e_ne == ne_rect(rect));
                assert(e_nw == nw_rect(rect));
                assert(e_se == se_rect(rect));
                assert(e_sw == sw_rect(rect));
            }
            if !(ne.boundary == e_ne && nw.boundary == e_nw && se.boundary == e_se && sw.boundary
                == e_sw) {
                return None;
            }
            if !(ne.capacity == cap && nw.capacity == cap && se.capacity == cap && sw.capacity
                == cap) {
                return None;
            }
            let t = QuadTree {
                boundary: rect,
                capacity: cap,
                points: pts,
                northwest: Some(Box::new(nw)),
                northeast: Some(Box::new(ne)),
                southwest: Some(Box::new(sw)),
                southeast: Some(Box::new(se)),
                divided: true,
            };
            proof {
                let m = t.model();
                let q = m.kids.unwrap();
                assert(q.ne.wf() && q.nw.wf() && q.se.wf() && q.sw.wf());
                assert(m.wf());
                assert(t.inv());
                assert(parse_node(s@, i as int) == Some((t.model(), k4 as int)));
            }
            Some((t, k4))
        } else {
            None
        }
    }
}

/// One node of the structural walk: its region, whether it has divided,
/// and the points it stores directly.
pub struct NodeRecord {
    pub boundary: Rectangle,
    pub divided: bool,
    pub points: Vec<Point>,
}

impl View for NodeRecord {
    type V = (Rectangle, bool, Seq<Point>);

    open spec fn view(&self) -> (Rectangle, bool, Seq<Point>) {
        (self.boundary, self.divided, self.points@)
    }
}

/// The abstract content of a record list.
pub open spec fn records_view(rs: Seq<NodeRecord>) -> Seq<(Rectangle, bool, Seq<Point>)> {
    rs.map_values(|r: NodeRecord| r@)
}

impl QuadTree {
    /// The region this node covers.
    pub fn boundary(&self) -> (b: Rectangle)
        ensures
            b == self@.boundary,
    {
        self.boundary
    }

    /// The most points a node stores before subdividing.
    pub fn capacity(&self) -> (c: usize)
        ensures
            c as nat == self@.capacity,
    {
        self.capacity
    }

    /// The points stored directly at this node, in insertion order.
    pub fn points(&self) -> (ps: &Vec<Point>)
        ensures
            ps@ == self@.points,
    {
        &self.points
    }

    /// Whether this node has subdivided.
    pub fn is_divided(&self) -> (d: bool)
        requires
            self.wf(),
        ensures
            d == (self@.kids is Some),
    {
        self.divided
    }

    /// The northeast child of a divided node.
    pub fn northeast(&self) -> (r: Option<&QuadTree>)
        requires
            self.wf(),
        ensures
            (match r {
                Some(c) => self@.kids is Some && c@ == self@.kids.unwrap().ne && c.wf(),
                None => self@.kids is None,
            }),
    {
        match &self.northeast {
            Some(b) => Some(&**b),
            None => None,
        }
    }

    /// The northwest child of a divided node.
    pub fn northwest(&self) -> (r: Option<&QuadTree>)
        requires
            self.wf(),
        ensures
            (match r {
                Some(c) => self@.kids is Some && c@ == self@.kids.unwrap().nw && c.wf(),
                None => self@.kids is None,
            }),
    {
        match &self.northwest {
            Some(b) => Some(&**b),
            None => None,
        }
    }

    /// The southeast child of a divided node.
    pub fn southeast(&self) -> (r: Option<&QuadTree>)
        requires
            self.wf(),
        ensures
            (match r {
                Some(c) => self@.kids is Some && c@ == self@.kids.unwrap().se && c.wf(),
                None => self@.kids is None,
            }),
    {
        match &self.southeast {
            Some(b) => Some(&**b),
            None => None,
        }
    }

    /// The southwest child of a divided node.
    pub fn southwest(&self) -> (r: Option<&QuadTree>)
        requires
            self.wf(),
        ensures
            (match r {
                Some(c) => self@.kids is Some && c@ == self@.kids.unwrap().sw && c.wf(),
                None => self@.kids is None,
            }),
    {
        match &self.southwest {
            Some(b) => Some(&**b),
            None => None,
        }
    }

    /// The number of points stored in the whole tree.
    pub fn total_points(&self) -> (n: u64)
        requires
            self.wf(),
            self@.count() <= u64::MAX,
        ensures
            n == self@.count(),
        decreases self,
    {
        let mut n: u64 = self.points.len() as u64;
        if self.divided {
            match (&self.northeast, &self.northwest, &self.southeast, &self.southwest) {
                (Some(ne), Some(nw), Some(se), Some(sw)) => {
                    proof {
                        let q = self.model().kids.unwrap();
                        assert(self@.count() == self.points@.len() + (q.ne.count() + q.nw.count()
                            + q.se.count() + q.sw.count()));
                    }
                    n = n + ne.total_points();
                    n = n + nw.total_points();
                    n = n + se.total_points();
                    n = n + sw.total_points();
                },
                _ => {},
            }
        }
        n
    }

    /// Visits the whole structure read-only: every node's boundary,
    /// divided flag and stored points, in the fixed order that `spec_walk`
    /// gives (a node first, then its children northeast, northwest,
    /// southeast, southwest).
    pub fn walk(&self) -> (out: Vec<NodeRecord>)
        requires
            self.wf(),
        ensures
            records_view(out@) == spec_walk(self@),
    {
        let mut out: Vec<NodeRecord> = Vec::new();
        self.walk_into(&mut out);
        proof {
            assert(records_view(Seq::<NodeRecord>::empty()) =~= Seq::<
                (Rectangle, bool, Seq<Point>),
            >::empty());
            assert(records_view(out@) =~= spec_walk(self@));
        }
        out
    }

    /// Appends this node's walk to `out`.
    fn walk_into(&self, out: &mut Vec<NodeRecord>)
        requires
            self.inv(),
        ensures
            records_view(final(out)@) == records_view(old(out)@) + spec_walk(self.model()),
        decreases self,
    {
        let mut pts: Vec<Point> = Vec::new();
        let mut k: usize = 0;
        while k < self.points.len()
            invariant
                k <= self.points@.len(),
                pts@ == self.points@.subrange(0, k as int),
            decreases self.points@.len() - k,
        {
            pts.push(self.points[k]);
            proof {
                assert(pts@ =~= self.points@.subrange(0, k as int + 1));
            }
            k = k + 1;
        }
        proof {
            assert(pts@ =~= self.points@);
        }
        out.push(NodeRecord { boundary: self.boundary, divided: self.divided, points: pts });
        let ghost after_self = out@;
        proof {
            assert(records_view(after_self) =~= records_view(old(out)@) + seq![
                (self.model().boundary, self.model().kids is Some, self.model().points),
            ]);
        }
        if self.divided {
            match (&self.northeast, &self.northwest, &self.southeast, &self.southwest) {
                (Some(ne), Some(nw), Some(se), Some(sw)) => {
                    ne.walk_into(out);
                    nw.walk_into(out);
                    se.walk_into(out);
                    sw.walk_into(out);
                    proof {
                        assert(records_view(out@) =~= records_view(old(out)@) + spec_walk(
                            self.model(),
                        ));
                    }
                },
                _ => {},
            }
        } else {
            proof {
                assert(spec_walk(self.model()) =~= seq![
                    (self.model().boundary, false, self.model().points),
                ]);
                assert(records_view(out@) =~= records_view(old(out)@) + spec_walk(self.model()));
            }
        }
    }
}

impl View for QuadTree {
    type V = TreeModel;

    closed spec fn view(&self) -> TreeModel {
        self.model()
    }
}

/// Half of a positive length, rounding down.
fn half(v: i64) -> (r: i64)
    requires
        v > 0,
    ensures
        r == v / 2,
{
    ((v as u64) / 2) as i64
}

} // verus!

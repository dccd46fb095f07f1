//! The byte-level structural codec for quadtrees.
//!
//! The encoding is a nested record, one per node, each field introduced by
//! an ASCII tag byte: `B` then the boundary (center and half-extents, four
//! fixed-width values), `C` then the capacity, `P` then the stored points
//! (a length, then each point's two coordinates), and `D` then the divided
//! flag; a divided node is followed by its four children in the order
//! northeast, northwest, southeast, southwest. Signed coordinates are
//! offset into `u64` and laid out as eight little-endian bytes.
//!
//! `parse_node` accepts exactly the well-formed encodings: it validates
//! every structural invariant (valid boundary, capacity bound, frozen full
//! list and exact quadrant geometry of a divided node), and
//! `lemma_round_trip` proves that decoding an encoding reproduces the
//! original tree exactly.

use vstd::bytes::lemma_auto_spec_u64_to_from_le_bytes;
use vstd::bytes::spec_u64_from_le_bytes;
use vstd::bytes::spec_u64_to_le_bytes;
use vstd::bytes::u64_from_le_bytes;
use vstd::bytes::u64_to_le_bytes;
use vstd::prelude::*;
use vstd::slice::slice_subrange;

use crate::geom::Point;
use crate::geom::Rectangle;
use crate::geom::ne_rect;
use crate::geom::nw_rect;
use crate::geom::se_rect;
use crate::geom::sw_rect;
use crate::model::Quads;
use crate::model::TreeModel;

verus! {

/// Tag byte opening a node's boundary field (ASCII `B`).
pub const TAG_BOUNDARY: u8 = 66;

/// Tag byte opening a node's capacity field (ASCII `C`).
pub const TAG_CAPACITY: u8 = 67;

/// Tag byte opening a node's point list (ASCII `P`).
pub const TAG_POINTS: u8 = 80;

/// Tag byte opening a node's divided flag (ASCII `D`).
pub const TAG_DIVIDED: u8 = 68;

/// A signed coordinate, offset so that the smallest `i64` maps to zero.
pub open spec fn enc_i64(v: i64) -> u64 {
    (v + 0x8000000000000000) as u64
}

/// The inverse offset.
pub open spec fn dec_i64(u: u64) -> i64 {
    (u - 0x8000000000000000) as i64
}

/// One encoded coordinate: eight little-endian bytes of the offset value.
pub open spec fn ser_i64(v: i64) -> Seq<u8> {
    spec_u64_to_le_bytes(enc_i64(v))
}

/// An encoded point: `x`, then `y`.
pub open spec fn ser_point(p: Point) -> Seq<u8> {
    ser_i64(p.x) + ser_i64(p.y)
}

/// An encoded point list, in storage order.
pub open spec fn ser_points(ps: Seq<Point>) -> Seq<u8>
    decreases ps.len(),
{
    if ps.len() == 0 {
        Seq::empty()
    } else {
        ser_point(ps[0]) + ser_points(ps.drop_first())
    }
}

/// An encoded rectangle: center `x`, `y`, then half-extents `w`, `h`.
pub open spec fn ser_rect(r: Rectangle) -> Seq<u8> {
    ser_i64(r.x) + ser_i64(r.y) + ser_i64(r.w) + ser_i64(r.h)
}

/// The encoding of a whole node, children included.
pub open spec fn spec_serialize(t: TreeModel) -> Seq<u8>
    decreases t, 1int,
{
    seq![TAG_BOUNDARY] + ser_rect(t.boundary) + seq![TAG_CAPACITY] + spec_u64_to_le_bytes(
        t.capacity as u64,
    ) + seq![TAG_POINTS] + spec_u64_to_le_bytes(t.points.len() as u64) + ser_points(t.points)
        + spec_ser_tail(t)
}

/// The divided flag and, for a divided node, the four encoded children.
pub open spec fn spec_ser_tail(t: TreeModel) -> Seq<u8>
    decreases t, 0int,
{
    match t.kids {
        None => seq![TAG_DIVIDED, 0u8],
        Some(q) => seq![TAG_DIVIDED, 1u8] + spec_serialize(q.ne) + spec_serialize(q.nw)
            + spec_serialize(q.se) + spec_serialize(q.sw),
    }
}

/// Point lists encode sixteen bytes per point.
pub proof fn lemma_ser_points_len(ps: Seq<Point>)
    ensures
        ser_points(ps).len() == 16 * ps.len(),
    decreases ps.len(),
{
    lemma_auto_spec_u64_to_from_le_bytes();
    if ps.len() > 0 {
        lemma_ser_points_len(ps.drop_first());
    }
}

/// Appending a point appends its encoding.
pub proof fn lemma_ser_points_snoc(ps: Seq<Point>, p: Point)
    ensures
        ser_points(ps.push(p)) == ser_points(ps) + ser_point(p),
    decreases ps.len(),
{
    if ps.len() == 0 {
        assert(ps.push(p)[0] == p);
        assert(ps.push(p).drop_first() =~= Seq::<Point>::empty());
        assert(ser_points(Seq::<Point>::empty()) == Seq::<u8>::empty());
        assert(ser_points(ps.push(p)) == ser_point(p) + ser_points(ps.push(p).drop_first()));
        assert(ser_points(ps.push(p)) =~= ser_points(ps) + ser_point(p));
    } else {
        assert(ps.push(p)[0] == ps[0]);
        assert(ps.push(p).drop_first() =~= ps.drop_first().push(p));
        lemma_ser_points_snoc(ps.drop_first(), p);
        assert(ser_points(ps.push(p)) == ser_point(ps[0]) + ser_points(ps.drop_first().push(p)));
        assert(ser_points(ps.push(p)) =~= ser_points(ps) + ser_point(p));
    }
}

/// Reads eight little-endian bytes as a `u64`.
pub open spec fn parse_u64(s: Seq<u8>, i: int) -> Option<(u64, int)> {
    if 0 <= i && i + 8 <= s.len() {
        Some((spec_u64_from_le_bytes(s.subrange(i, i + 8)), i + 8))
    } else {
        None
    }
}

/// Reads one encoded coordinate.
pub open spec fn parse_i64(s: Seq<u8>, i: int) -> Option<(i64, int)> {
    match parse_u64(s, i) {
        Some((u, j)) => Some((dec_i64(u), j)),
        None => None,
    }
}

/// Requires and consumes one expected tag byte.
pub open spec fn parse_tag(s: Seq<u8>, i: int, tag: u8) -> Option<int> {
    if 0 <= i && i < s.len() && s[i] == tag {
        Some(i + 1)
    } else {
        None
    }
}

/// Reads one encoded point.
pub open spec fn parse_point(s: Seq<u8>, i: int) -> Option<(Point, int)> {
    match parse_i64(s, i) {
        None => None,
        Some((x, j)) => match parse_i64(s, j) {
            None => None,
            Some((y, k)) => Some((Point { x, y }, k)),
        },
    }
}

/// Reads one encoded rectangle.
pub open spec fn parse_rect(s: Seq<u8>, i: int) -> Option<(Rectangle, int)> {
    match parse_i64(s, i) {
        None => None,
        Some((x, j1)) => match parse_i64(s, j1) {
            None => None,
            Some((y, j2)) => match parse_i64(s, j2) {
                None => None,
                Some((w, j3)) => match parse_i64(s, j3) {
                    None => None,
                    Some((h, j4)) => Some((Rectangle { x, y, w, h }, j4)),
                },
            },
        },
    }
}

/// Reads `n` encoded points.
pub open spec fn parse_points(s: Seq<u8>, i: int, n: nat) -> Option<(Seq<Point>, int)>
    decreases n,
{
    if n == 0 {
        if 0 <= i <= s.len() {
            Some((Seq::empty(), i))
        } else {
            None
        }
    } else {
        match parse_point(s, i) {
            None => None,
            Some((p, j)) => match parse_points(s, j, (n - 1) as nat) {
                None => None,
                Some((ps, k)) => Some((seq![p] + ps, k)),
            },
        }
    }
}

/// A successful point-list parse yields exactly `n` points and advances
/// within the buffer.
pub proof fn lemma_parse_points_props(s: Seq<u8>, i: int, n: nat)
    requires
        parse_points(s, i, n) is Some,
    ensures
        parse_points(s, i, n).unwrap().0.len() == n,
        i <= parse_points(s, i, n).unwrap().1 <= s.len(),
    decreases n,
{
    if n != 0 {
        let (p, j) = parse_point(s, i).unwrap();
        lemma_parse_points_props(s, j, (n - 1) as nat);
    }
}

/// Reads one node, recursively. Every structural invariant of a
/// well-formed tree is checked: an encoding that breaks one is refused.
pub open spec fn parse_node(s: Seq<u8>, i: int) -> Option<(TreeModel, int)>
    decreases s.len() - i, 5int,
{
    match parse_tag(s, i, TAG_BOUNDARY) {
        None => None,
        Some(j0) => match parse_rect(s, j0) {
            None => None,
            Some((rect, j1)) => if !rect.wf() {
                None
            } else {
                match parse_tag(s, j1, TAG_CAPACITY) {
                    None => None,
                    Some(j2) => match parse_u64(s, j2) {
                        None => None,
                        Some((cap, j3)) => if cap > usize::MAX as u64 {
                            None
                        } else {
                            match parse_tag(s, j3, TAG_POINTS) {
                                None => None,
                                Some(j4) => match parse_u64(s, j4) {
                                    None => None,
                                    Some((n, j5)) => if n > cap {
                                        None
                                    } else {
                                        match parse_points(s, j5, n as nat) {
                                            None => None,
                                            Some((ps, j6)) => if ps.len() != n as nat || j6 < j5 || j6
                                                > s.len() {
                                                None
                                            } else {
                                                parse_node_tail(s, i, rect, cap, ps, j6)
                                            },
                                        }
                                    },
                                },
                            }
                        },
                    },
                }
            },
        },
    }
}

/// The divided flag and, for a divided node, the four children.
pub open spec fn parse_node_tail(
    s: Seq<u8>,
    i: int,
    rect: Rectangle,
    cap: u64,
    ps: Seq<Point>,
    j6: int,
) -> Option<(TreeModel, int)>
    decreases s.len() - i, 4int
        when i < j6
{
    match parse_tag(s, j6, TAG_DIVIDED) {
        None => None,
        Some(j7) => if !(j7 < s.len()) {
            None
        } else {
            let d = s[j7];
            let j8 = j7 + 1;
            if d == 0 {
                Some(
                    (
                        TreeModel {
                            boundary: rect,
                            capacity: cap as nat,
                            points: ps,
                            kids: None,
                        },
                        j8,
                    ),
                )
            } else if d == 1 && ps.len() == cap as nat {
                match parse_node(s, j8) {
                    None => None,
                    Some((ne, k1)) => if k1 <= j8 || k1 > s.len() {
                        None
                    } else {
                        match parse_node(s, k1) {
                            None => None,
                            Some((nw, k2)) => if k2 <= k1 || k2 > s.len() {
                                None
                            } else {
                                match parse_node(s, k2) {
                                    None => None,
                                    Some((se, k3)) => if k3 <= k2 || k3 > s.len() {
                                        None
                                    } else {
                                        match parse_node(s, k3) {
                                            None => None,
                                            Some((sw, k4)) => if k4 <= k3 || k4 > s.len() {
                                                None
                                            } else {
                                                if ne.boundary == ne_rect(rect) && nw.boundary
                                                    == nw_rect(rect) && se.boundary == se_rect(rect)
                                                    && sw.boundary == sw_rect(rect) && ne.capacity
                                                    == cap as nat && nw.capacity == cap as nat
                                                    && se.capacity == cap as nat && sw.capacity
                                                    == cap as nat {
                                                    Some(
                                                        (
                                                            TreeModel {
                                                                boundary: rect,
                                                                capacity: cap as nat,
                                                                points: ps,
                                                                kids: Some(
                                                                    Box::new(
                                                                        Quads { ne, nw, se, sw },
                                                                    ),
                                                                ),
                                                            },
                                                            k4,
                                                        ),
                                                    )
                                                } else {
                                                    None
                                                }
                                            },
                                        }
                                    },
                                }
                            },
                        }
                    },
                }
            } else {
                None
            }
        },
    }
}

/// Offsets a coordinate into the unsigned range.
pub(crate) fn enc_coord(v: i64) -> (u: u64)
    ensures
        u == enc_i64(v),
{
    if v >= 0 {
        (v as u64) + 0x8000000000000000u64
    } else {
        ((v + 0x4000000000000000i64) + 0x4000000000000000i64) as u64
    }
}

/// Undoes the offset.
pub(crate) fn dec_coord(u: u64) -> (v: i64)
    ensures
        v == dec_i64(u),
{
    if u >= 0x8000000000000000u64 {
        (u - 0x8000000000000000u64) as i64
    } else {
        ((u as i64) - 0x4000000000000000i64) - 0x4000000000000000i64
    }
}

/// Appends the eight little-endian bytes of `x`.
pub(crate) fn push_u64(out: &mut Vec<u8>, x: u64)
    ensures
        final(out)@ == old(out)@ + spec_u64_to_le_bytes(x),
{
    let mut b = u64_to_le_bytes(x);
    out.append(&mut b);
}

/// Appends one encoded coordinate.
pub(crate) fn push_i64(out: &mut Vec<u8>, v: i64)
    ensures
        final(out)@ == old(out)@ + ser_i64(v),
{
    push_u64(out, enc_coord(v));
}

/// Reads eight little-endian bytes.
pub(crate) fn read_u64(s: &[u8], i: usize) -> (r: Option<(u64, usize)>)
    ensures
        (match r {
            Some((x, j)) => parse_u64(s@, i as int) == Some((x, j as int)),
            None => parse_u64(s@, i as int) is None,
        }),
{
    if s.len() >= 8 && i <= s.len() - 8 {
        let sub = slice_subrange(s, i, i + 8);
        Some((u64_from_le_bytes(sub), i + 8))
    } else {
        None
    }
}

/// Reads one encoded coordinate.
pub(crate) fn read_i64(s: &[u8], i: usize) -> (r: Option<(i64, usize)>)
    ensures
        (match r {
            Some((v, j)) => parse_i64(s@, i as int) == Some((v, j as int)),
            None => parse_i64(s@, i as int) is None,
        }),
{
    match read_u64(s, i) {
        Some((u, j)) => Some((dec_coord(u), j)),
        None => None,
    }
}

/// Consumes one expected tag byte.
pub(crate) fn read_tag(s: &[u8], i: usize, tag: u8) -> (r: Option<usize>)
    ensures
        (match r {
            Some(j) => parse_tag(s@, i as int, tag) == Some(j as int),
            None => parse_tag(s@, i as int, tag) is None,
        }),
{
    if i < s.len() && s[i] == tag {
        Some(i + 1)
    } else {
        None
    }
}

/// Reads one encoded point.
pub(crate) fn read_point(s: &[u8], i: usize) -> (r: Option<(Point, usize)>)
    ensures
        (match r {
            Some((p, j)) => parse_point(s@, i as int) == Some((p, j as int)),
            None => parse_point(s@, i as int) is None,
        }),
{
    let (x, j) = match read_i64(s, i) {
        None => {
            return None;
        },
        Some(v) => v,
    };
    let (y, k) = match read_i64(s, j) {
        None => {
            return None;
        },
        Some(v) => v,
    };
    Some((Point { x, y }, k))
}

/// Reads one encoded rectangle.
pub(crate) fn read_rect(s: &[u8], i: usize) -> (r: Option<(Rectangle, usize)>)
    ensures
        (match r {
            Some((rect, j)) => parse_rect(s@, i as int) == Some((rect, j as int)),
            None => parse_rect(s@, i as int) is None,
        }),
{
    let (x, j1) = match read_i64(s, i) {
        None => {
            return None;
        },
        Some(v) => v,
    };
    let (y, j2) = match read_i64(s, j1) {
        None => {
            return None;
        },
        Some(v) => v,
    };
    let (w, j3) = match read_i64(s, j2) {
        None => {
            return None;
        },
        Some(v) => v,
    };
    let (h, j4) = match read_i64(s, j3) {
        None => {
            return None;
        },
        Some(v) => v,
    };
    Some((Rectangle { x, y, w, h }, j4))
}

/// Reads `n` encoded points.
pub(crate) fn read_points(s: &[u8], i: usize, n: u64) -> (r: Option<(Vec<Point>, usize)>)
    ensures
        (match r {
            Some((ps, j)) => parse_points(s@, i as int, n as nat) == Some((ps@, j as int)),
            None => parse_points(s@, i as int, n as nat) is None,
        }),
{
    if i > s.len() {
        return None;
    }
    let mut ps: Vec<Point> = Vec::new();
    let mut idx: usize = i;
    let mut k: u64 = 0;
    while k < n
        invariant
            k <= n,
            idx <= s@.len(),
            parse_points(s@, i as int, n as nat) == (match parse_points(
                s@,
                idx as int,
                (n - k) as nat,
            ) {
                Some((rest, e)) => Some((ps@ + rest, e)),
                None => None::<(Seq<Point>, int)>,
            }),
        decreases n - k,
    {
        match read_point(s, idx) {
            None => {
                return None;
            },
            Some((p, j)) => {
                proof {
                    let ghost rest_opt = parse_points(s@, j as int, (n - k - 1) as nat);
                    if rest_opt is Some {
                        let (rest, e) = rest_opt.unwrap();
                        assert(ps@ + (seq![p] + rest) =~= ps@.push(p) + rest);
                    }
                }
                ps.push(p);
                idx = j;
                k = k + 1;
            },
        }
    }
    proof {
        assert(ps@ + Seq::<Point>::empty() =~= ps@);
    }
    Some((ps, idx))
}

/// Every node encoding is at least the fixed header long.
pub proof fn lemma_ser_min_len(t: TreeModel)
    ensures
        spec_serialize(t).len() >= 53 + 16 * t.points.len(),
{
    lemma_auto_spec_u64_to_from_le_bytes();
    lemma_ser_points_len(t.points);
}

/// Reading eight bytes that hold a known little-endian value yields it.
proof fn lemma_read_u64_at(s: Seq<u8>, i: int, x: u64)
    requires
        0 <= i,
        i + 8 <= s.len(),
        forall|k: int| 0 <= k < 8 ==> s[i + k] == spec_u64_to_le_bytes(x)[k],
    ensures
        parse_u64(s, i) == Some((x, i + 8)),
{
    lemma_auto_spec_u64_to_from_le_bytes();
    assert(s.subrange(i, i + 8) =~= spec_u64_to_le_bytes(x));
}

/// The offset coding is the identity once composed.
proof fn lemma_enc_dec(v: i64)
    ensures
        dec_i64(enc_i64(v)) == v,
{
}

/// Parsing reads back exactly an encoded point list.
pub proof fn lemma_ser_points_parse(ps: Seq<Point>, s: Seq<u8>, i: int)
    requires
        0 <= i,
        i + 16 * ps.len() <= s.len(),
        s.subrange(i, i + 16 * ps.len()) == ser_points(ps),
    ensures
        parse_points(s, i, ps.len()) == Some((ps, i + 16 * ps.len())),
    decreases ps.len(),
{
    lemma_auto_spec_u64_to_from_le_bytes();
    lemma_ser_points_len(ps);
    if ps.len() == 0 {
        assert(ps =~= Seq::<Point>::empty());
    } else {
        let p = ps[0];
        let n = ps.len() as int;
        let rest = ps.drop_first();
        lemma_ser_points_len(rest);
        assert(ser_points(ps) == ser_point(p) + ser_points(rest));
        assert forall|k: int| 0 <= k < 16 * n implies s[i + k] == ser_points(ps)[k] by {
            assert(s.subrange(i, i + 16 * n)[k] == ser_points(ps)[k]);
        }
        assert forall|k: int| 0 <= k < 8 implies s[i + k] == spec_u64_to_le_bytes(
            enc_i64(p.x),
        )[k] by {
            assert(ser_points(ps)[k] == ser_point(p)[k]);
            assert(ser_point(p)[k] == ser_i64(p.x)[k]);
        }
        lemma_read_u64_at(s, i, enc_i64(p.x));
        lemma_enc_dec(p.x);
        assert forall|k: int| 0 <= k < 8 implies s[i + 8 + k] == spec_u64_to_le_bytes(
            enc_i64(p.y),
        )[k] by {
            assert(s[i + 8 + k] == ser_points(ps)[8 + k]);
            assert(ser_points(ps)[8 + k] == ser_point(p)[8 + k]);
            assert(ser_point(p)[8 + k] == ser_i64(p.y)[k]);
        }
        lemma_read_u64_at(s, i + 8, enc_i64(p.y));
        lemma_enc_dec(p.y);
        assert(parse_point(s, i) == Some((p, i + 16)));
        assert forall|k: int| 0 <= k < 16 * (n - 1) implies s.subrange(i + 16, i + 16 * n)[k]
            == ser_points(rest)[k] by {
            assert(s[i + 16 + k] == ser_points(ps)[16 + k]);
            assert(ser_points(ps)[16 + k] == ser_points(rest)[k]);
        }
        assert(s.subrange(i + 16, i + 16 * n) =~= ser_points(rest));
        lemma_ser_points_parse(rest, s, i + 16);
        assert(seq![p] + rest =~= ps);
        assert(parse_points(s, i, ps.len()) == Some((ps, i + 16 * n)));
    }
}

/// A subrange of a buffer that holds `w` at `i` holds `w`'s subranges.
proof fn lemma_subrange_at(s: Seq<u8>, i: int, w: Seq<u8>, a: int, b: int)
    requires
        0 <= i,
        i + w.len() <= s.len(),
        s.subrange(i, i + w.len()) == w,
        0 <= a <= b <= w.len(),
    ensures
        s.subrange(i + a, i + b) == w.subrange(a, b),
{
    assert forall|k: int| 0 <= k < b - a implies s.subrange(i + a, i + b)[k] == w.subrange(a, b)[k]
        by {
        assert(s.subrange(i, i + w.len())[a + k] == w[a + k]);
    }
    assert(s.subrange(i + a, i + b) =~= w.subrange(a, b));
}

/// Parsing reads back exactly an encoded rectangle.
proof fn lemma_ser_rect_parse(b: Rectangle, s: Seq<u8>, i: int)
    requires
        0 <= i,
        i + 32 <= s.len(),
        s.subrange(i, i + 32) == ser_rect(b),
    ensures
        parse_rect(s, i) == Some((b, i + 32)),
{
    lemma_auto_spec_u64_to_from_le_bytes();
    assert forall|k: int| 0 <= k < 8 implies s[i + k] == spec_u64_to_le_bytes(enc_i64(b.x))[k] by {
        assert(s.subrange(i, i + 32)[k] == ser_rect(b)[k]);
        assert(ser_rect(b)[k] == ser_i64(b.x)[k]);
    }
    lemma_read_u64_at(s, i, enc_i64(b.x));
    lemma_enc_dec(b.x);
    assert forall|k: int| 0 <= k < 8 implies s[i + 8 + k] == spec_u64_to_le_bytes(
        enc_i64(b.y),
    )[k] by {
        assert(s.subrange(i, i + 32)[8 + k] == ser_rect(b)[8 + k]);
        assert(ser_rect(b)[8 + k] == ser_i64(b.y)[k]);
    }
    lemma_read_u64_at(s, i + 8, enc_i64(b.y));
    lemma_enc_dec(b.y);
    assert forall|k: int| 0 <= k < 8 implies s[i + 16 + k] == spec_u64_to_le_bytes(
        enc_i64(b.w),
    )[k] by {
        assert(s.subrange(i, i + 32)[16 + k] == ser_rect(b)[16 + k]);
        assert(ser_rect(b)[16 + k] == ser_i64(b.w)[k]);
    }
    lemma_read_u64_at(s, i + 16, enc_i64(b.w));
    lemma_enc_dec(b.w);
    assert forall|k: int| 0 <= k < 8 implies s[i + 24 + k] == spec_u64_to_le_bytes(
        enc_i64(b.h),
    )[k] by {
        assert(s.subrange(i, i + 32)[24 + k] == ser_rect(b)[24 + k]);
        assert(ser_rect(b)[24 + k] == ser_i64(b.h)[k]);
    }
    lemma_read_u64_at(s, i + 24, enc_i64(b.h));
    lemma_enc_dec(b.h);
}

/// The fixed fields of an encoded node parse back, reducing a node parse
/// to its divided-flag tail.
#[verifier::rlimit(100)]
#[verifier::spinoff_prover]
proof fn lemma_ser_parse_header(t: TreeModel, s: Seq<u8>, i: int)
    requires
        t.wf(),
        0 <= i,
        i + spec_serialize(t).len() <= s.len(),
        s.subrange(i, i + spec_serialize(t).len()) == spec_serialize(t),
    ensures
        parse_node(s, i) == parse_node_tail(
            s,
            i,
            t.boundary,
            t.capacity as u64,
            t.points,
            i + 51 + 16 * t.points.len(),
        ),
        s.subrange(i + 51 + 16 * t.points.len(), i + spec_serialize(t).len()) == spec_ser_tail(t),
{
    lemma_auto_spec_u64_to_from_le_bytes();
    lemma_ser_points_len(t.points);
    let ser = spec_serialize(t);
    let b = t.boundary;
    let np = t.points.len() as int;
    let capu = t.capacity as u64;
    let npu = t.points.len() as u64;
    let front = seq![TAG_BOUNDARY] + ser_rect(b) + seq![TAG_CAPACITY] + spec_u64_to_le_bytes(capu)
        + seq![TAG_POINTS] + spec_u64_to_le_bytes(npu);
    let tail = spec_ser_tail(t);
    assert(ser == front + ser_points(t.points) + tail);
    assert(ser_rect(b).len() == 32);
    assert(front.len() == 51);
    assert(tail.len() >= 2);
    assert(ser.len() == 51 + 16 * np + tail.len());
    // boundary tag and rectangle
    assert(s.subrange(i, i + ser.len())[0] == ser[0]);
    assert(ser[0] == TAG_BOUNDARY);
    assert(parse_tag(s, i, TAG_BOUNDARY) == Some(i + 1));
    assert forall|k: int| 0 <= k < 32 implies ser.subrange(1, 33)[k] == ser_rect(b)[k] by {
        assert(ser[1 + k] == front[1 + k]);
        assert(front[1 + k] == ser_rect(b)[k]);
    }
    assert(ser.subrange(1, 33) =~= ser_rect(b));
    lemma_subrange_at(s, i, ser, 1, 33);
    lemma_ser_rect_parse(b, s, i + 1);
    // capacity
    assert(s.subrange(i, i + ser.len())[33] == ser[33]);
    assert(ser[33] == front[33] && front[33] == TAG_CAPACITY);
    assert(parse_tag(s, i + 33, TAG_CAPACITY) == Some(i + 34));
    assert forall|k: int| 0 <= k < 8 implies s[i + 34 + k] == spec_u64_to_le_bytes(capu)[k] by {
        assert(s.subrange(i, i + ser.len())[34 + k] == ser[34 + k]);
        assert(ser[34 + k] == front[34 + k]);
        assert(front[34 + k] == spec_u64_to_le_bytes(capu)[k]);
    }
    lemma_read_u64_at(s, i + 34, capu);
    assert(capu <= usize::MAX as u64);
    // point count
    assert(s.subrange(i, i + ser.len())[42] == ser[42]);
    assert(ser[42] == front[42] && front[42] == TAG_POINTS);
    assert(parse_tag(s, i + 42, TAG_POINTS) == Some(i + 43));
    assert forall|k: int| 0 <= k < 8 implies s[i + 43 + k] == spec_u64_to_le_bytes(npu)[k] by {
        assert(s.subrange(i, i + ser.len())[43 + k] == ser[43 + k]);
        assert(ser[43 + k] == front[43 + k]);
        assert(front[43 + k] == spec_u64_to_le_bytes(npu)[k]);
    }
    lemma_read_u64_at(s, i + 43, npu);
    assert(npu <= capu);
    // points
    assert forall|k: int| 0 <= k < 16 * np implies ser.subrange(51, 51 + 16 * np)[k] == ser_points(
        t.points,
    )[k] by {
        assert(ser[51 + k] == ser_points(t.points)[k]);
    }
    assert(ser.subrange(51, 51 + 16 * np) =~= ser_points(t.points));
    lemma_subrange_at(s, i, ser, 51, 51 + 16 * np);
    lemma_ser_points_parse(t.points, s, i + 51);
    assert((npu) as nat == t.points.len());
    // the tail segment
    assert forall|k: int| 0 <= k < tail.len() implies ser.subrange(51 + 16 * np, ser.len() as int)[k]
        == tail[k] by {
        assert(ser[51 + 16 * np + k] == tail[k]);
    }
    assert(ser.subrange(51 + 16 * np, ser.len() as int) =~= tail);
    lemma_subrange_at(s, i, ser, 51 + 16 * np, ser.len() as int);
    assert(parse_node(s, i) == parse_node_tail(s, i, b, capu, t.points, i + 51 + 16 * np));
}

/// Parsing reads back exactly an encoded node: the round trip is lossless.
#[verifier::rlimit(100)]
#[verifier::spinoff_prover]
pub proof fn lemma_ser_parse(t: TreeModel, s: Seq<u8>, i: int)
    requires
        t.wf(),
        0 <= i,
        i + spec_serialize(t).len() <= s.len(),
        s.subrange(i, i + spec_serialize(t).len()) == spec_serialize(t),
    ensures
        parse_node(s, i) == Some((t, i + spec_serialize(t).len())),
    decreases t,
{
    lemma_auto_spec_u64_to_from_le_bytes();
    lemma_ser_points_len(t.points);
    lemma_ser_parse_header(t, s, i);
    let ser = spec_serialize(t);
    let b = t.boundary;
    let np = t.points.len() as int;
    let capu = t.capacity as u64;
    let j6 = i + 51 + 16 * np;
    let end = i + ser.len();
    let tail = spec_ser_tail(t);
    let st = s.subrange(j6, end);
    assert(st == tail);
    assert(ser.len() == 51 + 16 * np + tail.len());
    assert(s[j6] == st[0]);
    assert(s[j6 + 1] == st[1]);
    match t.kids {
        None => {
            assert(tail == seq![TAG_DIVIDED, 0u8]);
            assert(tail[0] == TAG_DIVIDED && tail[1] == 0u8);
            assert(parse_tag(s, j6, TAG_DIVIDED) == Some(j6 + 1));
            assert(parse_node_tail(s, i, b, capu, t.points, j6) == Some(
                (
                    TreeModel {
                        boundary: b,
                        capacity: capu as nat,
                        points: t.points,
                        kids: None,
                    },
                    j6 + 2,
                ),
            ));
            assert(TreeModel {
                boundary: b,
                capacity: capu as nat,
                points: t.points,
                kids: None,
            } =~= t);
            assert(parse_node(s, i) == Some((t, end)));
        },
        Some(q) => {
            assert(t.points.len() == t.capacity);
            let s_ne = spec_serialize(q.ne);
            let s_nw = spec_serialize(q.nw);
            let s_se = spec_serialize(q.se);
            let s_sw = spec_serialize(q.sw);
            assert(tail == seq![TAG_DIVIDED, 1u8] + s_ne + s_nw + s_se + s_sw);
            assert(tail[0] == TAG_DIVIDED && tail[1] == 1u8);
            assert(parse_tag(s, j6, TAG_DIVIDED) == Some(j6 + 1));
            lemma_ser_min_len(q.ne);
            lemma_ser_min_len(q.nw);
            lemma_ser_min_len(q.se);
            lemma_ser_min_len(q.sw);
            assert(tail.len() == 2 + s_ne.len() + s_nw.len() + s_se.len() + s_sw.len());
            let c1 = j6 + 2;
            let c2 = c1 + s_ne.len();
            let c3 = c2 + s_nw.len();
            let c4 = c3 + s_se.len();
            let c5 = c4 + s_sw.len();
            assert(c5 == end);
            assert forall|k: int| 0 <= k < s_ne.len() implies s.subrange(c1, c2)[k] == s_ne[k] by {
                assert(s.subrange(c1, c2)[k] == s[c1 + k]);
                assert(st[2 + k] == s[c1 + k]);
                assert(tail[2 + k] == s_ne[k]);
            }
            assert(s.subrange(c1, c2) =~= s_ne);
            lemma_ser_parse(q.ne, s, c1);
            assert forall|k: int| 0 <= k < s_nw.len() implies s.subrange(c2, c3)[k] == s_nw[k] by {
                assert(s.subrange(c2, c3)[k] == s[c2 + k]);
                assert(st[2 + s_ne.len() + k] == s[c2 + k]);
                assert(tail[2 + s_ne.len() + k] == s_nw[k]);
            }
            assert(s.subrange(c2, c3) =~= s_nw);
            lemma_ser_parse(q.nw, s, c2);
            assert forall|k: int| 0 <= k < s_se.len() implies s.subrange(c3, c4)[k] == s_se[k] by {
                assert(s.subrange(c3, c4)[k] == s[c3 + k]);
                assert(st[2 + s_ne.len() + s_nw.len() + k] == s[c3 + k]);
                assert(tail[2 + s_ne.len() + s_nw.len() + k] == s_se[k]);
            }
            assert(s.subrange(c3, c4) =~= s_se);
            lemma_ser_parse(q.se, s, c3);
            assert forall|k: int| 0 <= k < s_sw.len() implies s.subrange(c4, c5)[k] == s_sw[k] by {
                assert(s.subrange(c4, c5)[k] == s[c4 + k]);
                assert(st[2 + s_ne.len() + s_nw.len() + s_se.len() + k] == s[c4 + k]);
                assert(tail[2 + s_ne.len() + s_nw.len() + s_se.len() + k] == s_sw[k]);
            }
            assert(s.subrange(c4, c5) =~= s_sw);
            lemma_ser_parse(q.sw, s, c4);
            assert(Quads { ne: q.ne, nw: q.nw, se: q.se, sw: q.sw } =~= *q);
            assert(parse_node_tail(s, i, b, capu, t.points, j6) == Some(
                (
                    TreeModel {
                        boundary: b,
                        capacity: capu as nat,
                        points: t.points,
                        kids: Some(Box::new(Quads { ne: q.ne, nw: q.nw, se: q.se, sw: q.sw })),
                    },
                    c5,
                ),
            ));
            assert(TreeModel {
                boundary: b,
                capacity: capu as nat,
                points: t.points,
                kids: Some(Box::new(Quads { ne: q.ne, nw: q.nw, se: q.se, sw: q.sw })),
            } =~~= t);
            assert(parse_node(s, i) == Some((t, end)));
        },
    }
}

/// Decoding an encoding reproduces the original tree, exactly and whole:
/// the round trip is the identity on well-formed trees.
pub proof fn lemma_round_trip(t: TreeModel)
    requires
        t.wf(),
    ensures
        parse_node(spec_serialize(t), 0) == Some((t, spec_serialize(t).len() as int)),
{
    let s = spec_serialize(t);
    assert(s.subrange(0, s.len() as int) =~= s);
    lemma_ser_parse(t, s, 0);
}


} // verus!

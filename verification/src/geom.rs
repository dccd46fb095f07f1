//! Points and axis-aligned rectangles with strict-interior containment.
//!
//! A `Rectangle` is stored as a center `(x, y)` and half-extents `(w, h)`:
//! `w` and `h` are half of the full width and height. A point lies in the
//! rectangle only strictly between the edges; points exactly on an edge are
//! outside. Quadrant rectangles (northwest, northeast, southwest, southeast)
//! halve the half-extents and offset the center, with north meaning smaller
//! `y` (a downward-increasing y-axis).

use vstd::prelude::*;

verus! {

/// Errors reported by constructors and by the structural codec.
#[derive(Debug, Clone, Copy, PartialEq, Eq, Structural)]
pub enum QuadError {
    /// A rectangle or tree was requested with non-positive half-extents or
    /// with an extent that does not fit the coordinate type.
    InvalidConstruction,
    /// A byte buffer handed to `deserialize` is not a well-formed encoding.
    MalformedData,
}

/// An immutable 2D point with integer coordinates.
#[derive(Debug, Clone, Copy, PartialEq, Eq, Structural)]
pub struct Point {
    pub x: i64,
    pub y: i64,
}

impl Point {
    pub fn new(x: i64, y: i64) -> (p: Point)
        ensures
            p == (Point { x, y }),
    {
        Point { x, y }
    }
}

/// An axis-aligned region: center `(x, y)`, half-extents `(w, h)`.
#[derive(Debug, Clone, Copy, PartialEq, Eq, Structural)]
pub struct Rectangle {
    pub x: i64,
    pub y: i64,
    pub w: i64,
    pub h: i64,
}

impl Rectangle {
    /// A valid region has positive half-extents and a closed extent
    /// `[x-w, x+w] x [y-h, y+h]` whose corners are representable in `i64`.
    pub open spec fn wf(self) -> bool {
        &&& self.w > 0
        &&& self.h > 0
        &&& i64::MIN <= self.x - self.w
        &&& self.x + self.w <= i64::MAX
        &&& i64::MIN <= self.y - self.h
        &&& self.y + self.h <= i64::MAX
    }

    /// Strict-interior containment: edge points are excluded.
    pub open spec fn spec_contains(self, p: Point) -> bool {
        &&& self.x - self.w < p.x < self.x + self.w
        &&& self.y - self.h < p.y < self.y + self.h
    }

    /// Closed containment, used to state how the four quadrants cover
    /// their parent.
    pub open spec fn spec_contains_closed(self, p: Point) -> bool {
        &&& self.x - self.w <= p.x <= self.x + self.w
        &&& self.y - self.h <= p.y <= self.y + self.h
    }

    /// Builds a rectangle, rejecting degenerate regions: non-positive
    /// half-extents, or an extent that leaves the coordinate range.
    pub fn new(x: i64, y: i64, w: i64, h: i64) -> (r: Result<Rectangle, QuadError>)
        ensures
            (match r {
                Ok(rect) => rect == (Rectangle { x, y, w, h }) && rect.wf(),
                Err(e) => e == QuadError::InvalidConstruction && !(Rectangle { x, y, w, h }).wf(),
            }),
    {
        if w <= 0 || h <= 0 {
            return Err(QuadError::InvalidConstruction);
        }
        let xlo: i128 = x as i128 - w as i128;
        let xhi: i128 = x as i128 + w as i128;
        let ylo: i128 = y as i128 - h as i128;
        let yhi: i128 = y as i128 + h as i128;
        if xlo < i64::MIN as i128 || xhi > i64::MAX as i128 || ylo < i64::MIN as i128
            || yhi > i64::MAX as i128 {
            return Err(QuadError::InvalidConstruction);
        }
        Ok(Rectangle { x, y, w, h })
    }

    /// Reports whether this rectangle is a valid region.
    pub fn valid(&self) -> (r: bool)
        ensures
            r == self.wf(),
    {
        if self.w <= 0 || self.h <= 0 {
            return false;
        }
        (self.x as i128 - self.w as i128) >= i64::MIN as i128
            && (self.x as i128 + self.w as i128) <= i64::MAX as i128
            && (self.y as i128 - self.h as i128) >= i64::MIN as i128
            && (self.y as i128 + self.h as i128) <= i64::MAX as i128
    }

    /// True exactly when `point` lies strictly inside this rectangle:
    /// `x-w < point.x < x+w` and `y-h < point.y < y+h`.
    pub fn contains(&self, point: Point) -> (r: bool)
        ensures
            r == self.spec_contains(point),
    {
        (point.x as i128) > (self.x as i128 - self.w as i128)
            && (point.x as i128) < (self.x as i128 + self.w as i128)
            && (point.y as i128) > (self.y as i128 - self.h as i128)
            && (point.y as i128) < (self.y as i128 + self.h as i128)
    }
}

/// The region is large enough to quarter: each half-extent must stay
/// positive after halving.
pub open spec fn can_subdivide(r: Rectangle) -> bool {
    r.w >= 2 && r.h >= 2
}

/// Northeast quadrant: right half, upper (smaller-`y`) half.
pub open spec fn ne_rect(r: Rectangle) -> Rectangle {
    Rectangle {
        x: (r.x + r.w / 2) as i64,
        y: (r.y - r.h / 2) as i64,
        w: (r.w / 2) as i64,
        h: (r.h / 2) as i64,
    }
}

/// Northwest quadrant: left half, upper half.
pub open spec fn nw_rect(r: Rectangle) -> Rectangle {
    Rectangle {
        x: (r.x - r.w / 2) as i64,
        y: (r.y - r.h / 2) as i64,
        w: (r.w / 2) as i64,
        h: (r.h / 2) as i64,
    }
}

/// Southeast quadrant: right half, lower half.
pub open spec fn se_rect(r: Rectangle) -> Rectangle {
    Rectangle {
        x: (r.x + r.w / 2) as i64,
        y: (r.y + r.h / 2) as i64,
        w: (r.w / 2) as i64,
        h: (r.h / 2) as i64,
    }
}

/// Southwest quadrant: left half, lower half.
pub open spec fn sw_rect(r: Rectangle) -> Rectangle {
    Rectangle {
        x: (r.x - r.w / 2) as i64,
        y: (r.y + r.h / 2) as i64,
        w: (r.w / 2) as i64,
        h: (r.h / 2) as i64,
    }
}

/// The four quadrants of a subdividable rectangle are themselves valid
/// regions, and no coordinate of theirs is truncated: each child has
/// half-extents `w/2, h/2` and a center offset by exactly `w/2` and `h/2`
/// from the parent's.
pub proof fn lemma_quadrants_wf(r: Rectangle)
    requires
        r.wf(),
        can_subdivide(r),
    ensures
        ne_rect(r).wf(),
        nw_rect(r).wf(),
        se_rect(r).wf(),
        sw_rect(r).wf(),
        ne_rect(r) == (Rectangle {
            x: (r.x + r.w / 2) as i64,
            y: (r.y - r.h / 2) as i64,
            w: (r.w / 2) as i64,
            h: (r.h / 2) as i64,
        }),
        ne_rect(r).x == r.x + r.w / 2,
        ne_rect(r).y == r.y - r.h / 2,
        nw_rect(r).x == r.x - r.w / 2,
        nw_rect(r).y == r.y - r.h / 2,
        se_rect(r).x == r.x + r.w / 2,
        se_rect(r).y == r.y + r.h / 2,
        sw_rect(r).x == r.x - r.w / 2,
        sw_rect(r).y == r.y + r.h / 2,
        ne_rect(r).w == r.w / 2,
        ne_rect(r).h == r.h / 2,
{
    assert(0 < r.w / 2 <= r.w - r.w / 2);
    assert(0 < r.h / 2 <= r.h - r.h / 2);
}

/// Quadrants are disjoint: a point lies strictly inside at most one of the
/// four quadrant rectangles. Together with `lemma_quadrants_cover` this says
/// the quadrants partition the parent up to its dividing lines and edges.
pub proof fn lemma_quadrants_disjoint(r: Rectangle, p: Point)
    requires
        r.wf(),
    ensures
        !(ne_rect(r).spec_contains(p) && nw_rect(r).spec_contains(p)),
        !(ne_rect(r).spec_contains(p) && se_rect(r).spec_contains(p)),
        !(ne_rect(r).spec_contains(p) && sw_rect(r).spec_contains(p)),
        !(nw_rect(r).spec_contains(p) && se_rect(r).spec_contains(p)),
        !(nw_rect(r).spec_contains(p) && sw_rect(r).spec_contains(p)),
        !(se_rect(r).spec_contains(p) && sw_rect(r).spec_contains(p)),
{
}

/// For a parent whose half-extents halve exactly (both even), the union of
/// the four quadrants' closed regions is exactly the parent's closed
/// region: a point is weakly inside the parent if and only if it is weakly
/// inside some quadrant.
pub proof fn lemma_quadrants_cover(r: Rectangle, p: Point)
    requires
        r.wf(),
        can_subdivide(r),
        r.w % 2 == 0,
        r.h % 2 == 0,
    ensures
        r.spec_contains_closed(p) <==> (ne_rect(r).spec_contains_closed(p)
            || nw_rect(r).spec_contains_closed(p) || se_rect(r).spec_contains_closed(p)
            || sw_rect(r).spec_contains_closed(p)),
{
    lemma_quadrants_wf(r);
    assert(2 * (r.w / 2) == r.w);
    assert(2 * (r.h / 2) == r.h);
    if r.spec_contains_closed(p) {
        if p.x <= r.x {
            if p.y <= r.y {
                assert(nw_rect(r).spec_contains_closed(p));
            } else {
                assert(sw_rect(r).spec_contains_closed(p));
            }
        } else {
            if p.y <= r.y {
                assert(ne_rect(r).spec_contains_closed(p));
            } else {
                assert(se_rect(r).spec_contains_closed(p));
            }
        }
    }
}

/// A point strictly inside the parent and off both of its center lines
/// (the shared subdivision lines) lies strictly inside exactly one
/// quadrant, when the half-extents halve exactly. With
/// `lemma_quadrants_disjoint` this is why such a point is stored exactly
/// once after a subdivision.
pub proof fn lemma_off_lines_in_one_quadrant(r: Rectangle, p: Point)
    requires
        r.wf(),
        can_subdivide(r),
        r.w % 2 == 0,
        r.h % 2 == 0,
        r.spec_contains(p),
        p.x != r.x,
        p.y != r.y,
    ensures
        ne_rect(r).spec_contains(p) || nw_rect(r).spec_contains(p) || se_rect(r).spec_contains(p)
            || sw_rect(r).spec_contains(p),
{
    lemma_quadrants_wf(r);
    assert(2 * (r.w / 2) == r.w);
    assert(2 * (r.h / 2) == r.h);
    if p.x < r.x {
        if p.y < r.y {
            assert(nw_rect(r).spec_contains(p));
        } else {
            assert(sw_rect(r).spec_contains(p));
        }
    } else {
        if p.y < r.y {
            assert(ne_rect(r).spec_contains(p));
        } else {
            assert(se_rect(r).spec_contains(p));
        }
    }
}

} // verus!

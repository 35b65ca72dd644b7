//! Integer 2D vectors and axis-aligned segments.
//!
//! These primitives are the only vocabulary the navigator uses to reason
//! about the wall: containment of a lattice point in a segment and
//! intersection of two segments.  Both are specified exactly, through the
//! box model below: an axis-aligned segment contains precisely the lattice
//! points of its coordinate-wise bounding box.

use vstd::prelude::*;

verus! {

use vstd::math::{min, max, abs};

/// An integer 2D displacement or position.
#[derive(Clone, Copy, PartialEq, Eq, Structural, Hash, Debug)]
pub struct Vec2(pub i64, pub i64);

/// The sign of an integer: -1, 0 or 1.
pub open spec fn sgn(i: int) -> int {
    if i > 0 {
        1
    } else if i < 0 {
        -1
    } else {
        0
    }
}

/// A vector pointing strictly along the x axis.
pub open spec fn horiz(v: Vec2) -> bool {
    v.0 != 0 && v.1 == 0
}

/// A vector pointing strictly along the y axis.
pub open spec fn vert(v: Vec2) -> bool {
    v.0 == 0 && v.1 != 0
}

/// A vector usable as a path step: nonzero and axis-aligned.
pub open spec fn step_ok(v: Vec2) -> bool {
    horiz(v) || vert(v)
}

/// Both vectors horizontal, or both vertical.
pub open spec fn same_axis(a: Vec2, b: Vec2) -> bool {
    horiz(a) && horiz(b) || vert(a) && vert(b)
}

/// Manhattan magnitude, as a mathematical integer.
pub open spec fn vmag(v: Vec2) -> int {
    (abs(v.0 as int) + abs(v.1 as int)) as int
}

/// Manhattan distance between two points, as a mathematical integer.
pub open spec fn vdist(a: Vec2, b: Vec2) -> int {
    (abs(a.0 - b.0) + abs(a.1 - b.1)) as int
}

impl Vec2 {
    /// Component-wise sum.
    pub fn add(self, other: Vec2) -> (r: Vec2)
        requires
            i64::MIN <= self.0 + other.0 <= i64::MAX,
            i64::MIN <= self.1 + other.1 <= i64::MAX,
        ensures
            r.0 == self.0 + other.0,
            r.1 == self.1 + other.1,
    {
        Vec2(self.0 + other.0, self.1 + other.1)
    }

    /// Component-wise difference.
    pub fn sub(self, other: Vec2) -> (r: Vec2)
        requires
            i64::MIN <= self.0 - other.0 <= i64::MAX,
            i64::MIN <= self.1 - other.1 <= i64::MAX,
        ensures
            r.0 == self.0 - other.0,
            r.1 == self.1 - other.1,
    {
        Vec2(self.0 - other.0, self.1 - other.1)
    }

    /// Scaling by an integer factor.
    pub fn mul(self, k: i64) -> (r: Vec2)
        requires
            i64::MIN <= self.0 * k <= i64::MAX,
            i64::MIN <= self.1 * k <= i64::MAX,
        ensures
            r.0 == self.0 * k,
            r.1 == self.1 * k,
    {
        Vec2(self.0 * k, self.1 * k)
    }

    /// Rotates 90 degrees clockwise (in a y-grows-downward frame).
    pub fn rotate_right(&mut self)
        requires
            old(self).1 > i64::MIN,
        ensures
            final(self).0 == -old(self).1,
            final(self).1 == old(self).0,
    {
        let x = self.0;
        self.0 = -self.1;
        self.1 = x;
    }

    /// The vector rotated 90 degrees clockwise.
    pub fn rotated_right(&self) -> (r: Vec2)
        requires
            self.1 > i64::MIN,
        ensures
            r.0 == -self.1,
            r.1 == self.0,
    {
        let mut v = *self;
        v.rotate_right();
        v
    }

    /// Rotates 90 degrees counter-clockwise.
    pub fn rotate_left(&mut self)
        requires
            old(self).0 > i64::MIN,
        ensures
            final(self).0 == old(self).1,
            final(self).1 == -old(self).0,
    {
        let y = self.1;
        self.1 = -self.0;
        self.0 = y;
    }

    /// The vector rotated 90 degrees counter-clockwise.
    pub fn rotated_left(&self) -> (r: Vec2)
        requires
            self.0 > i64::MIN,
        ensures
            r.0 == self.1,
            r.1 == -self.0,
    {
        let mut v = *self;
        v.rotate_left();
        v
    }

    /// Manhattan distance to another point.
    pub fn dist(&self, other: &Vec2) -> (r: u64)
        requires
            vdist(*self, *other) <= u64::MAX,
        ensures
            r == vdist(*self, *other),
    {
        let dx = if self.0 >= other.0 {
            (self.0 as i128) - (other.0 as i128)
        } else {
            (other.0 as i128) - (self.0 as i128)
        };
        let dy = if self.1 >= other.1 {
            (self.1 as i128) - (other.1 as i128)
        } else {
            (other.1 as i128) - (self.1 as i128)
        };
        (dx + dy) as u64
    }

    /// True when the vector points strictly along the x axis.
    pub fn is_horizontal(&self) -> (r: bool)
        ensures
            r == horiz(*self),
    {
        self.0 != 0 && self.1 == 0
    }

    /// True when the vector points strictly along the y axis.
    pub fn is_vertical(&self) -> (r: bool)
        ensures
            r == vert(*self),
    {
        self.0 == 0 && self.1 != 0
    }

    /// True when both vectors are horizontal or both are vertical.
    pub fn same_dir(&self, other: Vec2) -> (r: bool)
        ensures
            r == same_axis(*self, other),
    {
        (self.is_horizontal() && other.is_horizontal())
            || (self.is_vertical() && other.is_vertical())
    }

    /// Manhattan magnitude.
    pub fn mag(&self) -> (r: i64)
        requires
            vmag(*self) <= i64::MAX,
        ensures
            r == vmag(*self),
    {
        let ax = if self.0 >= 0 {
            self.0
        } else {
            -self.0
        };
        let ay = if self.1 >= 0 {
            self.1
        } else {
            -self.1
        };
        ax + ay
    }

    /// The unit step along the vector's own axis.
    pub fn normalized(&self) -> (r: Vec2)
        requires
            step_ok(*self),
        ensures
            r.0 == sgn(self.0 as int),
            r.1 == sgn(self.1 as int),
            step_ok(r),
            vmag(r) == 1,
    {
        if self.0 > 0 {
            Vec2(1, 0)
        } else if self.0 < 0 {
            Vec2(-1, 0)
        } else if self.1 > 0 {
            Vec2(0, 1)
        } else {
            Vec2(0, -1)
        }
    }

    /// True when both components are zero.
    pub fn is_zero(&self) -> (r: bool)
        ensures
            r == (self.0 == 0 && self.1 == 0),
    {
        self.0 == 0 && self.1 == 0
    }
}

/// Convenience constructor for [`Vec2`].
pub fn vec2(x: i64, y: i64) -> (r: Vec2)
    ensures
        r == Vec2(x, y),
{
    Vec2(x, y)
}

/// An axis-aligned closed segment between two lattice points.
#[derive(Clone, Copy, PartialEq, Eq, Structural, Hash, Debug)]
pub struct Segment {
    pub start: Vec2,
    pub end: Vec2,
}

/// A segment is well formed when it is horizontal or vertical
/// (a single point satisfies both).
pub open spec fn seg_wf(s: Segment) -> bool {
    s.start.0 == s.end.0 || s.start.1 == s.end.1
}

/// The low corner of a segment's bounding box.
pub open spec fn seg_lo(s: Segment) -> (int, int) {
    (min(s.start.0 as int, s.end.0 as int), min(s.start.1 as int, s.end.1 as int))
}

/// The high corner of a segment's bounding box.
pub open spec fn seg_hi(s: Segment) -> (int, int) {
    (max(s.start.0 as int, s.end.0 as int), max(s.start.1 as int, s.end.1 as int))
}

/// The lattice points of a well-formed segment are exactly the lattice
/// points of its bounding box.
pub open spec fn seg_has(s: Segment, px: int, py: int) -> bool {
    seg_lo(s).0 <= px <= seg_hi(s).0 && seg_lo(s).1 <= py <= seg_hi(s).1
}

/// Two well-formed segments share at least one lattice point exactly when
/// their bounding boxes overlap on both axes.
pub open spec fn segs_meet(a: Segment, b: Segment) -> bool {
    max(seg_lo(a).0, seg_lo(b).0) <= min(seg_hi(a).0, seg_hi(b).0)
        && max(seg_lo(a).1, seg_lo(b).1) <= min(seg_hi(a).1, seg_hi(b).1)
}

/// The low corner of the (nonempty) overlap of two segments' boxes.
pub open spec fn meet_lo(a: Segment, b: Segment) -> (int, int) {
    (max(seg_lo(a).0, seg_lo(b).0), max(seg_lo(a).1, seg_lo(b).1))
}

/// `segs_meet` coincides with the existence of a shared lattice point.
pub proof fn lemma_segs_meet_iff(a: Segment, b: Segment)
    ensures
        segs_meet(a, b) <==> exists|px: int, py: int| seg_has(a, px, py) && seg_has(b, px, py),
{
    if segs_meet(a, b) {
        let px = meet_lo(a, b).0;
        let py = meet_lo(a, b).1;
        assert(seg_has(a, px, py) && seg_has(b, px, py));
    }
}

/// Constructs a segment; only axis-aligned endpoints are meaningful.
pub fn segment(start: Vec2, end: Vec2) -> (r: Segment)
    requires
        start.0 == end.0 || start.1 == end.1,
    ensures
        r == (Segment { start, end }),
        seg_wf(r),
{
    Segment { start, end }
}

/// Constructs the segment from `start` to `start + delta`.
pub fn segment_delta(start: Vec2, delta: Vec2) -> (r: Segment)
    requires
        delta.0 == 0 || delta.1 == 0,
        i64::MIN <= start.0 + delta.0 <= i64::MAX,
        i64::MIN <= start.1 + delta.1 <= i64::MAX,
    ensures
        r.start == start,
        r.end.0 == start.0 + delta.0,
        r.end.1 == start.1 + delta.1,
        seg_wf(r),
{
    segment(start, start.add(delta))
}

/// Smaller of two machine integers.
pub(crate) fn imin(a: i64, b: i64) -> (r: i64)
    ensures
        r == min(a as int, b as int),
{
    if a <= b {
        a
    } else {
        b
    }
}

/// Larger of two machine integers.
pub(crate) fn imax(a: i64, b: i64) -> (r: i64)
    ensures
        r == max(a as int, b as int),
{
    if a >= b {
        a
    } else {
        b
    }
}

impl Segment {
    /// True when both endpoints share a y coordinate.
    pub fn is_horizontal(&self) -> (r: bool)
        ensures
            r == (self.start.1 == self.end.1),
    {
        self.start.1 == self.end.1
    }

    /// True when both endpoints share an x coordinate.
    pub fn is_vertical(&self) -> (r: bool)
        ensures
            r == (self.start.0 == self.end.0),
    {
        self.start.0 == self.end.0
    }

    /// True when the segment contains the given lattice point.
    pub fn contains(&self, point: Vec2) -> (r: bool)
        requires
            seg_wf(*self),
        ensures
            r == seg_has(*self, point.0 as int, point.1 as int),
    {
        if self.is_horizontal() {
            let y = self.start.1;
            if point.1 != y {
                return false;
            }
            let x0 = imin(self.start.0, self.end.0);
            let x1 = imax(self.start.0, self.end.0);
            point.0 >= x0 && point.0 <= x1
        } else {
            let x = self.start.0;
            if point.0 != x {
                return false;
            }
            let y0 = imin(self.start.1, self.end.1);
            let y1 = imax(self.start.1, self.end.1);
            point.1 >= y0 && point.1 <= y1
        }
    }

    /// The shared lattice point of two segments with the smallest
    /// coordinates, if the segments meet at all: a crossing point for
    /// perpendicular segments, the start of the overlap for collinear ones.
    pub fn intersection(&self, other: &Segment) -> (r: Option<Vec2>)
        requires
            seg_wf(*self),
            seg_wf(*other),
        ensures
            r.is_some() == segs_meet(*self, *other),
            r matches Some(p) ==> p.0 == meet_lo(*self, *other).0 && p.1 == meet_lo(
                *self,
                *other,
            ).1,
    {
        if self.is_horizontal() {
            if other.is_vertical() {
                let y = self.start.1;
                let x = other.start.0;
                let x0 = imin(self.start.0, self.end.0);
                let x1 = imax(self.start.0, self.end.0);
                let y0 = imin(other.start.1, other.end.1);
                let y1 = imax(other.start.1, other.end.1);
                if x >= x0 && x <= x1 && y >= y0 && y <= y1 {
                    Some(Vec2(x, y))
                } else {
                    None
                }
            } else {
                let y = self.start.1;
                if y != other.start.1 {
                    return None;
                }
                let x0 = imin(self.start.0, self.end.0);
                let x1 = imax(self.start.0, self.end.0);
                let ox0 = imin(other.start.0, other.end.0);
                let ox1 = imax(other.start.0, other.end.0);
                let ix0 = imax(x0, ox0);
                let ix1 = imin(x1, ox1);
                if ix0 <= ix1 {
                    Some(Vec2(ix0, y))
                } else {
                    None
                }
            }
        } else {
            if other.is_horizontal() {
                let y = other.start.1;
                let x = self.start.0;
                let x0 = imin(other.start.0, other.end.0);
                let x1 = imax(other.start.0, other.end.0);
                let y0 = imin(self.start.1, self.end.1);
                let y1 = imax(self.start.1, self.end.1);
                if x >= x0 && x <= x1 && y >= y0 && y <= y1 {
                    Some(Vec2(x, y))
                } else {
                    None
                }
            } else {
                let x = self.start.0;
                if x != other.start.0 {
                    return None;
                }
                let y0 = imin(self.start.1, self.end.1);
                let y1 = imax(self.start.1, self.end.1);
                let oy0 = imin(other.start.1, other.end.1);
                let oy1 = imax(other.start.1, other.end.1);
                let iy0 = imax(y0, oy0);
                let iy1 = imin(y1, oy1);
                if iy0 <= iy1 {
                    Some(Vec2(x, iy0))
                } else {
                    None
                }
            }
        }
    }

    /// True when the segment meets at least one of the given segments.
    pub fn intersects_any(&self, others: &[Segment]) -> (r: bool)
        requires
            seg_wf(*self),
            forall|k: int| 0 <= k < others@.len() ==> seg_wf(others@[k]),
        ensures
            r == exists|k: int| 0 <= k < others@.len() && segs_meet(*self, others@[k]),
    {
        let mut i: usize = 0;
        while i < others.len()
            invariant
                0 <= i <= others@.len(),
                seg_wf(*self),
                forall|k: int| 0 <= k < others@.len() ==> seg_wf(others@[k]),
                forall|k: int| 0 <= k < i ==> !segs_meet(*self, others@[k]),
            decreases others@.len() - i,
        {
            if self.intersection(&others[i]).is_some() {
                return true;
            }
            i += 1;
        }
        false
    }

    /// True when the segment meets none of the given segments.
    pub fn intersects_none(&self, others: &[Segment]) -> (r: bool)
        requires
            seg_wf(*self),
            forall|k: int| 0 <= k < others@.len() ==> seg_wf(others@[k]),
        ensures
            r == forall|k: int| 0 <= k < others@.len() ==> !segs_meet(*self, others@[k]),
    {
        !self.intersects_any(others)
    }

    /// The point of the segment with the given x coordinate, if any:
    /// the argument is an x coordinate despite its name, kept for the
    /// callers' sake.  On a horizontal segment the point on its row is
    /// returned; a vertical segment answers with its start point.
    pub fn point_with_x(&self, y: i64) -> (r: Option<Vec2>)
        requires
            seg_wf(*self),
        ensures
            r matches Some(p) ==> seg_has(*self, p.0 as int, p.1 as int) && p.0 == y,
            r is None ==> forall|py: int| !seg_has(*self, y as int, py),
            self.start.1 == self.end.1 ==> (r matches Some(p) ==> p == Vec2(y, self.start.1)),
            self.start.1 != self.end.1 ==> r == (if self.start.0 == y {
                Some(self.start)
            } else {
                None
            }),
    {
        if self.is_horizontal() {
            let x0 = imin(self.start.0, self.end.0);
            let x1 = imax(self.start.0, self.end.0);
            if y >= x0 && y <= x1 {
                Some(Vec2(y, self.start.1))
            } else {
                None
            }
        } else {
            if self.start.0 == y {
                Some(self.start)
            } else {
                None
            }
        }
    }

    /// The point of the segment with the given y coordinate, if any.
    /// A horizontal segment lying on the row answers with its start
    /// point; a vertical segment answers with the point on the row.
    pub fn point_with_y(&self, y: i64) -> (r: Option<Vec2>)
        requires
            seg_wf(*self),
        ensures
            r matches Some(p) ==> seg_has(*self, p.0 as int, p.1 as int) && p.1 == y,
            r is None ==> forall|px: int| !seg_has(*self, px, y as int),
            self.start.1 == self.end.1 ==> r == (if self.start.1 == y {
                Some(self.start)
            } else {
                None
            }),
            self.start.1 != self.end.1 ==> (r matches Some(p) ==> p == Vec2(self.start.0, y)),
    {
        if self.is_horizontal() {
            if self.start.1 == y {
                Some(self.start)
            } else {
                None
            }
        } else {
            let y0 = imin(self.start.1, self.end.1);
            let y1 = imax(self.start.1, self.end.1);
            if y >= y0 && y <= y1 {
                Some(Vec2(self.start.0, y))
            } else {
                None
            }
        }
    }
}

} // verus!

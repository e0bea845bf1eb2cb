use vstd::prelude::*;
use crate::geom::point::{area_two, area_two_of, IntPoint};
use crate::geom::rect::IntRect;

verus! {

/// A segment between two lattice points, stored from its lesser end `a` to
/// its greater end `b` in the order of points.
#[derive(Clone, Copy, Debug, PartialEq, Eq, Structural)]
pub struct XSegment {
    pub a: IntPoint,
    pub b: IntPoint,
}

impl XSegment {
    /// A segment is well formed when `a` comes strictly before `b`.
    pub open spec fn wf(self) -> bool {
        self.a.spec_less(self.b)
    }

    /// The order of segments: by `a`, then by `b`.
    pub open spec fn spec_less(self, other: XSegment) -> bool {
        self.a.spec_less(other.a) || (self.a == other.a && self.b.spec_less(other.b))
    }

    /// Whether this segment comes before `other` in the order of segments.
    pub fn less(&self, other: &XSegment) -> (r: bool)
        ensures
            r == self.spec_less(*other),
    {
        self.a.less(&other.a) || (self.a == other.a && self.b.less(&other.b))
    }

    /// Whether both ends have the same `x`.
    pub open spec fn spec_is_vertical(self) -> bool {
        self.a.x == self.b.x
    }

    /// Whether both ends have the same `x`.
    pub fn is_vertical(&self) -> (r: bool)
        ensures
            r == self.spec_is_vertical(),
    {
        self.a.x == self.b.x
    }

    /// The bounding rectangle of the segment.
    pub open spec fn spec_rect(self) -> IntRect {
        IntRect::spec_with_points(self.a, self.b)
    }

    /// The bounding rectangle of the segment.
    pub fn rect(&self) -> (r: IntRect)
        ensures
            r == self.spec_rect(),
    {
        IntRect::with_points(self.a, self.b)
    }

    /// Whether `p` lies strictly to the left of the ray from `a` through
    /// `b`; for a well-formed segment that is not vertical this means that
    /// the segment passes below `p`.
    pub open spec fn spec_is_under_point(self, p: IntPoint) -> bool {
        area_two(self.a, self.b, p) > 0
    }

    /// Whether the segment passes below `p`.
    pub fn is_under_point(&self, p: IntPoint) -> (r: bool)
        ensures
            r == self.spec_is_under_point(p),
    {
        area_two_of(self.a, self.b, p) > 0
    }

    /// Whether this segment lies below `other`, judged at the later of the
    /// two starting points, or by direction where they start together.
    pub open spec fn spec_is_under_segment(self, other: XSegment) -> bool {
        if self.a == other.a {
            area_two(self.a, self.b, other.b) > 0
        } else if self.a.x < other.a.x {
            area_two(self.a, self.b, other.a) > 0
        } else {
            area_two(other.a, other.b, self.a) < 0
        }
    }

    /// Whether this segment lies below `other`.
    pub fn is_under_segment(&self, other: &XSegment) -> (r: bool)
        ensures
            r == self.spec_is_under_segment(*other),
    {
        if self.a == other.a {
            area_two_of(self.a, self.b, other.b) > 0
        } else if self.a.x < other.a.x {
            area_two_of(self.a, self.b, other.a) > 0
        } else {
            area_two_of(other.a, other.b, self.a) < 0
        }
    }
}

} // verus!

use vstd::prelude::*;
use crate::geom::point::IntPoint;

verus! {

/// A closed interval of integers.
#[derive(Clone, Copy, Debug, PartialEq, Eq, Structural)]
pub struct LineRange {
    pub min: i32,
    pub max: i32,
}

impl LineRange {
    /// The length of the interval.
    pub open spec fn spec_width(self) -> int {
        self.max - self.min
    }

    /// The length of the interval.
    pub fn width(&self) -> (w: i64)
        ensures
            w == self.spec_width(),
    {
        self.max as i64 - self.min as i64
    }
}

/// An axis-parallel rectangle, borders included.
#[derive(Clone, Copy, Debug, PartialEq, Eq, Structural)]
pub struct IntRect {
    pub min_x: i32,
    pub max_x: i32,
    pub min_y: i32,
    pub max_y: i32,
}

impl IntRect {
    /// The bounding rectangle of two points.
    pub open spec fn spec_with_points(a: IntPoint, b: IntPoint) -> IntRect {
        IntRect {
            min_x: if a.x <= b.x { a.x } else { b.x },
            max_x: if a.x <= b.x { b.x } else { a.x },
            min_y: if a.y <= b.y { a.y } else { b.y },
            max_y: if a.y <= b.y { b.y } else { a.y },
        }
    }

    /// The bounding rectangle of two points.
    pub fn with_points(a: IntPoint, b: IntPoint) -> (r: IntRect)
        ensures
            r == Self::spec_with_points(a, b),
    {
        IntRect {
            min_x: if a.x <= b.x { a.x } else { b.x },
            max_x: if a.x <= b.x { b.x } else { a.x },
            min_y: if a.y <= b.y { a.y } else { b.y },
            max_y: if a.y <= b.y { b.y } else { a.y },
        }
    }

    /// Whether the rectangles share a point, borders counted.
    pub open spec fn spec_is_intersect_border_include(self, other: IntRect) -> bool {
        &&& self.min_x <= other.max_x
        &&& other.min_x <= self.max_x
        &&& self.min_y <= other.max_y
        &&& other.min_y <= self.max_y
    }

    /// Whether the rectangles share a point, borders counted.
    pub fn is_intersect_border_include(&self, other: &IntRect) -> (r: bool)
        ensures
            r == self.spec_is_intersect_border_include(*other),
    {
        self.min_x <= other.max_x && other.min_x <= self.max_x && self.min_y <= other.max_y
            && other.min_y <= self.max_y
    }

    /// Whether `p` lies in the rectangle grown by `radius` on every side.
    pub open spec fn spec_contains_with_radius(self, p: IntPoint, radius: int) -> bool {
        &&& self.min_x - radius <= p.x <= self.max_x + radius
        &&& self.min_y - radius <= p.y <= self.max_y + radius
    }

    /// Whether `p` lies in the rectangle grown by `radius` on every side.
    pub fn contains_with_radius(&self, p: IntPoint, radius: i64) -> (r: bool)
        ensures
            r == self.spec_contains_with_radius(p, radius as int),
    {
        let x: i128 = p.x as i128;
        let y: i128 = p.y as i128;
        let d: i128 = radius as i128;
        self.min_x as i128 - d <= x && x <= self.max_x as i128 + d && self.min_y as i128 - d <= y && y
            <= self.max_y as i128 + d
    }

    /// The vertical extent of the rectangle.
    pub open spec fn y_range_spec(self) -> LineRange {
        LineRange { min: self.min_y, max: self.max_y }
    }

    /// The vertical extent of the rectangle.
    pub fn y_range(&self) -> (r: LineRange)
        ensures
            r == self.y_range_spec(),
    {
        LineRange { min: self.min_y, max: self.max_y }
    }
}

} // verus!

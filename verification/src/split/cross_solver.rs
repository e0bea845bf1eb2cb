use vstd::prelude::*;
use crate::geom::arith::{abs, abs_of, lemma_round_div_bound, round_div, round_div_exec, sign, sign_of};
use crate::geom::point::{area_two, area_two_of, lemma_area_two_bound, orient, IntPoint};
use crate::geom::x_segment::XSegment;

verus! {

/// How two segments meet.
#[derive(Clone, Copy, Debug, PartialEq, Eq, Structural)]
pub enum CrossType {
    /// The segments cross in the interior of both.
    Pure,
    /// An end of the first segment lies inside the second.
    TargetEnd,
    /// An end of the second segment lies inside the first.
    OtherEnd,
    /// The segments lie on one line and share more than a point.
    Overlay,
}

/// The outcome of a test of two segments that meet.
#[derive(Clone, Copy, Debug, PartialEq, Eq, Structural)]
pub struct CrossResult {
    /// The lattice point at which the segments are to be cut. For an overlay
    /// it is the lesser end of the first segment and stands for no cut.
    pub point: IntPoint,
    pub cross_type: CrossType,
    /// Whether the point had to be rounded or snapped.
    pub is_round: bool,
}

/// Which ends of two overlapping segments lie strictly inside the other
/// segment.
#[derive(Clone, Copy, Debug, PartialEq, Eq, Structural)]
pub struct EndMask {
    pub target_a: bool,
    pub target_b: bool,
    pub other_a: bool,
    pub other_b: bool,
}

impl EndMask {
    /// Whether no end lies inside the other segment.
    pub open spec fn spec_is_empty(self) -> bool {
        !self.target_a && !self.target_b && !self.other_a && !self.other_b
    }

    /// Whether no end lies inside the other segment.
    pub fn is_empty(&self) -> (r: bool)
        ensures
            r == self.spec_is_empty(),
    {
        !self.target_a && !self.target_b && !self.other_a && !self.other_b
    }

    /// Whether the lesser end of the first segment lies inside the second.
    pub fn is_target_a(&self) -> (r: bool)
        ensures
            r == self.target_a,
    {
        self.target_a
    }

    /// Whether the greater end of the first segment lies inside the second.
    pub fn is_target_b(&self) -> (r: bool)
        ensures
            r == self.target_b,
    {
        self.target_b
    }

    /// Whether the lesser end of the second segment lies inside the first.
    pub fn is_other_a(&self) -> (r: bool)
        ensures
            r == self.other_a,
    {
        self.other_a
    }

    /// Whether the greater end of the second segment lies inside the first.
    pub fn is_other_b(&self) -> (r: bool)
        ensures
            r == self.other_b,
    {
        self.other_b
    }
}

/// The coordinate at the fraction `n / m` of the way from `from` to `to`,
/// rounded to the nearest integer, halves away from `from`.
pub open spec fn snap_coordinate(from: int, to: int, n: int, m: int) -> int {
    from + sign(to - from) * round_div(abs(to - from) * n, m)
}

/// Whether the coordinate at the fraction `n / m` of the way from `from` to
/// `to` is an integer.
pub open spec fn is_exact_coordinate(from: int, to: int, n: int, m: int) -> bool {
    (abs(to - from) * n) % m == 0
}

/// The least of the squared distances from `p` to the two ends of `s`.
pub open spec fn nearest_end_distance(s: XSegment, p: IntPoint) -> int {
    let ra = s.a.spec_sqr_distance(p);
    let rb = s.b.spec_sqr_distance(p);
    if ra <= rb {
        ra
    } else {
        rb
    }
}

/// The end of `s` that is nearer to `p`; the greater end where both are
/// equally near.
pub open spec fn nearest_end(s: XSegment, p: IntPoint) -> IntPoint {
    if s.a.spec_sqr_distance(p) < s.b.spec_sqr_distance(p) {
        s.a
    } else {
        s.b
    }
}

/// Tests pairs of segments for intersection with integer arithmetic alone.
pub struct CrossSolver;

impl CrossSolver {
    /// The point at which two segments that cross properly are cut: the point
    /// of `target` that lies on the line of `other`, each coordinate rounded
    /// to the nearest integer.
    pub open spec fn spec_cross_point(target: XSegment, other: XSegment) -> IntPoint {
        let n = abs(area_two(other.a, other.b, target.a));
        let m = n + abs(area_two(other.a, other.b, target.b));
        IntPoint {
            x: snap_coordinate(target.a.x as int, target.b.x as int, n, m) as i32,
            y: snap_coordinate(target.a.y as int, target.b.y as int, n, m) as i32,
        }
    }

    /// Whether the point at which two properly crossing segments meet is a
    /// lattice point.
    pub open spec fn spec_is_exact(target: XSegment, other: XSegment) -> bool {
        let n = abs(area_two(other.a, other.b, target.a));
        let m = n + abs(area_two(other.a, other.b, target.b));
        is_exact_coordinate(target.a.x as int, target.b.x as int, n, m) && is_exact_coordinate(
            target.a.y as int,
            target.b.y as int,
            n,
            m,
        )
    }

    /// The outcome for two segments none of whose ends lies on the line of
    /// the other and that cross properly.
    ///
    /// The meeting point is rounded to the lattice. Where that changes it and
    /// an end of either segment lies within `radius` (as a squared distance)
    /// of the rounded point, the nearest such end is taken instead: an end of
    /// `target` where it is at least as near as the ends of `other`.
    pub open spec fn spec_middle_cross(target: XSegment, other: XSegment, radius: int) -> CrossResult {
        let p = Self::spec_cross_point(target, other);
        if Self::spec_is_exact(target, other) {
            CrossResult { point: p, cross_type: CrossType::Pure, is_round: false }
        } else {
            let r0 = nearest_end_distance(target, p);
            let r1 = nearest_end_distance(other, p);
            if r0 <= radius || r1 <= radius {
                if r0 <= r1 {
                    CrossResult {
                        point: nearest_end(target, p),
                        cross_type: CrossType::TargetEnd,
                        is_round: true,
                    }
                } else {
                    CrossResult {
                        point: nearest_end(other, p),
                        cross_type: CrossType::OtherEnd,
                        is_round: true,
                    }
                }
            } else {
                CrossResult { point: p, cross_type: CrossType::Pure, is_round: true }
            }
        }
    }

    /// Whether two segments on one line share more than a point.
    pub open spec fn spec_is_overlap(target: XSegment, other: XSegment) -> bool {
        other.a.spec_less(target.b) && target.a.spec_less(other.b)
    }

    /// How `target` and `other` meet, if they do.
    ///
    /// - Segments on one line give `Overlay` where they share more than a
    ///   point, and nothing otherwise.
    /// - Segments of which one lies strictly on one side of the other, or
    ///   that only share an end, give nothing.
    /// - Where exactly one end lies on the other segment's line, that end
    ///   lies inside the other segment and is the point of the result:
    ///   `OtherEnd` for an end of `other`, `TargetEnd` for an end of `target`.
    /// - All other pairs cross properly; see `spec_middle_cross`.
    pub open spec fn spec_cross(target: XSegment, other: XSegment, radius: int) -> Option<CrossResult> {
        let oa = orient(target.a, target.b, other.a);
        let ob = orient(target.a, target.b, other.b);
        let ta = orient(other.a, other.b, target.a);
        let tb = orient(other.a, other.b, target.b);
        if oa == 0 && ob == 0 && ta == 0 && tb == 0 {
            if Self::spec_is_overlap(target, other) {
                Some(CrossResult { point: target.a, cross_type: CrossType::Overlay, is_round: false })
            } else {
                None
            }
        } else if oa == ob || ta == tb {
            None
        } else if (oa == 0 || ob == 0) && (ta == 0 || tb == 0) {
            None
        } else if oa == 0 {
            Some(CrossResult { point: other.a, cross_type: CrossType::OtherEnd, is_round: false })
        } else if ob == 0 {
            Some(CrossResult { point: other.b, cross_type: CrossType::OtherEnd, is_round: false })
        } else if ta == 0 {
            Some(CrossResult { point: target.a, cross_type: CrossType::TargetEnd, is_round: false })
        } else if tb == 0 {
            Some(CrossResult { point: target.b, cross_type: CrossType::TargetEnd, is_round: false })
        } else {
            Some(Self::spec_middle_cross(target, other, radius))
        }
    }

    /// Whether the two segments cross in the interior of both: the ends of
    /// each lie strictly on opposite sides of the other.
    pub open spec fn crosses_properly(target: XSegment, other: XSegment) -> bool {
        &&& orient(target.a, target.b, other.a) * orient(target.a, target.b, other.b) < 0
        &&& orient(other.a, other.b, target.a) * orient(other.a, other.b, target.b) < 0
    }

    /// The coordinate at the fraction `n / m` of the way from `from` to `to`,
    /// and whether it needed no rounding.
    fn snap(from: i32, to: i32, n: u128, m: u128) -> (r: (i32, bool))
        requires
            0 < m,
            n <= m,
            m < 0x8_0000_0000_0000_0000,
        ensures
            r.0 == snap_coordinate(from as int, to as int, n as int, m as int),
            r.1 == is_exact_coordinate(from as int, to as int, n as int, m as int),
            from <= to ==> from <= r.0 <= to,
            to <= from ==> to <= r.0 <= from,
    {
        let d: i64 = to as i64 - from as i64;
        let ad: u128 = abs_of(d as i128);
        assert(ad * n <= 0x1_0000_0000 * 0x8_0000_0000_0000_0000) by (nonlinear_arith)
            requires
                0 <= ad <= 0x1_0000_0000,
                0 <= n <= 0x8_0000_0000_0000_0000,
        ;
        let prod: u128 = ad * n;
        assert(prod <= m * ad) by (nonlinear_arith)
            requires
                prod == ad * n,
                n <= m,
                ad >= 0,
        ;
        proof {
            lemma_round_div_bound(prod as int, m as int, ad as int);
        }
        let q: u128 = round_div_exec(prod, m);
        let exact: bool = prod % m == 0;
        let v: i64 = if d >= 0 {
            from as i64 + q as i64
        } else {
            from as i64 - q as i64
        };
        assert(v == from + sign(d as int) * q) by (nonlinear_arith)
            requires
                v == (if d >= 0 {
                    from + q
                } else {
                    from - q
                }),
                d == 0 ==> q == 0,
                sign(d as int) == (if d > 0 {
                    1int
                } else if d < 0 {
                    -1int
                } else {
                    0int
                }),
        ;
        (v as i32, exact)
    }

    /// The outcome for two segments that cross properly; `n` and `m - n` are
    /// the doubled areas that the ends of `target` span with `other`.
    fn middle_cross(target: &XSegment, other: &XSegment, radius: i64, n: u128, m: u128) -> (r: CrossResult)
        requires
            n == abs(area_two(other.a, other.b, target.a)),
            m == n + abs(area_two(other.a, other.b, target.b)),
            0 < m,
        ensures
            r == Self::spec_middle_cross(*target, *other, radius as int),
    {
        proof {
            lemma_area_two_bound(other.a, other.b, target.a);
            lemma_area_two_bound(other.a, other.b, target.b);
        }
        let (x, exact_x) = Self::snap(target.a.x, target.b.x, n, m);
        let (y, exact_y) = Self::snap(target.a.y, target.b.y, n, m);
        let p: IntPoint = IntPoint { x, y };
        assert(p == Self::spec_cross_point(*target, *other));
        if exact_x && exact_y {
            return CrossResult { point: p, cross_type: CrossType::Pure, is_round: false };
        }
        let ra0: i128 = target.a.sqr_distance(&p);
        let ra1: i128 = target.b.sqr_distance(&p);
        let rb0: i128 = other.a.sqr_distance(&p);
        let rb1: i128 = other.b.sqr_distance(&p);
        let r0: i128 = if ra0 <= ra1 {
            ra0
        } else {
            ra1
        };
        let r1: i128 = if rb0 <= rb1 {
            rb0
        } else {
            rb1
        };
        let limit: i128 = radius as i128;
        if r0 <= limit || r1 <= limit {
            if r0 <= r1 {
                let q: IntPoint = if ra0 < ra1 {
                    target.a
                } else {
                    target.b
                };
                CrossResult { point: q, cross_type: CrossType::TargetEnd, is_round: true }
            } else {
                let q: IntPoint = if rb0 < rb1 {
                    other.a
                } else {
                    other.b
                };
                CrossResult { point: q, cross_type: CrossType::OtherEnd, is_round: true }
            }
        } else {
            CrossResult { point: p, cross_type: CrossType::Pure, is_round: true }
        }
    }

    /// How `target` and `other` meet, if they do.
    pub fn cross(target: &XSegment, other: &XSegment, radius: i64) -> (r: Option<CrossResult>)
        ensures
            r == Self::spec_cross(*target, *other, radius as int),
    {
        let area_oa: i128 = area_two_of(target.a, target.b, other.a);
        let area_ob: i128 = area_two_of(target.a, target.b, other.b);
        let area_ta: i128 = area_two_of(other.a, other.b, target.a);
        let area_tb: i128 = area_two_of(other.a, other.b, target.b);
        let oa: i8 = sign_of(area_oa);
        let ob: i8 = sign_of(area_ob);
        let ta: i8 = sign_of(area_ta);
        let tb: i8 = sign_of(area_tb);
        if oa == 0 && ob == 0 && ta == 0 && tb == 0 {
            if other.a.less(&target.b) && target.a.less(&other.b) {
                Some(CrossResult { point: target.a, cross_type: CrossType::Overlay, is_round: false })
            } else {
                None
            }
        } else if oa == ob || ta == tb {
            None
        } else if (oa == 0 || ob == 0) && (ta == 0 || tb == 0) {
            None
        } else if oa == 0 {
            Some(CrossResult { point: other.a, cross_type: CrossType::OtherEnd, is_round: false })
        } else if ob == 0 {
            Some(CrossResult { point: other.b, cross_type: CrossType::OtherEnd, is_round: false })
        } else if ta == 0 {
            Some(CrossResult { point: target.a, cross_type: CrossType::TargetEnd, is_round: false })
        } else if tb == 0 {
            Some(CrossResult { point: target.b, cross_type: CrossType::TargetEnd, is_round: false })
        } else {
            let n: u128 = abs_of(area_ta);
            let m: u128 = n + abs_of(area_tb);
            Some(Self::middle_cross(target, other, radius, n, m))
        }
    }

    /// Which ends of two segments on one line lie strictly inside the other
    /// segment, by the order of points.
    pub open spec fn spec_collinear(target: XSegment, other: XSegment) -> EndMask {
        EndMask {
            target_a: other.a.spec_less(target.a) && target.a.spec_less(other.b),
            target_b: other.a.spec_less(target.b) && target.b.spec_less(other.b),
            other_a: target.a.spec_less(other.a) && other.a.spec_less(target.b),
            other_b: target.a.spec_less(other.b) && other.b.spec_less(target.b),
        }
    }

    /// Which ends of two segments on one line lie strictly inside the other
    /// segment.
    pub fn collinear(target: &XSegment, other: &XSegment) -> (r: EndMask)
        ensures
            r == Self::spec_collinear(*target, *other),
    {
        EndMask {
            target_a: other.a.less(&target.a) && target.a.less(&other.b),
            target_b: other.a.less(&target.b) && target.b.less(&other.b),
            other_a: target.a.less(&other.a) && other.a.less(&target.b),
            other_b: target.a.less(&other.b) && other.b.less(&target.b),
        }
    }
}

} // verus!

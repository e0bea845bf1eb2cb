use vstd::prelude::*;
use crate::fill::fill_rule::FillRule;
use crate::fill::segment_fill::SegmentFill;
use crate::segm::count::WindingCount;

verus! {

/// The contribution of a segment of a string overlay: the signed winding
/// contribution of the body, and whether a line runs along the segment from
/// its lesser end to its greater end (`forward`) or the other way (`back`).
#[derive(Clone, Copy, Debug, PartialEq, Eq, Structural)]
pub struct ShapeCountString {
    pub subj: i32,
    pub forward: bool,
    pub back: bool,
}

impl ShapeCountString {
    /// The contributions of an edge of the body: first for an edge that runs
    /// from its lesser end to its greater end, then for one that runs the
    /// other way.
    pub open spec fn spec_body() -> (ShapeCountString, ShapeCountString) {
        (
            ShapeCountString { subj: 1, forward: false, back: false },
            ShapeCountString { subj: -1i32, forward: false, back: false },
        )
    }

    /// The contributions of an edge of the body.
    pub fn body() -> (r: (ShapeCountString, ShapeCountString))
        ensures
            r == Self::spec_body(),
    {
        (
            ShapeCountString { subj: 1, forward: false, back: false },
            ShapeCountString { subj: -1, forward: false, back: false },
        )
    }

    /// The contributions of a line: first for a line that runs from its
    /// lesser end to its greater end, then for one that runs the other way.
    pub open spec fn spec_line() -> (ShapeCountString, ShapeCountString) {
        (
            ShapeCountString { subj: 0, forward: true, back: false },
            ShapeCountString { subj: 0, forward: false, back: true },
        )
    }

    /// The contributions of a line.
    pub fn line() -> (r: (ShapeCountString, ShapeCountString))
        ensures
            r == Self::spec_line(),
    {
        (
            ShapeCountString { subj: 0, forward: true, back: false },
            ShapeCountString { subj: 0, forward: false, back: true },
        )
    }
}

impl WindingCount for ShapeCountString {
    open spec fn spec_is_not_empty(&self) -> bool {
        self.subj != 0 || self.forward || self.back
    }

    fn is_not_empty(&self) -> (r: bool) {
        self.subj != 0 || self.forward || self.back
    }

    open spec fn spec_combine(self, other: Self) -> Self {
        ShapeCountString {
            subj: self.subj.wrapping_add(other.subj),
            forward: self.forward || other.forward,
            back: self.back || other.back,
        }
    }

    fn combine(self, other: Self) -> (r: Self) {
        ShapeCountString {
            subj: self.subj.wrapping_add(other.subj),
            forward: self.forward || other.forward,
            back: self.back || other.back,
        }
    }

    open spec fn spec_invert(self) -> Self {
        ShapeCountString { subj: 0i32.wrapping_sub(self.subj), forward: self.back, back: self.forward }
    }

    fn invert(self) -> (r: Self) {
        ShapeCountString { subj: 0i32.wrapping_sub(self.subj), forward: self.back, back: self.forward }
    }

    open spec fn spec_fill(&self, bottom: Self, fill_rule: FillRule) -> (Self, SegmentFill) {
        let top = ShapeCountString {
            subj: bottom.subj.wrapping_add(self.subj),
            forward: false,
            back: false,
        };
        (
            top,
            SegmentFill {
                subj_top: fill_rule.spec_is_inside(top.subj),
                subj_bottom: fill_rule.spec_is_inside(bottom.subj),
                clip_top: self.forward,
                clip_bottom: self.back,
            },
        )
    }

    fn fill(&self, bottom: Self, fill_rule: FillRule) -> (r: (Self, SegmentFill)) {
        let top: ShapeCountString = ShapeCountString {
            subj: bottom.subj.wrapping_add(self.subj),
            forward: false,
            back: false,
        };
        (
            top,
            SegmentFill {
                subj_top: fill_rule.is_inside(top.subj),
                subj_bottom: fill_rule.is_inside(bottom.subj),
                clip_top: self.forward,
                clip_bottom: self.back,
            },
        )
    }

    open spec fn spec_zero() -> Self {
        ShapeCountString { subj: 0, forward: false, back: false }
    }

    fn zero() -> (r: Self) {
        ShapeCountString { subj: 0, forward: false, back: false }
    }

    open spec fn spec_code(&self) -> (int, int) {
        (
            self.subj as int,
            (if self.forward {
                1int
            } else {
                0int
            }) + (if self.back {
                2int
            } else {
                0int
            }),
        )
    }

    fn code(&self) -> (r: (i64, i64)) {
        let f: i64 = if self.forward {
            1
        } else {
            0
        };
        let b: i64 = if self.back {
            2
        } else {
            0
        };
        (self.subj as i64, f + b)
    }

    proof fn lemma_code_injective(&self, other: &Self) {
    }
}

} // verus!

use vstd::prelude::*;
use crate::fill::fill_rule::FillRule;
use crate::fill::segment_fill::SegmentFill;

verus! {

/// The role of a shape in a Boolean operation.
///
/// All operations but the differences are commutative in the two roles.
#[derive(Clone, Copy, Debug, PartialEq, Eq, Structural)]
pub enum ShapeType {
    /// The shape that is operated on.
    Subject,
    /// The shape that modifies the subject.
    Clip,
}

/// What a segment adds to the winding state when it is crossed from below.
pub trait WindingCount: Sized + Copy {
    /// Whether the contribution changes anything.
    spec fn spec_is_not_empty(&self) -> bool;

    /// Whether the contribution changes anything.
    fn is_not_empty(&self) -> (r: bool)
        ensures
            r == self.spec_is_not_empty(),
    ;

    /// The joint contribution of two segments that coincide.
    spec fn spec_combine(self, other: Self) -> Self;

    /// The joint contribution of two segments that coincide.
    fn combine(self, other: Self) -> (r: Self)
        ensures
            r == self.spec_combine(other),
    ;

    /// The contribution of the same segment walked the other way.
    spec fn spec_invert(self) -> Self;

    /// The contribution of the same segment walked the other way.
    fn invert(self) -> (r: Self)
        ensures
            r == self.spec_invert(),
    ;

    /// The winding state above a segment with this contribution when the
    /// state below it is `bottom`, and the fill of the segment.
    spec fn spec_fill(&self, bottom: Self, fill_rule: FillRule) -> (Self, SegmentFill);

    /// The winding state above a segment with this contribution when the
    /// state below it is `bottom`, and the fill of the segment.
    fn fill(&self, bottom: Self, fill_rule: FillRule) -> (r: (Self, SegmentFill))
        ensures
            r == self.spec_fill(bottom, fill_rule),
    ;

    /// The winding state where no shape is.
    spec fn spec_zero() -> Self;

    /// The winding state where no shape is.
    fn zero() -> (r: Self)
        ensures
            r == Self::spec_zero(),
    ;

    /// Two integers that tell contributions apart.
    spec fn spec_code(&self) -> (int, int);

    /// Two integers that tell contributions apart.
    fn code(&self) -> (r: (i64, i64))
        ensures
            (r.0 as int, r.1 as int) == self.spec_code(),
    ;

    /// Contributions with equal codes are equal.
    proof fn lemma_code_injective(&self, other: &Self)
        requires
            self.spec_code() == other.spec_code(),
        ensures
            *self == *other,
    ;
}

/// Signed winding contributions for the subject and the clip role. Sums wrap
/// around at 32 bits.
#[derive(Clone, Copy, Debug, PartialEq, Eq, Structural)]
pub struct ShapeCountBoolean {
    pub subj: i32,
    pub clip: i32,
}

impl ShapeCountBoolean {
    /// The count with the given contributions.
    pub fn new(subj: i32, clip: i32) -> (r: ShapeCountBoolean)
        ensures
            r.subj == subj,
            r.clip == clip,
    {
        ShapeCountBoolean { subj, clip }
    }

    /// The contributions of an edge of the given role: first for an edge
    /// that runs from its lesser end to its greater end, then for one that
    /// runs the other way.
    pub open spec fn spec_with_shape_type(shape_type: ShapeType) -> (
        ShapeCountBoolean,
        ShapeCountBoolean,
    ) {
        match shape_type {
            ShapeType::Subject => (
                ShapeCountBoolean { subj: 1, clip: 0 },
                ShapeCountBoolean { subj: -1i32, clip: 0 },
            ),
            ShapeType::Clip => (
                ShapeCountBoolean { subj: 0, clip: 1 },
                ShapeCountBoolean { subj: 0, clip: -1i32 },
            ),
        }
    }

    /// The contributions of an edge of the given role.
    pub fn with_shape_type(shape_type: ShapeType) -> (r: (ShapeCountBoolean, ShapeCountBoolean))
        ensures
            r == Self::spec_with_shape_type(shape_type),
    {
        match shape_type {
            ShapeType::Subject => (
                ShapeCountBoolean { subj: 1, clip: 0 },
                ShapeCountBoolean { subj: -1, clip: 0 },
            ),
            ShapeType::Clip => (
                ShapeCountBoolean { subj: 0, clip: 1 },
                ShapeCountBoolean { subj: 0, clip: -1 },
            ),
        }
    }
}

impl WindingCount for ShapeCountBoolean {
    open spec fn spec_is_not_empty(&self) -> bool {
        self.subj != 0 || self.clip != 0
    }

    fn is_not_empty(&self) -> (r: bool) {
        self.subj != 0 || self.clip != 0
    }

    open spec fn spec_combine(self, other: Self) -> Self {
        ShapeCountBoolean {
            subj: self.subj.wrapping_add(other.subj),
            clip: self.clip.wrapping_add(other.clip),
        }
    }

    fn combine(self, other: Self) -> (r: Self) {
        ShapeCountBoolean {
            subj: self.subj.wrapping_add(other.subj),
            clip: self.clip.wrapping_add(other.clip),
        }
    }

    open spec fn spec_invert(self) -> Self {
        ShapeCountBoolean { subj: 0i32.wrapping_sub(self.subj), clip: 0i32.wrapping_sub(self.clip) }
    }

    fn invert(self) -> (r: Self) {
        ShapeCountBoolean { subj: 0i32.wrapping_sub(self.subj), clip: 0i32.wrapping_sub(self.clip) }
    }

    open spec fn spec_fill(&self, bottom: Self, fill_rule: FillRule) -> (Self, SegmentFill) {
        let top = bottom.spec_combine(*self);
        (
            top,
            SegmentFill {
                subj_top: fill_rule.spec_is_inside(top.subj),
                subj_bottom: fill_rule.spec_is_inside(bottom.subj),
                clip_top: fill_rule.spec_is_inside(top.clip),
                clip_bottom: fill_rule.spec_is_inside(bottom.clip),
            },
        )
    }

    fn fill(&self, bottom: Self, fill_rule: FillRule) -> (r: (Self, SegmentFill)) {
        let top: ShapeCountBoolean = bottom.combine(*self);
        (
            top,
            SegmentFill {
                subj_top: fill_rule.is_inside(top.subj),
                subj_bottom: fill_rule.is_inside(bottom.subj),
                clip_top: fill_rule.is_inside(top.clip),
                clip_bottom: fill_rule.is_inside(bottom.clip),
            },
        )
    }

    open spec fn spec_zero() -> Self {
        ShapeCountBoolean { subj: 0, clip: 0 }
    }

    fn zero() -> (r: Self) {
        ShapeCountBoolean { subj: 0, clip: 0 }
    }

    open spec fn spec_code(&self) -> (int, int) {
        (self.subj as int, self.clip as int)
    }

    fn code(&self) -> (r: (i64, i64)) {
        (self.subj as i64, self.clip as i64)
    }

    proof fn lemma_code_injective(&self, other: &Self) {
    }
}

} // verus!

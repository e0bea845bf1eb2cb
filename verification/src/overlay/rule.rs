use vstd::prelude::*;
use crate::fill::segment_fill::SegmentFill;
use crate::geom::point::IntPoint;

verus! {

/// Which combination of the subject and the clip an overlay keeps.
#[derive(Clone, Copy, Debug, PartialEq, Eq, Structural)]
pub enum OverlayRule {
    /// The subject alone.
    Subject,
    /// The clip alone.
    Clip,
    /// What lies in both.
    Intersect,
    /// What lies in either.
    Union,
    /// What lies in the subject and not in the clip.
    Difference,
    /// What lies in the clip and not in the subject.
    InverseDifference,
    /// What lies in exactly one of the two.
    Xor,
}

impl OverlayRule {
    /// Whether a point belongs to the result, given whether it lies inside
    /// the subject and inside the clip.
    pub open spec fn spec_is_inside(self, subj: bool, clip: bool) -> bool {
        match self {
            OverlayRule::Subject => subj,
            OverlayRule::Clip => clip,
            OverlayRule::Intersect => subj && clip,
            OverlayRule::Union => subj || clip,
            OverlayRule::Difference => subj && !clip,
            OverlayRule::InverseDifference => clip && !subj,
            OverlayRule::Xor => subj != clip,
        }
    }

    /// Whether a point belongs to the result.
    pub fn is_inside(&self, subj: bool, clip: bool) -> (r: bool)
        ensures
            r == self.spec_is_inside(subj, clip),
    {
        match self {
            OverlayRule::Subject => subj,
            OverlayRule::Clip => clip,
            OverlayRule::Intersect => subj && clip,
            OverlayRule::Union => subj || clip,
            OverlayRule::Difference => subj && !clip,
            OverlayRule::InverseDifference => clip && !subj,
            OverlayRule::Xor => subj != clip,
        }
    }

    /// Whether the top side of a segment with the given fill belongs to the
    /// result.
    pub open spec fn spec_is_fill_top(self, fill: SegmentFill) -> bool {
        self.spec_is_inside(fill.subj_top, fill.clip_top)
    }

    /// Whether the top side of a segment with the given fill belongs to the
    /// result.
    pub fn is_fill_top(&self, fill: SegmentFill) -> (r: bool)
        ensures
            r == self.spec_is_fill_top(fill),
    {
        self.is_inside(fill.subj_top, fill.clip_top)
    }

    /// Whether the bottom side of a segment with the given fill belongs to
    /// the result.
    pub open spec fn spec_is_fill_bottom(self, fill: SegmentFill) -> bool {
        self.spec_is_inside(fill.subj_bottom, fill.clip_bottom)
    }

    /// Whether the bottom side of a segment with the given fill belongs to
    /// the result.
    pub fn is_fill_bottom(&self, fill: SegmentFill) -> (r: bool)
        ensures
            r == self.spec_is_fill_bottom(fill),
    {
        self.is_inside(fill.subj_bottom, fill.clip_bottom)
    }

    /// Whether a segment with the given fill lies on the border of the
    /// result: exactly one of its sides belongs to it.
    pub open spec fn spec_is_boundary(self, fill: SegmentFill) -> bool {
        self.spec_is_fill_top(fill) != self.spec_is_fill_bottom(fill)
    }

    /// Whether a segment with the given fill lies on the border of the
    /// result.
    pub fn is_boundary(&self, fill: SegmentFill) -> (r: bool)
        ensures
            r == self.spec_is_boundary(fill),
    {
        self.is_fill_top(fill) != self.is_fill_bottom(fill)
    }
}

/// The points that the result of `rule` covers when the subject covers the
/// points of `subj` and the clip those of `clip`.
pub open spec fn covered(rule: OverlayRule, subj: Set<IntPoint>, clip: Set<IntPoint>) -> Set<IntPoint> {
    Set::new(|p: IntPoint| rule.spec_is_inside(subj.contains(p), clip.contains(p)))
}

/// The union covers exactly the points that the symmetric difference or the
/// intersection covers.
pub proof fn lemma_union_is_xor_or_intersect(subj: Set<IntPoint>, clip: Set<IntPoint>)
    ensures
        covered(OverlayRule::Union, subj, clip) == covered(OverlayRule::Xor, subj, clip).union(
            covered(OverlayRule::Intersect, subj, clip),
        ),
{
    assert(covered(OverlayRule::Union, subj, clip) =~= covered(OverlayRule::Xor, subj, clip).union(
        covered(OverlayRule::Intersect, subj, clip),
    ));
}

/// The difference covers exactly the points that the subject covers and the
/// intersection does not.
pub proof fn lemma_difference_is_subject_minus_intersect(subj: Set<IntPoint>, clip: Set<IntPoint>)
    ensures
        covered(OverlayRule::Difference, subj, clip) == covered(OverlayRule::Subject, subj, clip).difference(
            covered(OverlayRule::Intersect, subj, clip),
        ),
{
    assert(covered(OverlayRule::Difference, subj, clip) =~= covered(
        OverlayRule::Subject,
        subj,
        clip,
    ).difference(covered(OverlayRule::Intersect, subj, clip)));
}

/// A segment that is no border of the subject and no border of the clip is
/// no border of any result.
pub proof fn lemma_boundary_needs_boundary(rule: OverlayRule, fill: SegmentFill)
    requires
        rule.spec_is_boundary(fill),
    ensures
        fill.spec_is_boundary(),
{
}

} // verus!

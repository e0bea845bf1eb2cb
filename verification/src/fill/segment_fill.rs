use vstd::prelude::*;

verus! {

/// Which sides of a segment lie inside the subject and inside the clip.
///
/// The top side of a segment is the side to the left of the way from its
/// lesser end to its greater end; the bottom side is the other. For a line
/// of a string overlay the two clip flags say instead in which directions
/// the line is run: `clip_top` from the lesser end to the greater, and
/// `clip_bottom` the other way.
#[derive(Clone, Copy, Debug, PartialEq, Eq, Structural)]
pub struct SegmentFill {
    pub subj_top: bool,
    pub subj_bottom: bool,
    pub clip_top: bool,
    pub clip_bottom: bool,
}

impl SegmentFill {
    /// The fill of a segment with nothing on either side.
    pub open spec fn spec_none() -> SegmentFill {
        SegmentFill { subj_top: false, subj_bottom: false, clip_top: false, clip_bottom: false }
    }

    /// The fill of a segment with nothing on either side.
    pub fn none() -> (r: SegmentFill)
        ensures
            r == Self::spec_none(),
    {
        SegmentFill { subj_top: false, subj_bottom: false, clip_top: false, clip_bottom: false }
    }

    /// Whether the segment separates inside from outside for the subject or
    /// for the clip.
    pub open spec fn spec_is_boundary(self) -> bool {
        self.subj_top != self.subj_bottom || self.clip_top != self.clip_bottom
    }

    /// Whether the segment separates inside from outside for the subject or
    /// for the clip.
    pub fn is_boundary(&self) -> (r: bool)
        ensures
            r == self.spec_is_boundary(),
    {
        self.subj_top != self.subj_bottom || self.clip_top != self.clip_bottom
    }
}

} // verus!

use vstd::prelude::*;
use crate::fill::fill_rule::FillRule;
use crate::fill::segment_fill::SegmentFill;
use crate::fill::solver::{spec_fills, FillSolver};
use crate::geom::point::IntPoint;
use crate::overlay::rule::OverlayRule;
use crate::segm::count::WindingCount;
use crate::segm::segment::Segment;
use crate::solver::Solver;
use crate::split::solver::SplitSolver;
use crate::split::solver_fragment::split_run;

verus! {

/// A point together with the number of the graph node at it.
#[derive(Clone, Copy, Debug, PartialEq, Eq, Structural)]
pub struct IdPoint {
    pub id: usize,
    pub point: IntPoint,
}

/// An edge of the arrangement: a segment that is fully split, with its fill
/// and the nodes at its ends.
#[derive(Clone, Copy, Debug, PartialEq, Eq, Structural)]
pub struct OverlayLink {
    pub a: IdPoint,
    pub b: IdPoint,
    pub fill: SegmentFill,
}

/// Which segments become links.
#[derive(Clone, Copy, Debug, PartialEq, Eq, Structural)]
pub enum LinkFilter {
    /// Every segment.
    All,
    /// The segments that border the subject or the clip.
    Filler,
    /// The segments that border the result of the given rule.
    Overlay(OverlayRule),
    /// The segments that border the body of a string overlay or carry one
    /// of its lines.
    StringLines,
}

impl LinkFilter {
    /// Whether a segment with the given fill becomes a link.
    pub open spec fn spec_keeps(self, fill: SegmentFill) -> bool {
        match self {
            LinkFilter::All => true,
            LinkFilter::Filler => fill.spec_is_boundary(),
            LinkFilter::Overlay(rule) => rule.spec_is_boundary(fill),
            LinkFilter::StringLines => fill.subj_top != fill.subj_bottom || fill.clip_top
                || fill.clip_bottom,
        }
    }

    /// Whether a segment with the given fill becomes a link.
    pub fn keeps(&self, fill: SegmentFill) -> (r: bool)
        ensures
            r == self.spec_keeps(fill),
    {
        match self {
            LinkFilter::All => true,
            LinkFilter::Filler => fill.is_boundary(),
            LinkFilter::Overlay(rule) => rule.is_boundary(fill),
            LinkFilter::StringLines => fill.subj_top != fill.subj_bottom || fill.clip_top || fill.clip_bottom,
        }
    }
}

/// The link of a segment with the given fill; its nodes are not numbered yet.
pub open spec fn link_of<C: WindingCount>(segment: Segment<C>, fill: SegmentFill) -> OverlayLink {
    OverlayLink {
        a: IdPoint { id: 0, point: segment.x_segment.a },
        b: IdPoint { id: 0, point: segment.x_segment.b },
        fill,
    }
}

/// The links of the first `n` segments that the filter keeps, in the order of
/// the segments.
pub open spec fn links_of<C: WindingCount>(
    segments: Seq<Segment<C>>,
    fills: Seq<SegmentFill>,
    filter: LinkFilter,
    n: int,
) -> Seq<OverlayLink>
    decreases n,
{
    if n <= 0 {
        Seq::empty()
    } else {
        let prev = links_of(segments, fills, filter, n - 1);
        if filter.spec_keeps(fills[n - 1]) {
            prev.push(link_of(segments[n - 1], fills[n - 1]))
        } else {
            prev
        }
    }
}

/// The links that are built from a set of segments: the segments are split,
/// filled under `fill_rule`, and those that the filter keeps become links.
pub open spec fn built_links<C: WindingCount>(
    segments: Seq<Segment<C>>,
    fill_rule: FillRule,
    filter: LinkFilter,
    solver: Solver,
) -> Seq<OverlayLink> {
    if segments.len() == 0 {
        Seq::empty()
    } else {
        let split = split_run(solver, segments);
        links_of(split, spec_fills(fill_rule, split), filter, split.len() as int)
    }
}

/// Turns segments into the links of a graph.
pub struct OverlayLinkBuilder;

impl OverlayLinkBuilder {
    /// The links of the segments that the filter keeps.
    pub fn build_links<C: WindingCount>(
        segments: &Vec<Segment<C>>,
        fills: &Vec<SegmentFill>,
        filter: LinkFilter,
    ) -> (links: Vec<OverlayLink>)
        requires
            fills.len() == segments.len(),
        ensures
            links@ == links_of(segments@, fills@, filter, segments.len() as int),
    {
        let n: usize = segments.len();
        let mut links: Vec<OverlayLink> = Vec::new();
        let mut i: usize = 0;
        while i < n
            invariant
                n == segments.len(),
                n == fills.len(),
                i <= n,
                links@ == links_of(segments@, fills@, filter, i as int),
            decreases n - i,
        {
            let fill: SegmentFill = fills[i];
            if filter.keeps(fill) {
                let s: Segment<C> = segments[i];
                links.push(
                    OverlayLink {
                        a: IdPoint { id: 0, point: s.x_segment.a },
                        b: IdPoint { id: 0, point: s.x_segment.b },
                        fill,
                    },
                );
            }
            i += 1;
        }
        links
    }

    /// Splits the segments, fills them, and turns those that the filter
    /// keeps into links.
    pub fn build<C: WindingCount>(
        segments: Vec<Segment<C>>,
        fill_rule: FillRule,
        filter: LinkFilter,
        solver: Solver,
    ) -> (links: Vec<OverlayLink>)
        ensures
            links@ == built_links(segments@, fill_rule, filter, solver),
    {
        if segments.len() == 0 {
            return Vec::new();
        }
        let split: Vec<Segment<C>> = SplitSolver::new(solver).split_segments(segments);
        let fills: Vec<SegmentFill> = FillSolver::fill(fill_rule, &split);
        Self::build_links(&split, &fills, filter)
    }

    /// The links of the segments that border the subject or the clip.
    pub fn build_with_filler_filter<C: WindingCount>(
        segments: Vec<Segment<C>>,
        fill_rule: FillRule,
        solver: Solver,
    ) -> (links: Vec<OverlayLink>)
        ensures
            links@ == built_links(segments@, fill_rule, LinkFilter::Filler, solver),
    {
        Self::build(segments, fill_rule, LinkFilter::Filler, solver)
    }

    /// The links of the segments that border the result of `overlay_rule`.
    pub fn build_with_overlay_filter<C: WindingCount>(
        segments: Vec<Segment<C>>,
        fill_rule: FillRule,
        overlay_rule: OverlayRule,
        solver: Solver,
    ) -> (links: Vec<OverlayLink>)
        ensures
            links@ == built_links(segments@, fill_rule, LinkFilter::Overlay(overlay_rule), solver),
    {
        Self::build(segments, fill_rule, LinkFilter::Overlay(overlay_rule), solver)
    }

    /// The links of all segments.
    pub fn build_without_filter<C: WindingCount>(
        segments: Vec<Segment<C>>,
        fill_rule: FillRule,
        solver: Solver,
    ) -> (links: Vec<OverlayLink>)
        ensures
            links@ == built_links(segments@, fill_rule, LinkFilter::All, solver),
    {
        Self::build(segments, fill_rule, LinkFilter::All, solver)
    }
}

} // verus!

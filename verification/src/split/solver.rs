use vstd::prelude::*;
use crate::segm::count::WindingCount;
use crate::segm::merge::{merge_if_needed, merged};
use crate::segm::segment::{all_wf, Segment};
use crate::solver::{Solver, Strategy};
use crate::sort::{sort, sorted, sorted_by_key};
use crate::split::cross_solver::{CrossResult, CrossSolver, CrossType, EndMask};
use crate::split::cut::{cut_from, cut_marks, cut_segments, to_cuts, CutMark};
use crate::split::fragment::Fragment;
use crate::split::line_mark::LineMark;
use crate::split::list_laws::{lemma_list_run_no_residual_crossings, no_crossings, no_pure_crossings};
use crate::split::solver_fragment::{split_outcome, split_run};
use crate::split::split_laws::lemma_no_residual_crossings;

verus! {

/// The number at which the passes of a split can no longer be counted: a
/// run that comes to this pass ends there.
pub const MAX_PASSES: usize = usize::MAX;

/// Cuts a set of segments at all their intersections.
#[derive(Clone, Copy, Debug)]
pub struct SplitSolver {
    pub solver: Solver,
}

/// The marks of two overlapping segments: each end that lies inside the
/// other segment cuts that segment.
pub open spec fn overlay_marks(fi: Fragment, fj: Fragment, mask: EndMask) -> Seq<LineMark> {
    (if mask.target_a {
        seq![LineMark { index: fj.index, point: fi.x_segment.a }]
    } else {
        Seq::empty()
    }) + (if mask.target_b {
        seq![LineMark { index: fj.index, point: fi.x_segment.b }]
    } else {
        Seq::empty()
    }) + (if mask.other_a {
        seq![LineMark { index: fi.index, point: fj.x_segment.a }]
    } else {
        Seq::empty()
    }) + (if mask.other_b {
        seq![LineMark { index: fi.index, point: fj.x_segment.b }]
    } else {
        Seq::empty()
    })
}

/// The marks of two segments that meet in a point: a proper crossing cuts
/// both, an end inside the other segment cuts that segment.
pub open spec fn point_marks(fi: Fragment, fj: Fragment, cross: CrossResult) -> Seq<LineMark> {
    match cross.cross_type {
        CrossType::Pure => seq![
            LineMark { index: fi.index, point: cross.point },
            LineMark { index: fj.index, point: cross.point },
        ],
        CrossType::TargetEnd => seq![LineMark { index: fj.index, point: cross.point }],
        CrossType::OtherEnd => seq![LineMark { index: fi.index, point: cross.point }],
        CrossType::Overlay => Seq::empty(),
    }
}

/// The marks that the pair of fragments `fi`, `fj` yields at the given snap
/// radius, and whether the pair calls for another pass.
///
/// Nothing is marked where the segments do not meet, where an overlap has no
/// end inside the other segment, or where the cut point lies outside one of
/// the two rectangles grown by the radius (for an overlap: where the lesser
/// end of `fi` lies outside both).
pub open spec fn cross_marks(fi: Fragment, fj: Fragment, radius: int) -> (Seq<LineMark>, bool) {
    match CrossSolver::spec_cross(fi.x_segment, fj.x_segment, radius) {
        None => (Seq::empty(), false),
        Some(cross) => match cross.cross_type {
            CrossType::Overlay => {
                let mask = CrossSolver::spec_collinear(fi.x_segment, fj.x_segment);
                if mask.spec_is_empty() {
                    (Seq::empty(), false)
                } else if !(fi.rect.spec_contains_with_radius(fi.x_segment.a, radius)
                    || fj.rect.spec_contains_with_radius(fi.x_segment.a, radius)) {
                    (Seq::empty(), false)
                } else {
                    (overlay_marks(fi, fj, mask), cross.is_round)
                }
            },
            _ => {
                if !fi.rect.spec_contains_with_radius(cross.point, radius)
                    || !fj.rect.spec_contains_with_radius(cross.point, radius) {
                    (Seq::empty(), false)
                } else {
                    (point_marks(fi, fj, cross), cross.is_round)
                }
            },
        },
    }
}

/// A working set put in order: sorted by key, coinciding segments merged,
/// empty ones dropped.
pub open spec fn prepared<C: WindingCount>(input: Seq<Segment<C>>) -> Seq<Segment<C>> {
    merged(sorted(input))
}

/// The pieces into which `marks` cut `segments`: the marks are turned into
/// cuts, the cuts sorted by segment and along it, and every segment chained
/// through its cuts.
pub open spec fn cut_pieces<C: WindingCount>(marks: Seq<LineMark>, segments: Seq<Segment<C>>) -> Seq<
    Segment<C>,
> {
    cut_from(segments, sorted(cut_marks(marks, segments, marks.len() as int)), 0, 0)
}

/// The working set that follows `segments` once `marks` are applied: the
/// pieces, put in order.
pub open spec fn applied<C: WindingCount>(marks: Seq<LineMark>, segments: Seq<Segment<C>>) -> Seq<
    Segment<C>,
> {
    prepared(cut_pieces(marks, segments))
}

/// Whether the vertical extents of two segments share a point.
pub open spec fn y_ranges_meet(a: Fragment, b: Fragment) -> bool {
    a.rect.min_y <= b.rect.max_y && b.rect.min_y <= a.rect.max_y
}

/// The fragment that stands for segment `i` of a working set.
pub open spec fn whole<C: WindingCount>(segments: Seq<Segment<C>>, i: int) -> Fragment {
    Fragment::spec_with_index_and_segment(i as usize, segments[i].x_segment)
}

/// The marks of segment `i` against the segments from `j` on, and whether
/// any of these pairs calls for another pass. The row ends at the first
/// segment that starts to the right of where segment `i` ends; pairs whose
/// vertical extents are apart are passed over.
pub open spec fn list_row<C: WindingCount>(segments: Seq<Segment<C>>, i: int, j: int, radius: int) -> (
    Seq<LineMark>,
    bool,
)
    decreases segments.len() - j,
{
    if j < 0 || j >= segments.len() {
        (Seq::empty(), false)
    } else if segments[i].x_segment.b.x < segments[j].x_segment.a.x {
        (Seq::empty(), false)
    } else {
        let rest = list_row(segments, i, j + 1, radius);
        if y_ranges_meet(whole(segments, i), whole(segments, j)) {
            let here = cross_marks(whole(segments, i), whole(segments, j), radius);
            (here.0 + rest.0, here.1 || rest.1)
        } else {
            rest
        }
    }
}

/// The marks of the rows from `i` on, and whether any pair calls for another
/// pass.
pub open spec fn list_rows<C: WindingCount>(segments: Seq<Segment<C>>, i: int, radius: int) -> (
    Seq<LineMark>,
    bool,
)
    decreases segments.len() - i,
{
    if i < 0 || i >= segments.len() {
        (Seq::empty(), false)
    } else {
        let here = list_row(segments, i, i + 1, radius);
        let rest = list_rows(segments, i + 1, radius);
        (here.0 + rest.0, here.1 || rest.1)
    }
}

/// How a run of passes ended.
#[derive(Clone, Copy, Debug, PartialEq, Eq, Structural)]
pub enum SplitEnd {
    /// Fewer than three segments were left.
    Few,
    /// A pass found no mark: the working set is a fixed point.
    Quiet,
    /// The last pass needed no rounding, and its marks have been applied.
    Exact,
    /// The working set has outgrown the strategy.
    Outgrown,
    /// The machine can count no further pass, or the working set has more
    /// segments than it can count.
    GaveUp,
}

/// The working set that the list strategy returns when it starts pass
/// `iter` with `segments`, how the run ends, and the number of the pass that
/// comes next.
///
/// A pass marks the meeting points at the snap radius of the pass. Without
/// marks the run ends. Otherwise the marks are applied; the run goes on if
/// a mark was rounded and the working set still suits the strategy.
pub open spec fn list_run<C: WindingCount>(solver: Solver, segments: Seq<Segment<C>>, iter: usize) -> (
    Seq<Segment<C>>,
    SplitEnd,
    usize,
)
    decreases MAX_PASSES - iter,
{
    if segments.len() <= 2 {
        (segments, SplitEnd::Few, iter)
    } else if iter >= MAX_PASSES || segments.len() > usize::MAX {
        (segments, SplitEnd::GaveUp, iter)
    } else {
        let pass = list_rows(segments, 0, solver.spec_radius(iter));
        if pass.0.len() == 0 {
            (segments, SplitEnd::Quiet, (iter + 1) as usize)
        } else {
            let next = applied(pass.0, segments);
            if !solver.spec_is_list_split(next.len() as usize) {
                (next, SplitEnd::Outgrown, (iter + 1) as usize)
            } else if !pass.1 {
                (next, SplitEnd::Exact, (iter + 1) as usize)
            } else {
                list_run(solver, next, (iter + 1) as usize)
            }
        }
    }
}

/// Whether a run ended because a pass found no mark or needed no rounding.
pub open spec fn is_settled(end: SplitEnd) -> bool {
    end == SplitEnd::Quiet || end == SplitEnd::Exact
}

/// Whether a working set holds at most two segments, which do not cross
/// properly.
pub open spec fn few_apart<C>(segments: Seq<Segment<C>>) -> bool {
    segments.len() <= 2 && (segments.len() == 2 ==> !CrossSolver::crosses_properly(
        segments[0].x_segment,
        segments[1].x_segment,
    ) && !CrossSolver::crosses_properly(segments[1].x_segment, segments[0].x_segment))
}

impl SplitSolver {
    /// A split solver with the given settings.
    pub fn new(solver: Solver) -> (r: SplitSolver)
        ensures
            r.solver == solver,
    {
        SplitSolver { solver }
    }

    /// Tests the pair of fragments `fi`, `fj`, appends the marks that the pair
    /// yields to `marks`, and tells whether the pair calls for another pass.
    pub fn cross_fragments(fi: &Fragment, fj: &Fragment, marks: &mut Vec<LineMark>, radius: i64) -> (r: bool)
        ensures
            final(marks)@ == old(marks)@ + cross_marks(*fi, *fj, radius as int).0,
            r == cross_marks(*fi, *fj, radius as int).1,
    {
        let cross: CrossResult = match CrossSolver::cross(&fi.x_segment, &fj.x_segment, radius) {
            Some(cross) => cross,
            None => {
                return false;
            },
        };
        match cross.cross_type {
            CrossType::Overlay => {
                let mask: EndMask = CrossSolver::collinear(&fi.x_segment, &fj.x_segment);
                if mask.is_empty() {
                    return false;
                }
                if !(fi.rect.contains_with_radius(fi.x_segment.a, radius) || fj.rect.contains_with_radius(
                    fi.x_segment.a,
                    radius,
                )) {
                    return false;
                }
                if mask.is_target_a() {
                    marks.push(LineMark { index: fj.index, point: fi.x_segment.a });
                }
                if mask.is_target_b() {
                    marks.push(LineMark { index: fj.index, point: fi.x_segment.b });
                }
                if mask.is_other_a() {
                    marks.push(LineMark { index: fi.index, point: fj.x_segment.a });
                }
                if mask.is_other_b() {
                    marks.push(LineMark { index: fi.index, point: fj.x_segment.b });
                }
            },
            _ => {
                if !fi.rect.contains_with_radius(cross.point, radius) || !fj.rect.contains_with_radius(
                    cross.point,
                    radius,
                ) {
                    return false;
                }
                match cross.cross_type {
                    CrossType::Pure => {
                        marks.push(LineMark { index: fi.index, point: cross.point });
                        marks.push(LineMark { index: fj.index, point: cross.point });
                    },
                    CrossType::TargetEnd => {
                        marks.push(LineMark { index: fj.index, point: cross.point });
                    },
                    CrossType::OtherEnd => {
                        marks.push(LineMark { index: fi.index, point: cross.point });
                    },
                    _ => {},
                }
            },
        }
        cross.is_round
    }
    /// Splits a set of segments at all their intersections and tells how the
    /// run of the last strategy ended: puts the set in order and runs the
    /// strategy that the settings name. The automatic strategy compares pair
    /// by pair while the set is small and turns to the grid once it has
    /// grown; the grid goes on with the pass that the list would have made
    /// next.
    ///
    /// Where every segment has a length and the run ends because a pass finds
    /// no mark or needs no rounding, no two segments of the result cross in
    /// the interior of both.
    pub fn split<C: WindingCount>(&self, segments: Vec<Segment<C>>) -> (r: (Vec<Segment<C>>, SplitEnd))
        ensures
            (r.0@, r.1) == split_outcome(self.solver, segments@),
            all_wf(segments@) && is_settled(r.1) ==> no_crossings(r.0@) && no_pure_crossings(r.0@),
            r.1 == SplitEnd::Few ==> r.0.len() <= 2,
    {
        proof {
            if all_wf(segments@) && is_settled(split_outcome(self.solver, segments@).1) {
                lemma_no_residual_crossings(self.solver, segments@);
            }
        }
        if segments.len() == 0 {
            return (segments, SplitEnd::Few);
        }
        let prepared: Vec<Segment<C>> = Self::prepare(segments);
        if self.solver.is_list_split(prepared.len()) {
            let (list, end, passes) = self.list_split(prepared, 0);
            match end {
                SplitEnd::Outgrown => self.fragment_split(list, passes),
                _ => (list, end),
            }
        } else {
            match self.solver.strategy {
                Strategy::Tree => self.tree_split(prepared, 0),
                _ => self.fragment_split(prepared, 0),
            }
        }
    }

    /// Splits a set of segments at all their intersections; see `split`.
    pub fn split_segments<C: WindingCount>(&self, segments: Vec<Segment<C>>) -> (r: Vec<Segment<C>>)
        ensures
            r@ == split_run(self.solver, segments@),
            all_wf(segments@) && is_settled(split_outcome(self.solver, segments@).1) ==> no_crossings(r@)
                && no_pure_crossings(r@),
    {
        let (r, _end) = self.split(segments);
        r
    }

    /// Puts a working set in order: sorts it by key, merges coinciding
    /// segments and drops empty ones.
    pub fn prepare<C: WindingCount>(segments: Vec<Segment<C>>) -> (r: Vec<Segment<C>>)
        ensures
            r@ == prepared(segments@),
    {
        let mut work: Vec<Segment<C>> = segments;
        sort(&mut work);
        merge_if_needed(work)
    }

    /// Cuts the segments at the marks and puts the pieces in order. Every
    /// piece keeps the contribution of its segment.
    pub fn apply<C: WindingCount>(&self, marks: &Vec<LineMark>, segments: Vec<Segment<C>>) -> (r: Vec<
        Segment<C>,
    >)
        ensures
            r@ == applied(marks@, segments@),
    {
        let mut cuts: Vec<CutMark> = to_cuts(marks, &segments);
        sort(&mut cuts);
        let pieces: Vec<Segment<C>> = cut_segments(&segments, &cuts);
        Self::prepare(pieces)
    }

    /// One pass of the list strategy: tests segment `i` against every later
    /// segment that starts no further right than segment `i` ends, and
    /// appends the marks to `marks`. Tells whether another pass is called for.
    pub fn list_pass<C: WindingCount>(segments: &Vec<Segment<C>>, radius: i64, marks: &mut Vec<LineMark>) -> (r:
        bool)
        ensures
            final(marks)@ == old(marks)@ + list_rows(segments@, 0, radius as int).0,
            r == list_rows(segments@, 0, radius as int).1,
    {
        let n: usize = segments.len();
        let mut any_round: bool = false;
        let mut i: usize = 0;
        while i < n
            invariant
                n == segments.len(),
                i <= n,
                marks@ + list_rows(segments@, i as int, radius as int).0 == old(marks)@ + list_rows(
                    segments@,
                    0,
                    radius as int,
                ).0,
                (any_round || list_rows(segments@, i as int, radius as int).1) == list_rows(
                    segments@,
                    0,
                    radius as int,
                ).1,
            decreases n - i,
        {
            let fi: Fragment = Fragment::with_index_and_segment(i, segments[i].x_segment);
            let ghost before: Seq<LineMark> = marks@;
            let ghost any_before: bool = any_round;
            let mut j: usize = i + 1;
            while j < n && segments[i].x_segment.b.x >= segments[j].x_segment.a.x
                invariant
                    n == segments.len(),
                    i < j <= n,
                    fi == whole(segments@, i as int),
                    marks@ + list_row(segments@, i as int, j as int, radius as int).0 == before + list_row(
                        segments@,
                        i as int,
                        i as int + 1,
                        radius as int,
                    ).0,
                    (any_round || list_row(segments@, i as int, j as int, radius as int).1) == (any_before
                        || list_row(segments@, i as int, i as int + 1, radius as int).1),
                decreases n - j,
            {
                let fj: Fragment = Fragment::with_index_and_segment(j, segments[j].x_segment);
                if fi.rect.min_y <= fj.rect.max_y && fj.rect.min_y <= fi.rect.max_y {
                    let is_round: bool = Self::cross_fragments(&fi, &fj, marks, radius);
                    any_round = any_round || is_round;
                }
                j += 1;
            }
            i += 1;
        }
        any_round
    }

    /// Splits with the list strategy from pass `iter` on: passes are made
    /// until one finds no mark or needs no rounding, until fewer than three
    /// segments are left, until the working set has outgrown the strategy, or
    /// until passes can no longer be counted. Returns the working set, how the run
    /// ended and the number of the pass that comes next; see `list_run`.
    ///
    /// Where the segments are in order, every segment has a length and the run
    /// ends because a pass finds no mark or needs no rounding, no two
    /// segments of the result cross in the interior of both. A run that ends
    /// for want of segments leaves at most two.
    pub fn list_split<C: WindingCount>(&self, segments: Vec<Segment<C>>, iter: usize) -> (r: (
        Vec<Segment<C>>,
        SplitEnd,
        usize,
    ))
        ensures
            (r.0@, r.1, r.2) == list_run(self.solver, segments@, iter),
            sorted_by_key(segments@) && all_wf(segments@) && is_settled(r.1) ==> no_crossings(r.0@)
                && no_pure_crossings(r.0@),
            r.1 == SplitEnd::Few ==> r.0.len() <= 2,
    {
        proof {
            if sorted_by_key(segments@) && all_wf(segments@) && is_settled(
                list_run(self.solver, segments@, iter).1,
            ) {
                lemma_list_run_no_residual_crossings(self.solver, segments@, iter);
            }
        }
        let mut work: Vec<Segment<C>> = segments;
        let mut marks: Vec<LineMark> = Vec::new();
        let mut pass: usize = iter;
        while work.len() > 2 && pass < MAX_PASSES
            invariant
                list_run(self.solver, work@, pass) == list_run(self.solver, segments@, iter),
                sorted_by_key(segments@) && all_wf(segments@) && is_settled(
                    list_run(self.solver, segments@, iter).1,
                ) ==> no_crossings(list_run(self.solver, segments@, iter).0) && no_pure_crossings(
                    list_run(self.solver, segments@, iter).0,
                ),
            decreases MAX_PASSES - pass,
        {
            let radius: i64 = self.solver.radius(pass);
            marks.clear();
            let need_to_fix: bool = Self::list_pass(&work, radius, &mut marks);
            if marks.len() == 0 {
                return (work, SplitEnd::Quiet, pass + 1);
            }
            work = self.apply(&marks, work);
            if !self.solver.is_list_split(work.len()) {
                return (work, SplitEnd::Outgrown, pass + 1);
            }
            if !need_to_fix {
                return (work, SplitEnd::Exact, pass + 1);
            }
            pass += 1;
        }
        if work.len() <= 2 {
            (work, SplitEnd::Few, pass)
        } else {
            (work, SplitEnd::GaveUp, pass)
        }
    }
}

} // verus!

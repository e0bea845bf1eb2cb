use vstd::prelude::*;
use rayon::iter::{IntoParallelRefMutIterator, ParallelIterator};
use crate::geom::point::IntPoint;
use crate::segm::count::WindingCount;
use crate::segm::segment::{all_wf, Segment};
use crate::sort::{lemma_sorted_ensures, sort, sorted};
use crate::split::fragment::{from_below, sort_from_below, Fragment, IdSegment};
use crate::solver::{Solver, Strategy};
use crate::split::grid_layout::{filled_borders, filled_groups, views, FragmentBuffer, GridLayout};
use crate::split::solver_tree::tree_run;
use crate::split::line_mark::LineMark;
use crate::split::segment_tree::tested_marks;
use crate::split::list_laws::{no_crossings, no_pure_crossings};
use crate::split::solver::{applied, is_settled, list_run, prepared, SplitEnd, SplitSolver, MAX_PASSES};
use crate::split::split_laws::lemma_fragment_run_no_residual_crossings;

verus! {

/// The marks of fragment `i` of a column against the fragments from `j` on.
/// The row ends at the first fragment that starts above fragment `i`.
pub open spec fn bin_row(fragments: Seq<Fragment>, i: int, j: int, radius: int) -> (Seq<LineMark>, bool)
    decreases fragments.len() - j,
{
    if j < 0 || j >= fragments.len() {
        (Seq::empty(), false)
    } else if fragments[i].rect.max_y < fragments[j].rect.min_y {
        (Seq::empty(), false)
    } else {
        let here = tested_marks(fragments[i], fragments[j], radius);
        let rest = bin_row(fragments, i, j + 1, radius);
        (here.0 + rest.0, here.1 || rest.1)
    }
}

/// The marks of the rows of a column from `i` on.
pub open spec fn bin_rows(fragments: Seq<Fragment>, i: int, radius: int) -> (Seq<LineMark>, bool)
    decreases fragments.len() - i,
{
    if i < 0 || i >= fragments.len() {
        (Seq::empty(), false)
    } else {
        let here = bin_row(fragments, i, i + 1, radius);
        let rest = bin_rows(fragments, i + 1, radius);
        (here.0 + rest.0, here.1 || rest.1)
    }
}

/// A column as its sweep leaves it: sorted by the lower border of its
/// fragments, if it has more than one.
pub open spec fn bin_sorted(fragments: Seq<Fragment>) -> Seq<Fragment> {
    if fragments.len() < 2 {
        fragments
    } else {
        sorted(fragments)
    }
}

/// The marks that the sweep over one column yields, and whether a pair of
/// the column calls for another pass: the marks of the rows of the sorted
/// column.
pub open spec fn bin_marks(fragments: Seq<Fragment>, radius: int) -> (Seq<LineMark>, bool) {
    if fragments.len() < 2 {
        (Seq::empty(), false)
    } else {
        bin_rows(sorted(fragments), 0, radius)
    }
}

/// The marks of the first `n` columns, in the order of the columns, and
/// whether any of these columns calls for another pass.
pub open spec fn columns_marks(groups: Seq<Seq<Fragment>>, n: int, radius: int) -> (Seq<LineMark>, bool)
    decreases n,
{
    if n <= 0 {
        (Seq::empty(), false)
    } else {
        let prev = columns_marks(groups, n - 1, radius);
        let here = bin_marks(groups[n - 1], radius);
        (prev.0 + here.0, prev.1 || here.1)
    }
}

/// Whether every column of `after` is the column of `before` as its sweep
/// leaves it.
pub open spec fn columns_sorted(before: Seq<Seq<Fragment>>, after: Seq<Seq<Fragment>>) -> bool {
    after == sorted_columns(before)
}

/// The columns as their sweeps leave them.
pub open spec fn sorted_columns(groups: Seq<Seq<Fragment>>) -> Seq<Seq<Fragment>> {
    Seq::new(groups.len(), |k: int| bin_sorted(groups[k]))
}

/// The marks that the fragments of the first `n` columns leave on the
/// vertical segments on the right borders of their columns.
pub open spec fn borders_marks(
    layout: GridLayout,
    groups: Seq<Seq<Fragment>>,
    borders: Seq<Seq<IdSegment>>,
    n: int,
) -> Seq<LineMark>
    decreases n,
{
    if n <= 0 {
        Seq::empty()
    } else {
        let prev = borders_marks(layout, groups, borders, n - 1);
        if borders[n - 1].len() > 0 {
            prev + border_marks(layout.spec_pos((n - 1) as usize), groups[n - 1], borders[n - 1])
        } else {
            prev
        }
    }
}

/// The marks of one pass of the grid strategy over a working set, and
/// whether another pass is called for: the segments are sorted into the
/// columns of `layout`, the columns are swept, and what ends on a border is
/// resolved against the columns as the sweep leaves them.
pub open spec fn fragment_pass<C: WindingCount>(layout: GridLayout, segments: Seq<Segment<C>>, radius: int) -> (
    Seq<LineMark>,
    bool,
) {
    let groups = filled_groups(layout, segments, segments.len() as int);
    let borders = filled_borders(layout, segments, segments.len() as int);
    let sweep = columns_marks(groups, groups.len() as int, radius);
    (sweep.0 + borders_marks(layout, sorted_columns(groups), borders, borders.len() as int), sweep.1)
}

/// The working set that the grid strategy returns when it starts pass `iter`
/// with `segments`, and how the run ends. A working set for which no grid
/// can be laid out is handed to the tree strategy, which goes on with the
/// same pass.
pub open spec fn fragment_run<C: WindingCount>(solver: Solver, segments: Seq<Segment<C>>, iter: usize) -> (
    Seq<Segment<C>>,
    SplitEnd,
)
    decreases MAX_PASSES - iter,
{
    if segments.len() <= 2 {
        (segments, SplitEnd::Few)
    } else if iter >= MAX_PASSES || segments.len() > usize::MAX {
        (segments, SplitEnd::GaveUp)
    } else {
        match GridLayout::spec_new(segments) {
            None => tree_run(solver, segments, iter),
            Some(layout) => {
                let pass = fragment_pass(layout, segments, solver.spec_radius(iter));
                if pass.0.len() == 0 {
                    (segments, SplitEnd::Quiet)
                } else {
                    let next = applied(pass.0, segments);
                    if !pass.1 {
                        (next, SplitEnd::Exact)
                    } else {
                        fragment_run(solver, next, (iter + 1) as usize)
                    }
                }
            },
        }
    }
}

/// The working set that a split returns, and how the run of the last
/// strategy ended: the segments are put in order and handed to the strategy
/// that the settings name. The automatic strategy compares pair by pair
/// while the set is small and turns to the grid once it has grown; the grid
/// goes on with the pass that comes next.
pub open spec fn split_outcome<C: WindingCount>(solver: Solver, segments: Seq<Segment<C>>) -> (
    Seq<Segment<C>>,
    SplitEnd,
) {
    if segments.len() == 0 {
        (segments, SplitEnd::Few)
    } else {
        let start = prepared(segments);
        if solver.spec_is_list_split(start.len() as usize) {
            let list = list_run(solver, start, 0);
            if list.1 == SplitEnd::Outgrown {
                fragment_run(solver, list.0, list.2)
            } else {
                (list.0, list.1)
            }
        } else if solver.strategy == Strategy::Tree {
            tree_run(solver, start, 0)
        } else {
            fragment_run(solver, start, 0)
        }
    }
}

/// The working set that a split returns.
pub open spec fn split_run<C: WindingCount>(solver: Solver, segments: Seq<Segment<C>>) -> Seq<Segment<C>> {
    split_outcome(solver, segments).0
}

/// The greater ends that lie on the border at `border_x`, of the segments of
/// the first `k` fragments.
pub open spec fn border_points(fragments: Seq<Fragment>, k: int, border_x: int) -> Seq<IntPoint>
    decreases k,
{
    if k <= 0 {
        Seq::empty()
    } else {
        let prev = border_points(fragments, k - 1, border_x);
        if fragments[k - 1].x_segment.b.x == border_x {
            prev.push(fragments[k - 1].x_segment.b)
        } else {
            prev
        }
    }
}

/// The first position from `i` on whose point lies above `y`.
pub open spec fn skip_below(points: Seq<IntPoint>, i: int, y: int) -> int
    decreases points.len() - i,
{
    if 0 <= i < points.len() && points[i].y <= y {
        skip_below(points, i + 1, y)
    } else {
        i
    }
}

/// A mark on `s` for every point from `j` on that lies below the greater end
/// of `s`, up to the first that does not.
pub open spec fn marks_below(points: Seq<IntPoint>, j: int, s: IdSegment) -> Seq<LineMark>
    decreases points.len() - j,
{
    if 0 <= j < points.len() && points[j].y < s.x_segment.b.y {
        seq![LineMark { index: s.id, point: points[j] }] + marks_below(points, j + 1, s)
    } else {
        Seq::empty()
    }
}

/// The marks that points on a border leave on the vertical segments from `v`
/// on which lie on that border: a segment is cut at every point strictly
/// between its ends. Points and segments are taken from below.
pub open spec fn border_sweep(points: Seq<IntPoint>, verticals: Seq<IdSegment>, v: int, i: int) -> Seq<
    LineMark,
>
    decreases verticals.len() - v,
{
    if v < 0 || v >= verticals.len() {
        Seq::empty()
    } else {
        let first = skip_below(points, i, verticals[v].x_segment.a.y as int);
        marks_below(points, first, verticals[v]) + border_sweep(points, verticals, v + 1, first)
    }
}

/// The marks that the fragments of a column leave on the vertical segments
/// on its right border at `border_x`: the greater ends on the border and the
/// vertical segments are both taken from below, vertical segments with the
/// same lower end in the order in which they are given.
pub open spec fn border_marks(border_x: int, fragments: Seq<Fragment>, verticals: Seq<IdSegment>) -> Seq<
    LineMark,
> {
    border_sweep(
        sorted(border_points(fragments, fragments.len() as int, border_x)),
        from_below(verticals),
        0,
        0,
    )
}

/// Where no point lies on the border, no vertical segment is marked.
pub proof fn lemma_no_points_no_marks(verticals: Seq<IdSegment>, v: int, i: int)
    ensures
        border_sweep(Seq::<IntPoint>::empty(), verticals, v, i) == Seq::<LineMark>::empty(),
    decreases verticals.len() - v,
{
    if 0 <= v < verticals.len() {
        let points = Seq::<IntPoint>::empty();
        let first = skip_below(points, i, verticals[v].x_segment.a.y as int);
        lemma_no_points_no_marks(verticals, v + 1, first);
    }
}

/// The positions that `skip_below` gives lie between the start and the end.
pub proof fn lemma_skip_below(points: Seq<IntPoint>, i: int, y: int)
    requires
        0 <= i <= points.len(),
    ensures
        i <= skip_below(points, i, y) <= points.len(),
    decreases points.len() - i,
{
    if i < points.len() {
        lemma_skip_below(points, i + 1, y);
    }
}

/// What one column contributes when columns are swept side by side.
#[derive(Debug)]
pub struct TaskResult {
    pub any_round: bool,
    pub marks: Vec<LineMark>,
}

/// Sweeps every column with `ParallelIterator::map` of rayon over
/// `par_iter_mut`, and collects the outcomes in the order of the columns:
/// entry `i` is what `SplitSolver::bin_split_task` returns for column `i`,
/// and column `i` is left as that call leaves it.
#[verifier::external_body]
fn par_bin_split(radius: i64, groups: &mut Vec<Vec<Fragment>>) -> (results: Vec<TaskResult>)
    ensures
        results.len() == old(groups).len(),
        final(groups).len() == old(groups).len(),
        forall|i: int| 0 <= i < results.len() ==> (#[trigger] final(groups)@[i])@ == bin_sorted(old(groups)@[i]@),
        forall|i: int|
            0 <= i < results.len() ==> (#[trigger] results@[i]).marks@ == bin_marks(
                old(groups)@[i]@,
                radius as int,
            ).0 && results@[i].any_round == bin_marks(old(groups)@[i]@, radius as int).1,
{
    groups.par_iter_mut().map(|group| SplitSolver::bin_split_task(radius, group)).collect()
}

impl SplitSolver {
    /// Splits with the grid strategy from pass `iter` on and tells how the
    /// run ended. Each pass lays out a grid for the working set, sorts the
    /// segments into its columns, sweeps the columns, resolves what ends on a
    /// border, and applies the marks. The passes end when one finds no mark
    /// or needs no rounding, when fewer than three segments are left, or when
    /// passes can no longer be counted. A working set for which no grid can be laid
    /// out is handed to the tree strategy; see `fragment_run`.
    ///
    /// Where every segment has a length and the run ends because a pass finds
    /// no mark or needs no rounding, no two segments of the result cross in
    /// the interior of both. A run that ends for want of segments leaves at
    /// most two.
    pub fn fragment_split<C: WindingCount>(&self, segments: Vec<Segment<C>>, iter: usize) -> (r: (
        Vec<Segment<C>>,
        SplitEnd,
    ))
        ensures
            (r.0@, r.1) == fragment_run(self.solver, segments@, iter),
            all_wf(segments@) && is_settled(r.1) ==> no_crossings(r.0@) && no_pure_crossings(r.0@),
            r.1 == SplitEnd::Few ==> r.0.len() <= 2,
    {
        proof {
            if all_wf(segments@) && is_settled(fragment_run(self.solver, segments@, iter).1) {
                lemma_fragment_run_no_residual_crossings(self.solver, segments@, iter);
            }
        }
        let mut work: Vec<Segment<C>> = segments;
        let mut marks: Vec<LineMark> = Vec::new();
        let mut pass: usize = iter;
        while work.len() > 2 && pass < MAX_PASSES
            invariant
                fragment_run(self.solver, work@, pass) == fragment_run(self.solver, segments@, iter),
                all_wf(segments@) && is_settled(fragment_run(self.solver, segments@, iter).1) ==> no_crossings(
                    fragment_run(self.solver, segments@, iter).0,
                ) && no_pure_crossings(fragment_run(self.solver, segments@, iter).0),
            decreases MAX_PASSES - pass,
        {
            let layout: GridLayout = match GridLayout::new(&work) {
                Some(layout) => layout,
                None => {
                    return self.tree_split(work, pass);
                },
            };
            let mut buffer: FragmentBuffer = FragmentBuffer::new(layout);
            let n: usize = work.len();
            let mut i: usize = 0;
            while i < n
                invariant
                    n == work.len(),
                    i <= n,
                    buffer.wf(),
                    buffer.layout == layout,
                    views(buffer.groups@) == filled_groups(layout, work@, i as int),
                    views(buffer.on_border@) == filled_borders(layout, work@, i as int),
                    forall|k: int|
                        0 <= k < work.len() ==> layout.min_x <= (#[trigger] work@[k]).x_segment.spec_rect().min_x
                            && work@[k].x_segment.spec_rect().max_x <= layout.max_x,
                decreases n - i,
            {
                buffer.add_segment(i, work[i].x_segment);
                i += 1;
            }
            marks.clear();
            let ghost groups: Seq<Seq<Fragment>> = views(buffer.groups@);
            let ghost borders: Seq<Seq<IdSegment>> = views(buffer.on_border@);
            let need_to_fix: bool = self.process(pass, &mut buffer, &mut marks);
            let ghost swept: Seq<LineMark> = marks@;
            let columns: usize = buffer.on_border.len();
            let mut c: usize = 0;
            while c < columns
                invariant
                    buffer.wf(),
                    buffer.layout == layout,
                    columns == buffer.on_border.len(),
                    c <= columns,
                    views(buffer.groups@) == sorted_columns(groups),
                    borders.len() == columns,
                    forall|k: int| c <= k < columns ==> (#[trigger] buffer.on_border@[k])@ == borders[k],
                    marks@ == swept + borders_marks(layout, sorted_columns(groups), borders, c as int),
                decreases columns - c,
            {
                assert(views(buffer.groups@)[c as int] == buffer.groups@[c as int]@);
                if buffer.on_border[c].len() > 0 {
                    let border_x: i64 = buffer.layout.pos(c);
                    Self::on_border_split(border_x, &buffer.groups[c], &mut buffer.on_border[c], &mut marks);
                }
                c += 1;
            }
            proof {
                assert(groups.len() == layout.count);
                assert(marks@ == fragment_pass(layout, work@, self.solver.spec_radius(pass)).0);
            }
            if marks.len() == 0 {
                return (work, SplitEnd::Quiet);
            }
            work = self.apply(&marks, work);
            if !need_to_fix {
                return (work, SplitEnd::Exact);
            }
            pass += 1;
        }
        if work.len() <= 2 {
            (work, SplitEnd::Few)
        } else {
            (work, SplitEnd::GaveUp)
        }
    }

    /// Sweeps the columns of the buffer at the snap radius of pass `iter`,
    /// side by side where the settings ask for it and one after the other
    /// otherwise. Tells whether another pass is called for.
    pub fn process(&self, iter: usize, buffer: &mut FragmentBuffer, marks: &mut Vec<LineMark>) -> (r: bool)
        requires
            old(buffer).wf(),
        ensures
            final(buffer).wf(),
            final(buffer).layout == old(buffer).layout,
            final(buffer).on_border == old(buffer).on_border,
            columns_sorted(views(old(buffer).groups@), views(final(buffer).groups@)),
            final(marks)@ == old(marks)@ + columns_marks(
                views(old(buffer).groups@),
                old(buffer).groups.len() as int,
                self.solver.spec_radius(iter),
            ).0,
            r == columns_marks(
                views(old(buffer).groups@),
                old(buffer).groups.len() as int,
                self.solver.spec_radius(iter),
            ).1,
    {
        let radius: i64 = self.solver.radius(iter);
        if self.solver.multithreading.is_some() {
            Self::parallel_split(radius, buffer, marks)
        } else {
            Self::serial_split(radius, buffer, marks)
        }
    }

    /// Sweeps the columns one after the other.
    pub fn serial_split(radius: i64, buffer: &mut FragmentBuffer, marks: &mut Vec<LineMark>) -> (r: bool)
        requires
            old(buffer).wf(),
        ensures
            final(buffer).wf(),
            final(buffer).layout == old(buffer).layout,
            final(buffer).on_border == old(buffer).on_border,
            columns_sorted(views(old(buffer).groups@), views(final(buffer).groups@)),
            final(marks)@ == old(marks)@ + columns_marks(
                views(old(buffer).groups@),
                old(buffer).groups.len() as int,
                radius as int,
            ).0,
            r == columns_marks(views(old(buffer).groups@), old(buffer).groups.len() as int, radius as int).1,
    {
        let n: usize = buffer.groups.len();
        let mut is_any_round: bool = false;
        let mut c: usize = 0;
        while c < n
            invariant
                buffer.wf(),
                buffer.layout == old(buffer).layout,
                buffer.on_border == old(buffer).on_border,
                n == buffer.groups.len(),
                n == old(buffer).groups.len(),
                c <= n,
                forall|k: int| c <= k < n ==> buffer.groups@[k] == old(buffer).groups@[k],
                forall|k: int|
                    0 <= k < c ==> (#[trigger] buffer.groups@[k])@ == bin_sorted(old(buffer).groups@[k]@),
                marks@ == old(marks)@ + columns_marks(views(old(buffer).groups@), c as int, radius as int).0,
                is_any_round == columns_marks(views(old(buffer).groups@), c as int, radius as int).1,
            decreases n - c,
        {
            let any_round: bool = Self::bin_split(radius, &mut buffer.groups[c], marks);
            is_any_round = is_any_round || any_round;
            c += 1;
        }
        proof {
            assert(views(buffer.groups@) =~= sorted_columns(views(old(buffer).groups@)));
        }
        is_any_round
    }

    /// Sweeps the columns side by side and joins the outcomes in the order
    /// of the columns.
    pub fn parallel_split(radius: i64, buffer: &mut FragmentBuffer, marks: &mut Vec<LineMark>) -> (r: bool)
        requires
            old(buffer).wf(),
        ensures
            final(buffer).wf(),
            final(buffer).layout == old(buffer).layout,
            final(buffer).on_border == old(buffer).on_border,
            columns_sorted(views(old(buffer).groups@), views(final(buffer).groups@)),
            final(marks)@ == old(marks)@ + columns_marks(
                views(old(buffer).groups@),
                old(buffer).groups.len() as int,
                radius as int,
            ).0,
            r == columns_marks(views(old(buffer).groups@), old(buffer).groups.len() as int, radius as int).1,
    {
        let results: Vec<TaskResult> = par_bin_split(radius, &mut buffer.groups);
        proof {
            assert(views(buffer.groups@) =~= sorted_columns(views(old(buffer).groups@)));
        }
        let n: usize = results.len();
        let mut is_any_round: bool = false;
        let mut c: usize = 0;
        while c < n
            invariant
                n == results.len(),
                n == old(buffer).groups.len(),
                c <= n,
                forall|i: int|
                    0 <= i < results.len() ==> (#[trigger] results@[i]).marks@ == bin_marks(
                        old(buffer).groups@[i]@,
                        radius as int,
                    ).0 && results@[i].any_round == bin_marks(old(buffer).groups@[i]@, radius as int).1,
                marks@ == old(marks)@ + columns_marks(views(old(buffer).groups@), c as int, radius as int).0,
                is_any_round == columns_marks(views(old(buffer).groups@), c as int, radius as int).1,
            decreases n - c,
        {
            let any_round: bool = results[c].any_round;
            let count: usize = results[c].marks.len();
            let ghost before: Seq<LineMark> = marks@;
            let mut k: usize = 0;
            while k < count
                invariant
                    c < n,
                    n == results.len(),
                    count == results@[c as int].marks@.len(),
                    k <= count,
                    marks@ == before + results@[c as int].marks@.subrange(0, k as int),
                decreases count - k,
            {
                marks.push(results[c].marks[k]);
                k += 1;
            }
            proof {
                let part = results@[c as int].marks@;
                assert(part.subrange(0, count as int) == part);
            }
            is_any_round = is_any_round || any_round;
            c += 1;
        }
        is_any_round
    }

    /// Sweeps one column into a list of marks of its own.
    pub fn bin_split_task(radius: i64, fragments: &mut Vec<Fragment>) -> (r: TaskResult)
        ensures
            final(fragments)@ == bin_sorted(old(fragments)@),
            r.marks@ == bin_marks(old(fragments)@, radius as int).0,
            r.any_round == bin_marks(old(fragments)@, radius as int).1,
    {
        let mut marks: Vec<LineMark> = Vec::new();
        let any_round: bool = Self::bin_split(radius, fragments, &mut marks);
        TaskResult { any_round, marks }
    }

    /// Sweeps one column: sorts its fragments by their lower border and
    /// tests each against those that follow until one starts above it. Pairs
    /// whose rectangles are apart are passed over; the lesser segment of a
    /// pair is tested as the first, so that the outcome does not depend on
    /// the order in the column.
    pub fn bin_split(radius: i64, fragments: &mut Vec<Fragment>, marks: &mut Vec<LineMark>) -> (r: bool)
        ensures
            final(fragments)@ == bin_sorted(old(fragments)@),
            final(marks)@ == old(marks)@ + bin_marks(old(fragments)@, radius as int).0,
            r == bin_marks(old(fragments)@, radius as int).1,
    {
        if fragments.len() < 2 {
            return false;
        }
        sort(fragments);
        let n: usize = fragments.len();
        let mut any_round: bool = false;
        let mut i: usize = 0;
        while i < n
            invariant
                n == fragments.len(),
                i <= n,
                marks@ + bin_rows(fragments@, i as int, radius as int).0 == old(marks)@ + bin_rows(
                    fragments@,
                    0,
                    radius as int,
                ).0,
                (any_round || bin_rows(fragments@, i as int, radius as int).1) == bin_rows(
                    fragments@,
                    0,
                    radius as int,
                ).1,
            decreases n - i,
        {
            let fi: Fragment = fragments[i];
            let ghost before: Seq<LineMark> = marks@;
            let ghost any_before: bool = any_round;
            let mut j: usize = i + 1;
            while j < n && fi.rect.max_y >= fragments[j].rect.min_y
                invariant
                    n == fragments.len(),
                    i < j <= n,
                    fi == fragments@[i as int],
                    marks@ + bin_row(fragments@, i as int, j as int, radius as int).0 == before + bin_row(
                        fragments@,
                        i as int,
                        i as int + 1,
                        radius as int,
                    ).0,
                    (any_round || bin_row(fragments@, i as int, j as int, radius as int).1) == (any_before
                        || bin_row(fragments@, i as int, i as int + 1, radius as int).1),
                decreases n - j,
            {
                let fj: Fragment = fragments[j];
                if fi.rect.is_intersect_border_include(&fj.rect) {
                    let is_round: bool = if fi.x_segment.less(&fj.x_segment) {
                        Self::cross_fragments(&fi, &fj, marks, radius)
                    } else {
                        Self::cross_fragments(&fj, &fi, marks, radius)
                    };
                    any_round = any_round || is_round;
                }
                j += 1;
            }
            i += 1;
        }
        any_round
    }

    /// Resolves what ends on the border at `border_x`. Where no segment of
    /// `fragments` has its greater end on the border, nothing is changed.
    /// Otherwise the vertical segments are put in the order from below, those
    /// with the same lower end staying as they came, and every one of them is
    /// marked at each of these greater ends that lies strictly between its
    /// ends.
    pub fn on_border_split(
        border_x: i64,
        fragments: &Vec<Fragment>,
        vertical_segments: &mut Vec<IdSegment>,
        marks: &mut Vec<LineMark>,
    )
        ensures
            final(vertical_segments)@ == if border_points(
                fragments@,
                fragments@.len() as int,
                border_x as int,
            ).len() == 0 {
                old(vertical_segments)@
            } else {
                from_below(old(vertical_segments)@)
            },
            final(marks)@ == if border_points(fragments@, fragments@.len() as int, border_x as int).len() == 0 {
                old(marks)@
            } else {
                old(marks)@ + border_marks(border_x as int, fragments@, old(vertical_segments)@)
            },
            final(marks)@ == old(marks)@ + border_marks(border_x as int, fragments@, old(vertical_segments)@),
    {
        let mut points: Vec<IntPoint> = Vec::new();
        let count: usize = fragments.len();
        let mut k: usize = 0;
        while k < count
            invariant
                count == fragments.len(),
                k <= count,
                points@ == border_points(fragments@, k as int, border_x as int),
            decreases count - k,
        {
            if fragments[k].x_segment.b.x as i64 == border_x {
                points.push(fragments[k].x_segment.b);
            }
            k += 1;
        }
        if points.len() == 0 {
            proof {
                lemma_sorted_ensures(points@);
                vstd::seq_lib::to_multiset_len(points@);
                vstd::seq_lib::to_multiset_len(sorted(points@));
                assert(sorted(points@) =~= Seq::<IntPoint>::empty());
                lemma_no_points_no_marks(from_below(vertical_segments@), 0, 0);
                assert(marks@ + Seq::<LineMark>::empty() =~= marks@);
            }
            return ;
        }
        sort(&mut points);
        sort_from_below(vertical_segments);
        let n: usize = points.len();
        let m: usize = vertical_segments.len();
        let mut i: usize = 0;
        let mut v: usize = 0;
        while v < m
            invariant
                n == points.len(),
                m == vertical_segments.len(),
                v <= m,
                i <= n,
                marks@ + border_sweep(points@, vertical_segments@, v as int, i as int) == old(marks)@
                    + border_sweep(points@, vertical_segments@, 0, 0),
            decreases m - v,
        {
            let s: IdSegment = vertical_segments[v];
            let ghost i_in: int = i as int;
            while i < n && points[i].y <= s.x_segment.a.y
                invariant
                    n == points.len(),
                    i <= n,
                    skip_below(points@, i as int, s.x_segment.a.y as int) == skip_below(
                        points@,
                        i_in,
                        s.x_segment.a.y as int,
                    ),
                decreases n - i,
            {
                i += 1;
            }
            let ghost before: Seq<LineMark> = marks@;
            let mut j: usize = i;
            while j < n && points[j].y < s.x_segment.b.y
                invariant
                    n == points.len(),
                    i <= j <= n,
                    marks@ + marks_below(points@, j as int, s) == before + marks_below(
                        points@,
                        i as int,
                        s,
                    ),
                decreases n - j,
            {
                marks.push(LineMark { index: s.id, point: points[j] });
                j += 1;
            }
            v += 1;
        }
    }
}

} // verus!

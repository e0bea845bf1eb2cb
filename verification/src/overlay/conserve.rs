use vstd::prelude::*;
use crate::geom::point::IntPoint;
use crate::geom::rect::LineRange;
use crate::overlay::order::{lemma_paths_segments_wf, overlay_segments};
use crate::overlay::winding::{
    beyond, counted, crosses_line, crossing, lemma_counted_parts, lemma_counted_prefix, lemma_counted_sum,
    lemma_line_balance, passing,
};
use crate::segm::count::{ShapeCountBoolean, ShapeType, WindingCount};
use crate::segm::merge::{merged, merged_prefix};
use crate::segm::segment::{all_wf, Segment};
use crate::solver::{Solver, Strategy};
use crate::sort::{lemma_sorted_ensures, sorted};
use crate::split::cut::{chain, cut_from, cut_marks, piece, run_end, skip_to, CutMark};
use crate::split::grid_layout::GridLayout;
use crate::split::line_mark::LineMark;
use crate::split::list_laws::{lemma_applied_sorted, lemma_prepared_sorted};
use crate::split::segment_tree::{levels_of, new_nodes};
use crate::split::solver::{applied, cut_pieces, list_rows, list_run, prepared, SplitEnd, MAX_PASSES};
use crate::split::solver_fragment::{fragment_pass, fragment_run, split_run};
use crate::split::solver_tree::{
    complex_run, is_inflated, simple_run, spec_ver_range, tree_pass_from, tree_run, wholes,
};
use crate::split::space_layout::{SpaceLayout, MIN_HEIGHT};

verus! {

/// Whether two sums of contributions are the same winding count: counts
/// wrap round at 32 bits.
pub open spec fn same_winding(a: (int, int), b: (int, int)) -> bool {
    (a.0 - b.0) % 0x1_0000_0000 == 0 && (a.1 - b.1) % 0x1_0000_0000 == 0
}

/// The sum of the contributions of the segments that cross the vertical line
/// at `x`.
pub open spec fn line_sum(segments: Seq<Segment<ShapeCountBoolean>>, x: int) -> (int, int) {
    counted(segments, segments.len() as int, crossing(x))
}

/// What one segment adds to the sum across the vertical line at `x`.
pub open spec fn line_part(s: Segment<ShapeCountBoolean>, x: int) -> (int, int) {
    if crosses_line(s.x_segment, x) {
        (s.count.subj as int, s.count.clip as int)
    } else {
        (0, 0)
    }
}

/// The sum over a list with one segment more at its end.
pub proof fn lemma_line_sum_push(segments: Seq<Segment<ShapeCountBoolean>>, s: Segment<ShapeCountBoolean>, x: int)
    ensures
        line_sum(segments.push(s), x).0 == line_sum(segments, x).0 + line_part(s, x).0,
        line_sum(segments.push(s), x).1 == line_sum(segments, x).1 + line_part(s, x).1,
{
    lemma_counted_prefix(segments.push(s), segments, segments.len() as int, crossing(x));
}

/// The sum over two lists, one after the other.
pub proof fn lemma_line_sum_add(a: Seq<Segment<ShapeCountBoolean>>, b: Seq<Segment<ShapeCountBoolean>>, x: int)
    ensures
        line_sum(a + b, x).0 == line_sum(a, x).0 + line_sum(b, x).0,
        line_sum(a + b, x).1 == line_sum(a, x).1 + line_sum(b, x).1,
{
    lemma_counted_sum(a, b, b.len() as int, crossing(x));
}

/// The sum over a list into which a segment is put, wherever it is put.
pub proof fn lemma_line_sum_insert(
    segments: Seq<Segment<ShapeCountBoolean>>,
    k: int,
    s: Segment<ShapeCountBoolean>,
    x: int,
)
    requires
        0 <= k <= segments.len(),
    ensures
        line_sum(segments.insert(k, s), x).0 == line_sum(segments, x).0 + line_part(s, x).0,
        line_sum(segments.insert(k, s), x).1 == line_sum(segments, x).1 + line_part(s, x).1,
    decreases segments.len(),
{
    let longer = segments.insert(k, s);
    if k == segments.len() {
        assert(longer =~= segments.push(s));
        lemma_line_sum_push(segments, s, x);
    } else {
        let last = segments.last();
        let shorter = segments.drop_last();
        assert(longer =~= shorter.insert(k, s).push(last));
        assert(segments =~= shorter.push(last));
        lemma_line_sum_insert(shorter, k, s, x);
        lemma_line_sum_push(shorter.insert(k, s), last, x);
        lemma_line_sum_push(shorter, last, x);
    }
}

/// Lists that hold the same segments have the same sum.
pub proof fn lemma_line_sum_of_permutation(
    a: Seq<Segment<ShapeCountBoolean>>,
    b: Seq<Segment<ShapeCountBoolean>>,
    x: int,
)
    requires
        a.to_multiset() == b.to_multiset(),
    ensures
        line_sum(a, x) == line_sum(b, x),
    decreases a.len(),
{
    vstd::seq_lib::to_multiset_len(a);
    vstd::seq_lib::to_multiset_len(b);
    if a.len() == 0 {
        assert(a =~= b);
    } else {
        let s = a.last();
        let rest = a.drop_last();
        a.to_multiset_ensures();
        b.to_multiset_ensures();
        assert(a.contains(s));
        assert(b.to_multiset().count(s) > 0);
        assert(b.contains(s));
        let k = choose|k: int| 0 <= k < b.len() && b[k] == s;
        let others = b.remove(k);
        assert(a =~= rest.push(s));
        assert(b =~= others.insert(k, s));
        vstd::seq_lib::to_multiset_remove(b, k);
        vstd::seq_lib::to_multiset_remove(a, a.len() - 1);
        assert(a.remove(a.len() - 1) =~= rest);
        assert(rest.to_multiset() == others.to_multiset());
        lemma_line_sum_of_permutation(rest, others, x);
        lemma_line_sum_push(rest, s, x);
        lemma_line_sum_insert(others, k, s, x);
    }
}

/// The number of sides of the line that lie between two points: 1 from left
/// to right, -1 from right to left.
pub open spec fn sides(from: IntPoint, to: IntPoint, x: int) -> int {
    beyond(to, x) - beyond(from, x)
}

/// A piece adds its contribution where it runs across the line from left to
/// right, and the opposite where it runs across from right to left.
pub proof fn lemma_piece_sum(a: IntPoint, b: IntPoint, count: ShapeCountBoolean, x: int)
    ensures
        same_winding(
            line_sum(piece(a, b, count), x),
            (count.subj * sides(a, b, x), count.clip * sides(a, b, x)),
        ),
{
    let d = sides(a, b, x);
    let list = piece(a, b, count);
    if a == b {
        assert(count.subj * d == 0) by (nonlinear_arith)
            requires
                d == 0,
        ;
        assert(count.clip * d == 0) by (nonlinear_arith)
            requires
                d == 0,
        ;
    } else {
        let s = Segment::spec_create_and_validate(a, b, count);
        assert(list =~= Seq::<Segment<ShapeCountBoolean>>::empty().push(s));
        lemma_line_sum_push(Seq::<Segment<ShapeCountBoolean>>::empty(), s, x);
        if d == 0 {
            assert(count.subj * d == 0) by (nonlinear_arith)
                requires
                    d == 0,
            ;
            assert(count.clip * d == 0) by (nonlinear_arith)
                requires
                    d == 0,
            ;
        } else if d == 1 {
            assert(count.subj * d == count.subj) by (nonlinear_arith)
                requires
                    d == 1,
            ;
            assert(count.clip * d == count.clip) by (nonlinear_arith)
                requires
                    d == 1,
            ;
        } else {
            assert(count.subj * d == -count.subj) by (nonlinear_arith)
                requires
                    d == -1,
            ;
            assert(count.clip * d == -count.clip) by (nonlinear_arith)
                requires
                    d == -1,
            ;
        }
    }
}

/// The pieces of a chain add what one piece from its start to its end adds.
pub proof fn lemma_chain_sum(
    from: IntPoint,
    cuts: Seq<CutMark>,
    k: int,
    e: int,
    to: IntPoint,
    count: ShapeCountBoolean,
    x: int,
)
    ensures
        same_winding(
            line_sum(chain(from, cuts, k, e, to, count), x),
            (count.subj * sides(from, to, x), count.clip * sides(from, to, x)),
        ),
    decreases e - k,
{
    if k >= e {
        lemma_piece_sum(from, to, count, x);
    } else {
        let mid = cuts[k].point;
        lemma_piece_sum(from, mid, count, x);
        lemma_chain_sum(mid, cuts, k + 1, e, to, count, x);
        lemma_line_sum_add(piece(from, mid, count), chain(mid, cuts, k + 1, e, to, count), x);
        let d1 = sides(from, mid, x);
        let d2 = sides(mid, to, x);
        assert(count.subj * d1 + count.subj * d2 == count.subj * (d1 + d2)) by (nonlinear_arith);
        assert(count.clip * d1 + count.clip * d2 == count.clip * (d1 + d2)) by (nonlinear_arith);
    }
}

/// The pieces of the segments from `i` on add what these segments add.
pub proof fn lemma_cut_from_sum(
    segments: Seq<Segment<ShapeCountBoolean>>,
    cuts: Seq<CutMark>,
    i: int,
    k: int,
    x: int,
)
    requires
        all_wf(segments),
        0 <= i <= segments.len(),
    ensures
        same_winding(
            line_sum(cut_from(segments, cuts, i, k), x),
            (
                line_sum(segments, x).0 - counted(segments, i, crossing(x)).0,
                line_sum(segments, x).1 - counted(segments, i, crossing(x)).1,
            ),
        ),
    decreases segments.len() - i,
{
    if i < segments.len() {
        let k0 = skip_to(cuts, k, i);
        let k1 = run_end(cuts, k0, i);
        let s = segments[i];
        let d = sides(s.x_segment.a, s.x_segment.b, x);
        assert(s.x_segment.wf());
        lemma_chain_sum(s.x_segment.a, cuts, k0, k1, s.x_segment.b, s.count, x);
        lemma_cut_from_sum(segments, cuts, i + 1, k1, x);
        lemma_line_sum_add(
            chain(s.x_segment.a, cuts, k0, k1, s.x_segment.b, s.count),
            cut_from(segments, cuts, i + 1, k1),
            x,
        );
        if crosses_line(s.x_segment, x) {
            assert(d == 1);
            assert(s.count.subj * d == s.count.subj) by (nonlinear_arith)
                requires
                    d == 1,
            ;
            assert(s.count.clip * d == s.count.clip) by (nonlinear_arith)
                requires
                    d == 1,
            ;
        } else {
            assert(d == 0);
            assert(s.count.subj * d == 0) by (nonlinear_arith)
                requires
                    d == 0,
            ;
            assert(s.count.clip * d == 0) by (nonlinear_arith)
                requires
                    d == 0,
            ;
        }
    }
}

/// What the run that is still open adds.
pub open spec fn open_part(open: Option<Segment<ShapeCountBoolean>>, x: int) -> (int, int) {
    match open {
        Some(cur) => line_part(cur, x),
        None => (0, 0),
    }
}

/// Merging the first `n` segments keeps their sum.
pub proof fn lemma_merged_prefix_sum(segments: Seq<Segment<ShapeCountBoolean>>, n: int, x: int)
    requires
        0 <= n <= segments.len(),
    ensures
        same_winding(
            (
                line_sum(merged_prefix(segments, n).0, x).0 + open_part(merged_prefix(segments, n).1, x).0,
                line_sum(merged_prefix(segments, n).0, x).1 + open_part(merged_prefix(segments, n).1, x).1,
            ),
            counted(segments, n, crossing(x)),
        ),
    decreases n,
{
    if n > 0 {
        lemma_merged_prefix_sum(segments, n - 1, x);
        let before = merged_prefix(segments, n - 1);
        let next = segments[n - 1];
        match before.1 {
            None => {},
            Some(cur) => {
                if cur.x_segment == next.x_segment {
                } else if cur.count.spec_is_not_empty() {
                    lemma_line_sum_push(before.0, cur, x);
                } else {
                }
            },
        }
    }
}

/// Merging keeps the sum across every vertical line.
pub proof fn lemma_merged_sum(segments: Seq<Segment<ShapeCountBoolean>>, x: int)
    ensures
        same_winding(line_sum(merged(segments), x), line_sum(segments, x)),
{
    let last = merged_prefix(segments, segments.len() as int);
    lemma_merged_prefix_sum(segments, segments.len() as int, x);
    match last.1 {
        Some(cur) => {
            if cur.count.spec_is_not_empty() {
                lemma_line_sum_push(last.0, cur, x);
            }
        },
        None => {},
    }
}

/// Putting a working set in order keeps the sum across every vertical line.
pub proof fn lemma_prepared_sum(segments: Seq<Segment<ShapeCountBoolean>>, x: int)
    ensures
        same_winding(line_sum(prepared(segments), x), line_sum(segments, x)),
{
    lemma_sorted_ensures(segments);
    lemma_line_sum_of_permutation(sorted(segments), segments, x);
    lemma_merged_sum(sorted(segments), x);
}

/// Applying marks keeps the sum across every vertical line: every piece
/// carries the contribution of the segment that it is cut from, and
/// coinciding pieces their joint contribution.
pub proof fn lemma_applied_sum(marks: Seq<LineMark>, segments: Seq<Segment<ShapeCountBoolean>>, x: int)
    requires
        all_wf(segments),
    ensures
        same_winding(line_sum(applied(marks, segments), x), line_sum(segments, x)),
{
    let cuts = sorted(cut_marks(marks, segments, marks.len() as int));
    lemma_cut_from_sum(segments, cuts, 0, 0, x);
    lemma_prepared_sum(cut_pieces(marks, segments), x);
}

/// A run of the list strategy keeps the sum across every vertical line.
pub proof fn lemma_list_run_sum(solver: Solver, segments: Seq<Segment<ShapeCountBoolean>>, iter: usize, x: int)
    requires
        all_wf(segments),
    ensures
        same_winding(line_sum(list_run(solver, segments, iter).0, x), line_sum(segments, x)),
        all_wf(list_run(solver, segments, iter).0),
    decreases MAX_PASSES - iter,
{
    if segments.len() > 2 && iter < MAX_PASSES && segments.len() <= usize::MAX {
        let pass = list_rows(segments, 0, solver.spec_radius(iter));
        if pass.0.len() > 0 {
            let next = applied(pass.0, segments);
            lemma_applied_sum(pass.0, segments, x);
            lemma_applied_sorted(pass.0, segments);
            if solver.spec_is_list_split(next.len() as usize) && pass.1 {
                lemma_list_run_sum(solver, next, (iter + 1) as usize, x);
            }
        }
    }
}

/// A run of the tree of whole segments keeps the sum across every vertical
/// line.
pub proof fn lemma_simple_run_sum(
    solver: Solver,
    range: LineRange,
    power: usize,
    segments: Seq<Segment<ShapeCountBoolean>>,
    iter: usize,
    x: int,
)
    requires
        all_wf(segments),
    ensures
        same_winding(line_sum(simple_run(solver, range, power, segments, iter).0, x), line_sum(segments, x)),
    decreases MAX_PASSES - iter,
{
    if segments.len() > 2 && iter < MAX_PASSES && segments.len() <= usize::MAX {
        let pass = tree_pass_from(
            new_nodes(range, power),
            levels_of(power),
            wholes(segments, segments.len() as int),
            0,
            solver.spec_radius(iter),
        );
        if pass.0.len() > 0 {
            let next = applied(pass.0, segments);
            lemma_applied_sum(pass.0, segments, x);
            lemma_applied_sorted(pass.0, segments);
            if pass.1 {
                lemma_simple_run_sum(solver, range, power, next, (iter + 1) as usize, x);
            }
        }
    }
}

/// A run of the tree of fragments keeps the sum across every vertical line.
pub proof fn lemma_complex_run_sum(
    solver: Solver,
    range: LineRange,
    layout: SpaceLayout,
    segments: Seq<Segment<ShapeCountBoolean>>,
    iter: usize,
    x: int,
)
    requires
        all_wf(segments),
    ensures
        same_winding(line_sum(complex_run(solver, range, layout, segments, iter).0, x), line_sum(segments, x)),
    decreases MAX_PASSES - iter,
{
    if segments.len() > 2 && iter < MAX_PASSES && segments.len() <= usize::MAX {
        let fragments = layout.all_broken(segments, segments.len() as int);
        if is_inflated(fragments.len(), segments.len()) {
            lemma_simple_run_sum(solver, range, layout.power, segments, iter, x);
        } else {
            let pass = tree_pass_from(
                new_nodes(range, layout.power),
                levels_of(layout.power),
                fragments,
                0,
                solver.spec_radius(iter),
            );
            if pass.0.len() > 0 {
                let next = applied(pass.0, segments);
                lemma_applied_sum(pass.0, segments, x);
                lemma_applied_sorted(pass.0, segments);
                if pass.1 {
                    lemma_complex_run_sum(solver, range, layout, next, (iter + 1) as usize, x);
                }
            }
        }
    }
}

/// A run of the tree strategy keeps the sum across every vertical line.
pub proof fn lemma_tree_run_sum(solver: Solver, segments: Seq<Segment<ShapeCountBoolean>>, iter: usize, x: int)
    requires
        all_wf(segments),
    ensures
        same_winding(line_sum(tree_run(solver, segments, iter).0, x), line_sum(segments, x)),
{
    if segments.len() > 2 {
        let range = spec_ver_range(segments);
        let height = range.spec_width() as usize;
        let list = list_run(solver, segments, iter);
        let work = if height < MIN_HEIGHT {
            list.0
        } else {
            segments
        };
        let at = if height < MIN_HEIGHT {
            list.2
        } else {
            iter
        };
        lemma_list_run_sum(solver, segments, iter, x);
        let layout = SpaceLayout::spec_new(height, work.len() as usize);
        if layout.count_required(work, work.len() as int) * 20 > work.len() {
            lemma_simple_run_sum(solver, range, layout.power, work, at, x);
        } else {
            lemma_complex_run_sum(solver, range, layout, work, at, x);
        }
    }
}

/// A run of the grid strategy keeps the sum across every vertical line.
pub proof fn lemma_fragment_run_sum(solver: Solver, segments: Seq<Segment<ShapeCountBoolean>>, iter: usize, x: int)
    requires
        all_wf(segments),
    ensures
        same_winding(line_sum(fragment_run(solver, segments, iter).0, x), line_sum(segments, x)),
    decreases MAX_PASSES - iter,
{
    if segments.len() > 2 && iter < MAX_PASSES && segments.len() <= usize::MAX {
        match GridLayout::spec_new(segments) {
            None => {
                lemma_tree_run_sum(solver, segments, iter, x);
            },
            Some(layout) => {
                let pass = fragment_pass(layout, segments, solver.spec_radius(iter));
                if pass.0.len() > 0 {
                    let next = applied(pass.0, segments);
                    lemma_applied_sum(pass.0, segments, x);
                    lemma_applied_sorted(pass.0, segments);
                    if pass.1 {
                        lemma_fragment_run_sum(solver, next, (iter + 1) as usize, x);
                    }
                }
            },
        }
    }
}

/// Splitting conserves winding: across every vertical line, the segments
/// that a split returns add the same winding count as the segments that it
/// was given, whatever the strategy and however the run ends. Every piece
/// carries the contribution of the segment it is cut from, turned where the
/// piece is turned, and coinciding pieces carry their joint contribution.
pub proof fn lemma_split_conserves_winding(solver: Solver, segments: Seq<Segment<ShapeCountBoolean>>, x: int)
    requires
        all_wf(segments),
    ensures
        same_winding(line_sum(split_run(solver, segments), x), line_sum(segments, x)),
{
    if segments.len() > 0 {
        let start = prepared(segments);
        lemma_prepared_sum(segments, x);
        lemma_prepared_sorted(segments);
        if solver.spec_is_list_split(start.len() as usize) {
            let list = list_run(solver, start, 0);
            lemma_list_run_sum(solver, start, 0, x);
            if list.1 == SplitEnd::Outgrown {
                lemma_fragment_run_sum(solver, list.0, list.2, x);
            }
        } else if solver.strategy == Strategy::Tree {
            lemma_tree_run_sum(solver, start, 0, x);
        } else {
            lemma_fragment_run_sum(solver, start, 0, x);
        }
    }
}

/// Winding conservation through the split: of the segments that a split
/// returns for closed subject paths and closed clip paths, those that cross
/// a vertical line add nothing to the winding count.
pub proof fn lemma_split_line_balance(
    subject: Seq<Seq<IntPoint>>,
    clip: Seq<Seq<IntPoint>>,
    solver: Solver,
    x: int,
)
    ensures
        same_winding(line_sum(split_run(solver, overlay_segments(subject, clip)), x), (0, 0)),
{
    let segments = overlay_segments(subject, clip);
    lemma_paths_segments_wf(subject, subject.len() as int, ShapeType::Subject);
    lemma_paths_segments_wf(clip, clip.len() as int, ShapeType::Clip);
    lemma_line_balance(subject, clip, x);
    lemma_split_conserves_winding(solver, segments, x);
}

/// Winding conservation at a point, through the split: for closed subject
/// paths and closed clip paths and a point that no segment of the split
/// passes through, the winding count of the segments of the split that pass
/// below the point is the opposite of that of the segments that pass above
/// it. So the winding number at the point is the same counted from below and
/// from above, and it is that of the paths, whose segments add the same
/// across the line.
pub proof fn lemma_split_winding_conservation(
    subject: Seq<Seq<IntPoint>>,
    clip: Seq<Seq<IntPoint>>,
    solver: Solver,
    p: IntPoint,
)
    requires
        ({
            let split = split_run(solver, overlay_segments(subject, clip));
            forall|i: int| 0 <= i < split.len() ==> !passing(p, 0)(#[trigger] split[i].x_segment)
        }),
    ensures
        ({
            let split = split_run(solver, overlay_segments(subject, clip));
            let below = counted(split, split.len() as int, passing(p, 1));
            let above = counted(split, split.len() as int, passing(p, -1));
            same_winding((below.0 + above.0, below.1 + above.1), (0, 0))
        }),
{
    let split = split_run(solver, overlay_segments(subject, clip));
    lemma_split_line_balance(subject, clip, solver, p.x as int);
    assert forall|i: int| 0 <= i < split.len() implies crossing(p.x as int)(split[i].x_segment) == (passing(p, 1)(
        split[i].x_segment,
    ) || passing(p, -1)(split[i].x_segment)) by {
        assert(!passing(p, 0)(split[i].x_segment));
    }
    lemma_counted_parts(split, split.len() as int, crossing(p.x as int), passing(p, 1), passing(p, -1));
}

} // verus!

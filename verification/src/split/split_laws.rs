use vstd::prelude::*;
use crate::geom::arith::abs;
use crate::geom::point::area_two;
use crate::segm::count::WindingCount;
use crate::segm::segment::{all_wf, Segment};
use crate::solver::{lemma_pow2_monotonic, pow2, Solver, Strategy};
use crate::split::apply_laws::marks_inside;
use crate::split::cross_laws::lemma_cross_symmetric;
use crate::split::cross_solver::CrossSolver;
use crate::split::grid_laws::{all_in_extent, column_of, in_extent, lemma_filled_holds, lemma_filled_of};
use crate::split::grid_layout::{
    extent, filled_borders, filled_groups, lemma_pow2_32, GridLayout, MAX_COLUMNS, SEGMENTS_PER_COLUMN,
};
use crate::split::list_laws::{
    lemma_applied_sorted, lemma_inside_sum, lemma_list_run_no_residual_crossings, lemma_no_crossings_is_no_pure,
    lemma_prepared_sorted, lemma_whole_part, no_crossings, no_pure_crossings,
};
use crate::split::pass_laws::{
    complete, fragment_of, joint, lemma_complete_exact, lemma_complete_quiet, lemma_from_pairs_inside, lemma_includes_chain,
    lemma_joint_includes, pair_included, tested_point,
};
use crate::split::segment_tree::ordered_cross_marks;
use crate::split::slab_laws::{
    holds_real, lemma_holds_cut_point, lemma_list_run_wf, lemma_meeting_point_of_other,
    lemma_tree_run_no_residual_crossings, meeting_point,
};
use crate::split::solver::{applied, list_run, prepared, SplitEnd, MAX_PASSES};
use crate::split::solver_fragment::{
    bin_marks, borders_marks, columns_marks, fragment_pass, fragment_run, sorted_columns, split_outcome, split_run,
};
use crate::split::sweep_laws::{
    lemma_bin_marks_includes, lemma_borders_marks_inside, lemma_columns_from_pairs, lemma_columns_includes,
    lemma_filled_borders,
};

verus! {

/// The extent of the first `n` segments bounds each of them.
pub proof fn lemma_extent<C: WindingCount>(segments: Seq<Segment<C>>, n: int)
    requires
        0 <= n <= segments.len(),
        segments.len() > 0,
    ensures
        extent(segments, n).rect.min_x <= extent(segments, n).rect.max_x,
        extent(segments, n).total >= 0,
        forall|k: int|
            0 <= k < n ==> extent(segments, n).rect.min_x <= (#[trigger] segments[k]).x_segment.spec_rect().min_x
                && segments[k].x_segment.spec_rect().max_x <= extent(segments, n).rect.max_x,
    decreases n,
{
    if n > 0 {
        lemma_extent(segments, n - 1);
    }
}

/// The width that the search for a width returns is one of at most two to
/// the power 32 that gives no more columns than the limit.
pub proof fn lemma_width_from(dx: int, total: int, limit: int, span_limit: int, power: nat, width: int)
    requires
        0 <= dx <= 0xffff_ffff,
        1 <= limit,
        power <= 32,
        width == pow2(power),
    ensures
        1 <= GridLayout::width_from(dx, total, limit, span_limit, power, width) <= 0x1_0000_0000,
        dx / GridLayout::width_from(dx, total, limit, span_limit, power, width) + 1 <= limit,
    decreases 32 - power,
{
    lemma_pow2_monotonic(power, 32);
    lemma_pow2_32();
    if power < 32 && width >= 1 && (dx / width + 1 > limit || total / width > span_limit) {
        lemma_width_from(dx, total, limit, span_limit, power + 1, 2 * width);
    } else if power == 32 {
        assert(dx / width == 0) by (nonlinear_arith)
            requires
                0 <= dx <= 0xffff_ffff,
                width == 0x1_0000_0000,
        ;
    }
}

/// The grid that is laid out for a working set of well-formed segments is
/// well formed and its extent holds every segment.
pub proof fn lemma_layout<C: WindingCount>(segments: Seq<Segment<C>>)
    requires
        all_wf(segments),
        GridLayout::spec_new(segments) is Some,
    ensures
        GridLayout::spec_new(segments)->0.wf(),
        all_in_extent(GridLayout::spec_new(segments)->0, segments),
{
    let n = segments.len() as int;
    let layout = GridLayout::spec_new(segments)->0;
    lemma_extent(segments, n);
    let e = extent(segments, n);
    let dx = e.rect.max_x - e.rect.min_x;
    let by_count = segments.len() / (SEGMENTS_PER_COLUMN as nat);
    let limit: int = if by_count < 1 {
        1
    } else if by_count > MAX_COLUMNS {
        MAX_COLUMNS as int
    } else {
        by_count as int
    };
    assert(pow2(0) == 1);
    lemma_width_from(dx, e.total, limit, 3 * n, 0, 1);
    let width = GridLayout::width_from(dx, e.total, limit, 3 * n, 0, 1);
    assert(dx / width >= 0) by (nonlinear_arith)
        requires
            dx >= 0,
            width >= 1,
    ;
    assert forall|k: int| 0 <= k < segments.len() implies in_extent(layout, (#[trigger] segments[k]).x_segment) by {
        assert(segments[k].x_segment.wf());
    }
}

/// A pass of the grid strategy tests every pair of segments that cross
/// properly, and its marks lie strictly within their segments where it calls
/// for no other pass.
pub proof fn lemma_fragment_pass<C: WindingCount>(layout: GridLayout, segments: Seq<Segment<C>>, radius: int)
    requires
        layout.wf(),
        all_wf(segments),
        all_in_extent(layout, segments),
        segments.len() <= usize::MAX,
    ensures
        complete(fragment_pass(layout, segments, radius), segments, radius),
        !fragment_pass(layout, segments, radius).1 ==> marks_inside(
            fragment_pass(layout, segments, radius).0,
            segments,
        ),
{
    let n = segments.len() as int;
    let groups = filled_groups(layout, segments, n);
    let borders = filled_borders(layout, segments, n);
    let sweep = columns_marks(groups, groups.len() as int, radius);
    let border = borders_marks(layout, sorted_columns(groups), borders, borders.len() as int);
    let pass = fragment_pass(layout, segments, radius);
    lemma_filled_of(layout, segments, n);
    lemma_filled_borders(layout, segments, n);
    assert(pass == joint(sweep, (border, false)));
    lemma_columns_from_pairs(groups, groups.len() as int, segments, radius);
    lemma_borders_marks_inside(layout, sorted_columns(groups), borders, borders.len() as int, segments);
    if !pass.1 {
        lemma_from_pairs_inside(sweep, segments, radius);
        lemma_inside_sum(sweep.0, border, segments);
    }
    assert forall|i: int, j: int|
        0 <= i < segments.len() && 0 <= j < segments.len() && i != j && CrossSolver::crosses_properly(
            (#[trigger] segments[i]).x_segment,
            (#[trigger] segments[j]).x_segment,
        ) implies pair_included(pass, segments, i, j, radius) || pair_included(pass, segments, j, i, radius) by {
        let si = segments[i].x_segment;
        let sj = segments[j].x_segment;
        assert(si.wf() && sj.wf());
        lemma_cross_symmetric(si, sj);
        let (lo, hi) = if si.spec_less(sj) {
            (i, j)
        } else {
            (j, i)
        };
        let t = segments[lo].x_segment;
        let o = segments[hi].x_segment;
        assert(t != o) by {
            if t == o {
                lemma_whole_part(t);
            }
        }
        lemma_meeting_point_of_other(t, o);
        let p = meeting_point(t, o);
        let n_t = abs(area_two(o.a, o.b, t.a));
        let n_o = abs(area_two(t.a, t.b, o.a));
        lemma_filled_holds(layout, segments, n, lo, n_t, p.m);
        lemma_filled_holds(layout, segments, n, hi, n_o, p.m);
        let r = column_of(layout, p);
        let column = groups[r];
        let a = choose|a: int|
            0 <= a < column.len() && (#[trigger] column[a]).index == lo as usize && column[a].x_segment == t
                && holds_real(column[a].rect, p);
        let b = choose|b: int|
            0 <= b < column.len() && (#[trigger] column[b]).index == hi as usize && column[b].x_segment == o
                && holds_real(column[b].rect, p);
        let ft = column[a];
        let fo = column[b];
        lemma_holds_cut_point(ft.rect, t, o);
        lemma_holds_cut_point(fo.rect, t, o);
        let x = CrossSolver::spec_cross_point(t, o);
        assert(tested_point(ft, fo) == x);
        lemma_bin_marks_includes(column, radius, ft, fo, x);
        lemma_columns_includes(groups, groups.len() as int, radius, r);
        lemma_includes_chain(sweep, bin_marks(column, radius), ordered_cross_marks(ft, fo, radius));
        lemma_joint_includes(sweep, (border, false), ordered_cross_marks(ft, fo, radius));
        assert(fragment_of(ft, segments));
        assert(fragment_of(fo, segments));
        assert(pair_included(pass, segments, lo, hi, radius));
    }
}

/// No residual crossings: where a run of the grid strategy ends because a
/// pass finds no mark or needs no rounding, no two segments of the working
/// set that it returns cross properly.
pub proof fn lemma_fragment_run_no_residual_crossings<C: WindingCount>(
    solver: Solver,
    segments: Seq<Segment<C>>,
    iter: usize,
)
    requires
        all_wf(segments),
        fragment_run(solver, segments, iter).1 == SplitEnd::Quiet || fragment_run(solver, segments, iter).1
            == SplitEnd::Exact,
    ensures
        no_crossings(fragment_run(solver, segments, iter).0),
        no_pure_crossings(fragment_run(solver, segments, iter).0),
    decreases MAX_PASSES - iter,
{
    if segments.len() > 2 && iter < MAX_PASSES && segments.len() <= usize::MAX {
        match GridLayout::spec_new(segments) {
            None => {
                lemma_tree_run_no_residual_crossings(solver, segments, iter);
            },
            Some(layout) => {
                lemma_layout(segments);
                let radius = solver.spec_radius(iter);
                lemma_pow2_monotonic(0, solver.spec_radius_power(iter));
                let pass = fragment_pass(layout, segments, radius);
                lemma_fragment_pass(layout, segments, radius);
                if pass.0.len() == 0 {
                    lemma_complete_quiet(pass, segments, radius);
                } else {
                    let next = applied(pass.0, segments);
                    lemma_applied_sorted(pass.0, segments);
                    if pass.1 {
                        lemma_fragment_run_no_residual_crossings(solver, next, (iter + 1) as usize);
                    } else {
                        lemma_complete_exact(pass, segments, radius);
                    }
                }
            },
        }
    }
    lemma_no_crossings_is_no_pure(fragment_run(solver, segments, iter).0);
}

/// No residual crossings: where a set of well-formed segments is split and
/// the run of the last strategy ends because a pass finds no mark or needs
/// no rounding, no two segments of the result cross properly, and the cross
/// solver at radius 0 reports for no two of them a crossing in the interior
/// of both.
pub proof fn lemma_no_residual_crossings<C: WindingCount>(solver: Solver, segments: Seq<Segment<C>>)
    requires
        all_wf(segments),
        split_outcome(solver, segments).1 == SplitEnd::Quiet || split_outcome(solver, segments).1
            == SplitEnd::Exact,
    ensures
        no_crossings(split_run(solver, segments)),
        no_pure_crossings(split_run(solver, segments)),
{
    if segments.len() > 0 {
        let start = prepared(segments);
        lemma_prepared_sorted(segments);
        if solver.spec_is_list_split(start.len() as usize) {
            let list = list_run(solver, start, 0);
            if list.1 == SplitEnd::Outgrown {
                lemma_list_run_wf(solver, start, 0);
                lemma_fragment_run_no_residual_crossings(solver, list.0, list.2);
            } else {
                lemma_list_run_no_residual_crossings(solver, start, 0);
            }
        } else if solver.strategy == Strategy::Tree {
            lemma_tree_run_no_residual_crossings(solver, start, 0);
        } else {
            lemma_fragment_run_no_residual_crossings(solver, start, 0);
        }
    }
}

} // verus!

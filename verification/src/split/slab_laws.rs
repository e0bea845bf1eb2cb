use vstd::prelude::*;
use crate::geom::arith::abs;
use crate::geom::point::area_two;
use crate::geom::rect::{IntRect, LineRange};
use crate::geom::x_segment::XSegment;
use crate::segm::count::WindingCount;
use crate::segm::segment::{all_wf, Segment};
use crate::solver::{lemma_pow2_monotonic, Solver};
use crate::split::cross_laws::{
    lemma_cross_point_in_rects, lemma_cross_symmetric, lemma_cross_weights, lemma_mean_between, lemma_snap_between,
};
use crate::split::cross_solver::CrossSolver;
use crate::split::fragment::Fragment;
use crate::split::list_laws::{
    lemma_applied_sorted, lemma_no_crossings_is_no_pure, no_crossings, no_pure_crossings,
};
use crate::split::pass_laws::{
    complete, fragment_of, fragments_of, from_pairs, includes, lemma_complete_exact, lemma_complete_quiet,
    lemma_from_pairs_inside, pair_included, tested_point,
};
use crate::split::segment_tree::{levels_of, new_nodes, ordered_cross_marks, tested_marks};
use crate::split::solver::{applied, list_rows, list_run, SplitEnd, MAX_PASSES};
use crate::split::solver_tree::{complex_run, is_inflated, spec_ver_range, tree_pass_from, tree_run};
use crate::split::space_layout::{SpaceLayout, MIN_HEIGHT};
use crate::split::tree_laws::{
    lemma_simple_run_no_residual_crossings, lemma_tree_pass_from_pairs, lemma_tree_pass_includes, nodes_of,
};

verus! {

/// A point of a segment with rational coordinates: the point that divides
/// the segment from its lesser end in the ratio `n : m - n`. The point has
/// the coordinates `ex / m` and `ey / m`.
pub struct RealPoint {
    pub ex: int,
    pub ey: int,
    pub m: int,
}

/// The point that divides `s` from its lesser end in the ratio `n : m - n`.
pub open spec fn point_at(s: XSegment, n: int, m: int) -> RealPoint {
    RealPoint { ex: m * s.a.x + (s.b.x - s.a.x) * n, ey: m * s.a.y + (s.b.y - s.a.y) * n, m }
}

/// Whether a rectangle holds a point with rational coordinates.
pub open spec fn holds_real(rect: IntRect, p: RealPoint) -> bool {
    &&& p.m * rect.min_x <= p.ex <= p.m * rect.max_x
    &&& p.m * rect.min_y <= p.ey <= p.m * rect.max_y
}

/// The point at which two properly crossing segments meet.
pub open spec fn meeting_point(t: XSegment, o: XSegment) -> RealPoint {
    point_at(t, abs(area_two(o.a, o.b, t.a)), abs(area_two(o.a, o.b, t.a)) + abs(area_two(o.a, o.b, t.b)))
}

/// A rectangle that holds the point at which two properly crossing segments
/// meet holds the lattice point at which they are cut.
pub proof fn lemma_holds_cut_point(rect: IntRect, t: XSegment, o: XSegment)
    requires
        CrossSolver::crosses_properly(t, o),
        holds_real(rect, meeting_point(t, o)),
    ensures
        rect.spec_contains_with_radius(CrossSolver::spec_cross_point(t, o), 0),
{
    lemma_cross_weights(t, o);
    lemma_cross_point_in_rects(t, o);
    let n = abs(area_two(o.a, o.b, t.a));
    let m = n + abs(area_two(o.a, o.b, t.b));
    lemma_snap_between(t.a.x as int, t.b.x as int, n, m, rect.min_x as int, rect.max_x as int);
    lemma_snap_between(t.a.y as int, t.b.y as int, n, m, rect.min_y as int, rect.max_y as int);
}

/// The point at which two properly crossing segments meet is the same point
/// of the second segment: the one that divides it in the ratio of the areas
/// that its ends span with the first.
pub proof fn lemma_meeting_point_of_other(t: XSegment, o: XSegment)
    requires
        CrossSolver::crosses_properly(t, o),
    ensures
        meeting_point(t, o) == point_at(
            o,
            abs(area_two(t.a, t.b, o.a)),
            abs(area_two(t.a, t.b, o.a)) + abs(area_two(t.a, t.b, o.b)),
        ),
        0 < abs(area_two(t.a, t.b, o.a)) < abs(area_two(t.a, t.b, o.a)) + abs(area_two(t.a, t.b, o.b)),
        0 < abs(area_two(o.a, o.b, t.a)) < abs(area_two(o.a, o.b, t.a)) + abs(area_two(o.a, o.b, t.b)),
{
    lemma_cross_weights(t, o);
    let wa = abs(area_two(t.a, t.b, o.b));
    let wb = abs(area_two(t.a, t.b, o.a));
    let m = wa + wb;
    assert(m * o.a.x + (o.b.x - o.a.x) * wb == wa * o.a.x + wb * o.b.x) by (nonlinear_arith)
        requires
            m == wa + wb,
    ;
    assert(m * o.a.y + (o.b.y - o.a.y) * wb == wa * o.a.y + wb * o.b.y) by (nonlinear_arith)
        requires
            m == wa + wb,
    ;
}

/// Whether a fragment of the sequence stands for segment `index` with the
/// segment `s` and holds the point `p`.
pub open spec fn some_holds(fragments: Seq<Fragment>, index: usize, s: XSegment, p: RealPoint) -> bool {
    exists|k: int|
        0 <= k < fragments.len() && (#[trigger] fragments[k]).index == index && fragments[k].x_segment == s
            && holds_real(fragments[k].rect, p)
}

/// One of the parts of a segment from the height `t0` on holds every point
/// of the segment that lies at the height `t0` or above.
pub proof fn lemma_parts_hold(step: int, index: usize, s: XSegment, t0: int, x0: int, n: int, m: int)
    requires
        s.wf(),
        step > 0,
        s.spec_rect().max_y > s.spec_rect().min_y,
        0 <= t0 < s.spec_rect().max_y - s.spec_rect().min_y,
        x0 == s.spec_rect().min_x + (s.spec_rect().max_x - s.spec_rect().min_x) * t0 / ((s.spec_rect().max_y
            - s.spec_rect().min_y) as int),
        0 < n < m,
        m * t0 <= (s.spec_rect().max_y - s.spec_rect().min_y) * n,
    ensures
        some_holds(
            SpaceLayout::parts_from(step, s.spec_rect(), s.a.y <= s.b.y, index, s, t0, x0),
            index,
            s,
            point_at(s, n, m),
        ),
    decreases s.spec_rect().max_y - s.spec_rect().min_y - t0,
{
    let rect = s.spec_rect();
    let is_up = s.a.y <= s.b.y;
    let dx = rect.max_x - rect.min_x;
    let dy = rect.max_y - rect.min_y;
    let p = point_at(s, n, m);
    let t1 = if dy - t0 > step {
        t0 + step
    } else {
        dy
    };
    let part = SpaceLayout::part(rect, is_up, index, s, t0, t1, x0);
    let x1 = rect.min_x + dx * t1 / dy;
    let rest = SpaceLayout::parts_from(step, rect, is_up, index, s, t1, x1);
    let all = SpaceLayout::parts_from(step, rect, is_up, index, s, t0, x0);
    assert(all == seq![part] + rest);
    assert(dx == s.b.x - s.a.x && rect.min_x == s.a.x);
    assert(dy * n < dy * m) by (nonlinear_arith)
        requires
            n < m,
            dy > 0,
    ;
    if dy * n <= m * t1 {
        // The point lies in this part.
        let down = dx * t0 / dy;
        let up = (dx * t1 + dy - 1) / dy;
        assert(0 <= down && down * dy <= dx * t0) by (nonlinear_arith)
            requires
                down == dx * t0 / dy,
                dx >= 0,
                t0 >= 0,
                dy > 0,
        {
            assert(dx * t0 >= 0);
            assert(dx * t0 == dy * (dx * t0 / dy) + (dx * t0) % dy);
        }
        assert(up * dy >= dx * t1 && up <= dx) by (nonlinear_arith)
            requires
                up == (dx * t1 + dy - 1) / dy,
                dx >= 0,
                0 <= t1 <= dy,
                dy > 0,
        {
            let z = dx * t1 + dy - 1;
            assert(z == dy * (z / dy) + z % dy);
            assert(dx * t1 <= dx * dy);
            assert(z < dy * (dx + 1));
            if z / dy > dx {
                assert(dy * (z / dy) >= dy * (dx + 1));
            }
        }
        assert(down <= dx) by (nonlinear_arith)
            requires
                down * dy <= dx * t0,
                t0 < dy,
                dx >= 0,
                dy > 0,
                down >= 0,
        {
            if down > dx {
                assert(down * dy >= (dx + 1) * dy);
                assert(dx * t0 <= dx * dy);
            }
        }
        assert(m * down <= dx * n) by (nonlinear_arith)
            requires
                down * dy <= dx * t0,
                m * t0 <= dy * n,
                dx >= 0,
                dy > 0,
                m > 0,
                down >= 0,
        {
            assert(down * dy * m <= dx * t0 * m);
            assert(dx * (t0 * m) <= dx * (dy * n));
            assert(dy * (m * down) <= dy * (dx * n));
        }
        assert(dx * n <= m * up) by (nonlinear_arith)
            requires
                up * dy >= dx * t1,
                dy * n <= m * t1,
                dx >= 0,
                dy > 0,
                m > 0,
        {
            assert(dx * (dy * n) <= dx * (m * t1));
            assert(m * (dx * t1) <= m * (up * dy));
            assert(dy * (dx * n) <= dy * (m * up));
        }
        assert(part.rect.min_x == rect.min_x + down);
        assert(part.rect.max_x == rect.min_x + up);
        assert(m * (rect.min_x + down) <= p.ex <= m * (rect.min_x + up)) by (nonlinear_arith)
            requires
                p.ex == m * rect.min_x + dx * n,
                m * down <= dx * n,
                dx * n <= m * up,
        ;
        if is_up {
            assert(rect.min_y == s.a.y && s.b.y - s.a.y == dy);
            assert(m * (rect.min_y + t0) <= p.ey <= m * (rect.min_y + t1)) by (nonlinear_arith)
                requires
                    p.ey == m * rect.min_y + dy * n,
                    m * t0 <= dy * n,
                    dy * n <= m * t1,
            ;
        } else {
            assert(rect.max_y == s.a.y && s.b.y - s.a.y == -dy);
            assert(m * (rect.max_y - t1) <= p.ey <= m * (rect.max_y - t0)) by (nonlinear_arith)
                requires
                    p.ey == m * rect.max_y + (0 - dy) * n,
                    m * t0 <= dy * n,
                    dy * n <= m * t1,
            ;
        }
        assert(holds_real(part.rect, p));
        assert(all[0] == part);
    } else {
        assert(t1 < dy) by (nonlinear_arith)
            requires
                dy * n > m * t1,
                dy * n < dy * m,
                m > 0,
                t1 <= dy,
        {
            if t1 == dy {
                assert(m * t1 == dy * m);
            }
        }
        lemma_parts_hold(step, index, s, t1, x1, n, m);
        let k = choose|k: int|
            0 <= k < rest.len() && (#[trigger] rest[k]).index == index && rest[k].x_segment == s && holds_real(
                rest[k].rect,
                p,
            );
        assert(all[k + 1] == rest[k]);
    }
}

/// One of the fragments of a segment holds every point strictly within the
/// segment.
pub proof fn lemma_broken_holds(layout: SpaceLayout, index: usize, s: XSegment, n: int, m: int)
    requires
        s.wf(),
        0 < n < m,
    ensures
        some_holds(layout.spec_broken(index, s), index, s, point_at(s, n, m)),
{
    let rect = s.spec_rect();
    let p = point_at(s, n, m);
    let all = layout.spec_broken(index, s);
    if !layout.spec_is_fragmentation_required(s) || layout.min_size == 0 {
        lemma_mean_between(s.a.x as int, s.b.x as int, m - n, n);
        lemma_mean_between(s.a.y as int, s.b.y as int, m - n, n);
        assert(p.ex == (m - n) * s.a.x + n * s.b.x) by (nonlinear_arith)
            requires
                p.ex == m * s.a.x + (s.b.x - s.a.x) * n,
        ;
        assert(p.ey == (m - n) * s.a.y + n * s.b.y) by (nonlinear_arith)
            requires
                p.ey == m * s.a.y + (s.b.y - s.a.y) * n,
        ;
        assert(all[0] == Fragment::spec_with_index_and_segment(index, s));
        assert(holds_real(all[0].rect, p));
    } else {
        let dx = rect.max_x - rect.min_x;
        let dy = rect.max_y - rect.min_y;
        assert(dx * 0 / (dy as int) == 0) by (nonlinear_arith)
            requires
                dy > 0,
        ;
        assert(m * 0 <= dy * n) by (nonlinear_arith)
            requires
                dy > 0,
                n > 0,
        ;
        lemma_parts_hold(layout.min_size as int, index, s, 0, rect.min_x as int, n, m);
    }
}

/// The fragments of a segment stand for it.
pub proof fn lemma_parts_of(step: int, rect: IntRect, is_up: bool, index: usize, s: XSegment, t0: int, x0: int)
    ensures
        forall|k: int|
            0 <= k < SpaceLayout::parts_from(step, rect, is_up, index, s, t0, x0).len() ==> (
            #[trigger] SpaceLayout::parts_from(step, rect, is_up, index, s, t0, x0)[k]).index == index
                && SpaceLayout::parts_from(step, rect, is_up, index, s, t0, x0)[k].x_segment == s,
    decreases rect.max_y - rect.min_y - t0,
{
    let dx = rect.max_x - rect.min_x;
    let dy = rect.max_y - rect.min_y;
    if t0 >= dy || step <= 0 {
    } else {
        let t1 = if dy - t0 > step {
            t0 + step
        } else {
            dy
        };
        let part = SpaceLayout::part(rect, is_up, index, s, t0, t1, x0);
        let rest = SpaceLayout::parts_from(step, rect, is_up, index, s, t1, rect.min_x + dx * t1 / dy);
        let all = SpaceLayout::parts_from(step, rect, is_up, index, s, t0, x0);
        lemma_parts_of(step, rect, is_up, index, s, t1, rect.min_x + dx * t1 / dy);
        assert(all == seq![part] + rest);
        assert forall|k: int| 0 <= k < all.len() implies (#[trigger] all[k]).index == index && all[k].x_segment
            == s by {
            if k > 0 {
                assert(all[k] == rest[k - 1]);
            }
        }
    }
}

/// The fragments of the first `n` segments stand for segments of the working
/// set.
pub proof fn lemma_all_broken<C: WindingCount>(layout: SpaceLayout, segments: Seq<Segment<C>>, n: int)
    requires
        0 <= n <= segments.len(),
        segments.len() <= usize::MAX,
    ensures
        fragments_of(layout.all_broken(segments, n), segments),
    decreases n,
{
    if n > 0 {
        lemma_all_broken(layout, segments, n - 1);
        let prev = layout.all_broken(segments, n - 1);
        let s = segments[n - 1].x_segment;
        let own = layout.spec_broken((n - 1) as usize, s);
        let now = layout.all_broken(segments, n);
        assert(now == prev + own);
        let rect = s.spec_rect();
        lemma_parts_of(layout.min_size as int, rect, s.a.y <= s.b.y, (n - 1) as usize, s, 0, rect.min_x as int);
        assert forall|t: int| 0 <= t < now.len() implies fragment_of(#[trigger] now[t], segments) by {
            if t < prev.len() {
                assert(now[t] == prev[t]);
            } else {
                assert(now[t] == own[t - prev.len()]);
            }
        }
    }
}

/// Fragment `a` of segment `k` comes, among the fragments of the first `n`
/// segments, behind the fragments of the first `k` segments.
pub proof fn lemma_broken_position<C: WindingCount>(
    layout: SpaceLayout,
    segments: Seq<Segment<C>>,
    n: int,
    k: int,
    a: int,
)
    requires
        0 <= k < n <= segments.len(),
        0 <= a < layout.spec_broken(k as usize, segments[k].x_segment).len(),
    ensures
        layout.all_broken(segments, k).len() + a < layout.all_broken(segments, k + 1).len(),
        layout.all_broken(segments, k + 1).len() <= layout.all_broken(segments, n).len(),
        layout.all_broken(segments, n)[layout.all_broken(segments, k).len() + a] == layout.spec_broken(
            k as usize,
            segments[k].x_segment,
        )[a],
    decreases n - k,
{
    let own = layout.spec_broken(k as usize, segments[k].x_segment);
    let before = layout.all_broken(segments, k);
    assert(layout.all_broken(segments, k + 1) == before + own);
    if k == n - 1 {
        assert((before + own)[before.len() + a] == own[a]);
    } else {
        lemma_broken_position(layout, segments, n - 1, k, a);
        let prev = layout.all_broken(segments, n - 1);
        let last = layout.spec_broken((n - 1) as usize, segments[n - 1].x_segment);
        assert(layout.all_broken(segments, n) == prev + last);
        assert((prev + last)[before.len() + a] == prev[before.len() + a]);
    }
}

/// A pass of the tree over fragments tests every pair of segments that cross
/// properly, and its marks stem from pairs of fragments.
pub proof fn lemma_complex_pass<C: WindingCount>(
    range: LineRange,
    layout: SpaceLayout,
    segments: Seq<Segment<C>>,
    radius: int,
)
    requires
        all_wf(segments),
        segments.len() <= usize::MAX,
    ensures
        complete(
            tree_pass_from(
                new_nodes(range, layout.power),
                levels_of(layout.power),
                layout.all_broken(segments, segments.len() as int),
                0,
                radius,
            ),
            segments,
            radius,
        ),
        from_pairs(
            tree_pass_from(
                new_nodes(range, layout.power),
                levels_of(layout.power),
                layout.all_broken(segments, segments.len() as int),
                0,
                radius,
            ),
            segments,
            radius,
        ),
{
    let nodes = new_nodes(range, layout.power);
    let lv = levels_of(layout.power);
    let n = segments.len() as int;
    let frags = layout.all_broken(segments, n);
    let pass = tree_pass_from(nodes, lv, frags, 0, radius);
    lemma_all_broken(layout, segments, n);
    assert(nodes.len() >= 1) by {
        lemma_pow2_monotonic(1, lv);
        assert(crate::solver::pow2(1) == 2) by {
            reveal_with_fuel(crate::solver::pow2, 2);
        }
    }
    assert(nodes_of(nodes, segments)) by {
        assert forall|i: int| 0 <= i < nodes.len() implies fragments_of(
            (#[trigger] nodes[i]).fragments,
            segments,
        ) by {
            assert(nodes[i].fragments.len() == 0);
        }
    }
    lemma_tree_pass_from_pairs(nodes, lv, frags, 0, segments, radius);
    assert forall|i: int, j: int|
        0 <= i < segments.len() && 0 <= j < segments.len() && i != j && CrossSolver::crosses_properly(
            (#[trigger] segments[i]).x_segment,
            (#[trigger] segments[j]).x_segment,
        ) implies pair_included(pass, segments, i, j, radius) || pair_included(pass, segments, j, i, radius) by {
        let si = segments[i].x_segment;
        let sj = segments[j].x_segment;
        assert(si.wf() && sj.wf());
        lemma_cross_symmetric(si, sj);
        // `lo` is the index of the segment that is tested first.
        let (lo, hi) = if si.spec_less(sj) {
            (i, j)
        } else {
            (j, i)
        };
        let t = segments[lo].x_segment;
        let o = segments[hi].x_segment;
        lemma_meeting_point_of_other(t, o);
        let p = meeting_point(t, o);
        let n_t = abs(area_two(o.a, o.b, t.a));
        let n_o = abs(area_two(t.a, t.b, o.a));
        lemma_broken_holds(layout, lo as usize, t, n_t, p.m);
        lemma_broken_holds(layout, hi as usize, o, n_o, p.m);
        let own_t = layout.spec_broken(lo as usize, t);
        let own_o = layout.spec_broken(hi as usize, o);
        let a = choose|a: int|
            0 <= a < own_t.len() && (#[trigger] own_t[a]).index == lo as usize && own_t[a].x_segment == t
                && holds_real(own_t[a].rect, p);
        let b = choose|b: int|
            0 <= b < own_o.len() && (#[trigger] own_o[b]).index == hi as usize && own_o[b].x_segment == o
                && holds_real(own_o[b].rect, p);
        let ft = own_t[a];
        let fo = own_o[b];
        lemma_holds_cut_point(ft.rect, t, o);
        lemma_holds_cut_point(fo.rect, t, o);
        let x = CrossSolver::spec_cross_point(t, o);
        assert(tested_point(ft, fo) == x);
        assert(tested_point(fo, ft) == x);
        let pt = layout.all_broken(segments, lo).len() + a;
        let po = layout.all_broken(segments, hi).len() + b;
        lemma_broken_position(layout, segments, n, lo, a);
        lemma_broken_position(layout, segments, n, hi, b);
        assert(frags[pt] == ft);
        assert(frags[po] == fo);
        assert(fragment_of(frags[pt], segments));
        assert(fragment_of(frags[po], segments));
        if lo < hi {
            lemma_broken_position(layout, segments, hi, lo, a);
            lemma_tree_pass_includes(nodes, lv, frags, 0, radius, pt, po);
            assert(tested_marks(fo, ft, radius) == ordered_cross_marks(fo, ft, radius));
            assert(includes(pass, ordered_cross_marks(fo, ft, radius)));
            assert(pair_included(pass, segments, hi, lo, radius));
        } else {
            lemma_broken_position(layout, segments, lo, hi, b);
            lemma_tree_pass_includes(nodes, lv, frags, 0, radius, po, pt);
            assert(tested_marks(ft, fo, radius) == ordered_cross_marks(ft, fo, radius));
            assert(includes(pass, ordered_cross_marks(ft, fo, radius)));
            assert(pair_included(pass, segments, lo, hi, radius));
        }
    }
}

/// No residual crossings: where a run of the tree of fragments ends because
/// a pass finds no mark or needs no rounding, no two segments of the working
/// set that it returns cross properly.
pub proof fn lemma_complex_run_no_residual_crossings<C: WindingCount>(
    solver: Solver,
    range: LineRange,
    layout: SpaceLayout,
    segments: Seq<Segment<C>>,
    iter: usize,
)
    requires
        all_wf(segments),
        complex_run(solver, range, layout, segments, iter).1 == SplitEnd::Quiet || complex_run(
            solver,
            range,
            layout,
            segments,
            iter,
        ).1 == SplitEnd::Exact,
    ensures
        no_crossings(complex_run(solver, range, layout, segments, iter).0),
        no_pure_crossings(complex_run(solver, range, layout, segments, iter).0),
    decreases MAX_PASSES - iter,
{
    if segments.len() > 2 && iter < MAX_PASSES && segments.len() <= usize::MAX {
        let fragments = layout.all_broken(segments, segments.len() as int);
        if is_inflated(fragments.len(), segments.len()) {
            lemma_simple_run_no_residual_crossings(solver, range, layout.power, segments, iter);
        } else {
            let radius = solver.spec_radius(iter);
            lemma_pow2_monotonic(0, solver.spec_radius_power(iter));
            let pass = tree_pass_from(
                new_nodes(range, layout.power),
                levels_of(layout.power),
                fragments,
                0,
                radius,
            );
            lemma_complex_pass(range, layout, segments, radius);
            if pass.0.len() == 0 {
                lemma_complete_quiet(pass, segments, radius);
            } else {
                let next = applied(pass.0, segments);
                lemma_applied_sorted(pass.0, segments);
                if pass.1 {
                    lemma_complex_run_no_residual_crossings(solver, range, layout, next, (iter + 1) as usize);
                } else {
                    lemma_from_pairs_inside(pass, segments, radius);
                    lemma_complete_exact(pass, segments, radius);
                }
            }
        }
    }
    lemma_no_crossings_is_no_pure(complex_run(solver, range, layout, segments, iter).0);
}

/// A run of the list strategy over well-formed segments returns well-formed
/// segments.
pub proof fn lemma_list_run_wf<C: WindingCount>(solver: Solver, segments: Seq<Segment<C>>, iter: usize)
    requires
        all_wf(segments),
    ensures
        all_wf(list_run(solver, segments, iter).0),
    decreases MAX_PASSES - iter,
{
    if segments.len() > 2 && iter < MAX_PASSES && segments.len() <= usize::MAX {
        let pass = list_rows(segments, 0, solver.spec_radius(iter));
        if pass.0.len() > 0 {
            let next = applied(pass.0, segments);
            lemma_applied_sorted(pass.0, segments);
            if solver.spec_is_list_split(next.len() as usize) && pass.1 {
                lemma_list_run_wf(solver, next, (iter + 1) as usize);
            }
        }
    }
}

/// No residual crossings: where a run of the tree strategy ends because a
/// pass finds no mark or needs no rounding, no two segments of the working
/// set that it returns cross properly.
pub proof fn lemma_tree_run_no_residual_crossings<C: WindingCount>(
    solver: Solver,
    segments: Seq<Segment<C>>,
    iter: usize,
)
    requires
        all_wf(segments),
        tree_run(solver, segments, iter).1 == SplitEnd::Quiet || tree_run(solver, segments, iter).1
            == SplitEnd::Exact,
    ensures
        no_crossings(tree_run(solver, segments, iter).0),
        no_pure_crossings(tree_run(solver, segments, iter).0),
{
    if segments.len() > 2 {
        let range = spec_ver_range(segments);
        let height = range.spec_width() as usize;
        let list = list_run(solver, segments, iter);
        let work = if height < MIN_HEIGHT {
            list.0
        } else {
            segments
        };
        let at = if height < MIN_HEIGHT {
            list.2
        } else {
            iter
        };
        lemma_list_run_wf(solver, segments, iter);
        let layout = SpaceLayout::spec_new(height, work.len() as usize);
        if layout.count_required(work, work.len() as int) * 20 > work.len() {
            lemma_simple_run_no_residual_crossings(solver, range, layout.power, work, at);
        } else {
            lemma_complex_run_no_residual_crossings(solver, range, layout, work, at);
        }
    }
}

} // verus!

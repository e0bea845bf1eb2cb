use vstd::prelude::*;
use crate::geom::line::{on_line, part_of, strictly_within};
use crate::geom::point::{area_two, orient, IntPoint};
use crate::split::apply_laws::{lemma_exact_apply_no_crossings, marks_cover, marks_inside};
use crate::split::exact_laws::{lemma_common_point_inside, lemma_exact_point_inside};
use crate::split::fragment::Fragment;
use crate::split::solver::cross_marks;
use crate::geom::x_segment::XSegment;
use crate::segm::count::WindingCount;
use crate::segm::merge::{merged, merged_prefix};
use crate::segm::segment::{all_wf, Segment};
use crate::solver::{lemma_pow2_monotonic, lemma_radius_monotonic, Solver};
use crate::sort::{key_le, lemma_permutation_keeps, lemma_sorted_ensures, sorted, sorted_by_key, Keyed};
use crate::split::cross_laws::{
    lemma_cross_needs_rects, lemma_cross_point_in_rects, lemma_cross_symmetric, lemma_proper_pair_is_marked,
    lemma_pure_is_proper,
};
use crate::split::cross_solver::{CrossSolver, CrossType};
use crate::split::cut::{chain, cut_from, lemma_positions, run_end, skip_to, CutMark};
use crate::split::line_mark::LineMark;
use crate::split::solver::{
    applied, cut_pieces, few_apart, list_row, list_rows, list_run, prepared, whole, y_ranges_meet, SplitEnd,
    MAX_PASSES,
};

verus! {

/// Whether no two segments of a working set cross properly.
pub open spec fn no_crossings<C>(segments: Seq<Segment<C>>) -> bool {
    forall|i: int, j: int|
        0 <= i < segments.len() && 0 <= j < segments.len() && i != j ==> !CrossSolver::crosses_properly(
            (#[trigger] segments[i]).x_segment,
            (#[trigger] segments[j]).x_segment,
        )
}

/// Whether the cross solver at radius 0 reports, for no two segments of a
/// working set, a crossing in the interior of both.
pub open spec fn no_pure_crossings<C>(segments: Seq<Segment<C>>) -> bool {
    forall|i: int, j: int|
        0 <= i < segments.len() && 0 <= j < segments.len() && i != j ==> !(CrossSolver::spec_cross(
            (#[trigger] segments[i]).x_segment,
            (#[trigger] segments[j]).x_segment,
            0,
        ) matches Some(c) && c.cross_type == CrossType::Pure)
}

/// A working set without proper crossings has no crossing that the cross
/// solver reports as one in the interior of both segments.
pub proof fn lemma_no_crossings_is_no_pure<C>(segments: Seq<Segment<C>>)
    requires
        no_crossings(segments),
    ensures
        no_pure_crossings(segments),
{
    assert forall|i: int, j: int|
        0 <= i < segments.len() && 0 <= j < segments.len() && i != j implies !(CrossSolver::spec_cross(
        (#[trigger] segments[i]).x_segment,
        (#[trigger] segments[j]).x_segment,
        0,
    ) matches Some(c) && c.cross_type == CrossType::Pure) by {
        let t = segments[i].x_segment;
        let o = segments[j].x_segment;
        if CrossSolver::spec_cross(t, o, 0) matches Some(c) && c.cross_type == CrossType::Pure {
            lemma_pure_is_proper(t, o, 0);
        }
    }
}

/// Where the row of segment `i` from `j0` on yields no mark, segment `i`
/// crosses none of the segments from `j0` on properly.
pub proof fn lemma_list_row_quiet<C: WindingCount>(segments: Seq<Segment<C>>, i: int, j0: int, radius: int, j: int)
    requires
        sorted_by_key(segments),
        all_wf(segments),
        radius >= 1,
        0 <= i < j0 <= j < segments.len(),
        list_row(segments, i, j0, radius).0.len() == 0,
    ensures
        !CrossSolver::crosses_properly(segments[i].x_segment, segments[j].x_segment),
    decreases segments.len() - j0,
{
    let t = segments[i].x_segment;
    let o = segments[j].x_segment;
    assert(t.wf() && o.wf());
    if segments[i].x_segment.b.x < segments[j0].x_segment.a.x {
        if j0 < j {
            assert(key_le(segments[j0].spec_key(), segments[j].spec_key()));
        }
        assert(t.b.x < o.a.x);
        if CrossSolver::crosses_properly(t, o) {
            lemma_cross_needs_rects(t, o);
        }
    } else {
        let rest = list_row(segments, i, j0 + 1, radius);
        if y_ranges_meet(whole(segments, i), whole(segments, j0)) {
            let here = crate::split::solver::cross_marks(whole(segments, i), whole(segments, j0), radius);
            assert(list_row(segments, i, j0, radius).0 == here.0 + rest.0);
            assert(here.0.len() == 0 && rest.0.len() == 0);
            if j == j0 {
                if CrossSolver::crosses_properly(t, o) {
                    lemma_cross_point_in_rects(t, o);
                    lemma_proper_pair_is_marked(whole(segments, i), whole(segments, j0), radius);
                }
            } else {
                lemma_list_row_quiet(segments, i, j0 + 1, radius, j);
            }
        } else {
            assert(list_row(segments, i, j0, radius).0 == rest.0);
            if j == j0 {
                if CrossSolver::crosses_properly(t, o) {
                    lemma_cross_needs_rects(t, o);
                }
            } else {
                lemma_list_row_quiet(segments, i, j0 + 1, radius, j);
            }
        }
    }
}

/// Where the rows from `i0` on yield no mark, none of the segments from `i0`
/// on crosses a later segment properly.
pub proof fn lemma_list_rows_quiet<C: WindingCount>(segments: Seq<Segment<C>>, i0: int, radius: int, i: int, j: int)
    requires
        sorted_by_key(segments),
        all_wf(segments),
        radius >= 1,
        0 <= i0 <= i < j < segments.len(),
        list_rows(segments, i0, radius).0.len() == 0,
    ensures
        !CrossSolver::crosses_properly(segments[i].x_segment, segments[j].x_segment),
    decreases segments.len() - i0,
{
    let here = list_row(segments, i0, i0 + 1, radius);
    let rest = list_rows(segments, i0 + 1, radius);
    assert(list_rows(segments, i0, radius).0 == here.0 + rest.0);
    assert(here.0.len() == 0 && rest.0.len() == 0);
    if i == i0 {
        lemma_list_row_quiet(segments, i, i + 1, radius, j);
    } else {
        lemma_list_rows_quiet(segments, i0 + 1, radius, i, j);
    }
}

/// A working set in order on which a pass of the list strategy finds no
/// mark has no proper crossing.
pub proof fn lemma_list_pass_quiet<C: WindingCount>(segments: Seq<Segment<C>>, radius: int)
    requires
        sorted_by_key(segments),
        all_wf(segments),
        radius >= 1,
        list_rows(segments, 0, radius).0.len() == 0,
    ensures
        no_crossings(segments),
{
    assert forall|i: int, j: int|
        0 <= i < segments.len() && 0 <= j < segments.len() && i != j implies !CrossSolver::crosses_properly(
        (#[trigger] segments[i]).x_segment,
        (#[trigger] segments[j]).x_segment,
    ) by {
        if i < j {
            lemma_list_rows_quiet(segments, 0, radius, i, j);
        } else {
            lemma_list_rows_quiet(segments, 0, radius, j, i);
            lemma_cross_symmetric(segments[i].x_segment, segments[j].x_segment);
        }
    }
}

/// Whether the segments of a sequence come in strictly rising order.
pub open spec fn strictly_sorted<C>(s: Seq<Segment<C>>) -> bool {
    forall|i: int, j: int|
        0 <= i < j < s.len() ==> (#[trigger] s[i]).x_segment.spec_less((#[trigger] s[j]).x_segment)
}

/// In a sequence sorted by key, a segment is the same as or less than every
/// later one.
pub proof fn lemma_sorted_segments<C: WindingCount>(s: Seq<Segment<C>>, i: int, j: int)
    requires
        sorted_by_key(s),
        0 <= i < j < s.len(),
    ensures
        s[i].x_segment == s[j].x_segment || s[i].x_segment.spec_less(s[j].x_segment),
{
    assert(key_le(s[i].spec_key(), s[j].spec_key()));
}

/// What merging the first `n` segments of a sorted sequence leaves: closed
/// runs in strictly rising order below the open run, all well formed.
pub proof fn lemma_merged_prefix<C: WindingCount>(s: Seq<Segment<C>>, n: int)
    requires
        sorted_by_key(s),
        all_wf(s),
        0 <= n <= s.len(),
    ensures
        strictly_sorted(merged_prefix(s, n).0),
        all_wf(merged_prefix(s, n).0),
        n > 0 ==> merged_prefix(s, n).1 is Some && merged_prefix(s, n).1->0.x_segment == s[n - 1].x_segment,
        n > 0 ==> forall|k: int|
            0 <= k < merged_prefix(s, n).0.len() ==> (#[trigger] merged_prefix(s, n).0[k]).x_segment.spec_less(
                s[n - 1].x_segment,
            ),
    decreases n,
{
    if n > 0 {
        lemma_merged_prefix(s, n - 1);
        let prev = merged_prefix(s, n - 1);
        let next = s[n - 1];
        if n > 1 {
            lemma_sorted_segments(s, n - 2, n - 1);
            let cur = prev.1->0;
            let now = merged_prefix(s, n);
            if cur.x_segment != next.x_segment && cur.count.spec_is_not_empty() {
                assert(now.0 == prev.0.push(cur));
                assert forall|k: int| 0 <= k < now.0.len() implies (#[trigger] now.0[k]).x_segment.spec_less(
                    s[n - 1].x_segment,
                ) by {
                    if k < prev.0.len() {
                        assert(now.0[k] == prev.0[k]);
                    }
                }
                assert forall|i: int, j: int| 0 <= i < j < now.0.len() implies (#[trigger] now.0[i]).x_segment.spec_less(
                    (#[trigger] now.0[j]).x_segment,
                ) by {
                    if j < prev.0.len() {
                        assert(now.0[i] == prev.0[i] && now.0[j] == prev.0[j]);
                    } else {
                        assert(now.0[i] == prev.0[i]);
                    }
                }
                assert forall|k: int| 0 <= k < now.0.len() implies (#[trigger] now.0[k]).x_segment.wf() by {
                    if k < prev.0.len() {
                        assert(now.0[k] == prev.0[k]);
                    } else {
                        assert(cur.x_segment == s[n - 2].x_segment);
                    }
                }
            } else {
                assert(now.0 == prev.0);
            }
        }
    }
}

/// A sequence in strictly rising order is sorted by key.
pub proof fn lemma_strictly_sorted_is_sorted<C: WindingCount>(s: Seq<Segment<C>>)
    requires
        strictly_sorted(s),
    ensures
        sorted_by_key(s),
{
    assert forall|i: int, j: int| 0 <= i < j < s.len() implies key_le(
        #[trigger] s[i].spec_key(),
        #[trigger] s[j].spec_key(),
    ) by {
        assert(s[i].x_segment.spec_less(s[j].x_segment));
    }
}

/// Merging a sorted sequence of well-formed segments leaves a sorted
/// sequence of well-formed segments.
pub proof fn lemma_merged_sorted<C: WindingCount>(s: Seq<Segment<C>>)
    requires
        sorted_by_key(s),
        all_wf(s),
    ensures
        sorted_by_key(merged(s)),
        strictly_sorted(merged(s)),
        all_wf(merged(s)),
{
    let n = s.len() as int;
    lemma_merged_prefix(s, n);
    let last = merged_prefix(s, n);
    let r = merged(s);
    if n > 0 {
        let cur = last.1->0;
        if cur.count.spec_is_not_empty() {
            assert(r == last.0.push(cur));
            assert forall|i: int, j: int| 0 <= i < j < r.len() implies (#[trigger] r[i]).x_segment.spec_less(
                (#[trigger] r[j]).x_segment,
            ) by {
                if j < last.0.len() {
                    assert(r[i] == last.0[i] && r[j] == last.0[j]);
                } else {
                    assert(r[i] == last.0[i]);
                }
            }
            assert forall|k: int| 0 <= k < r.len() implies (#[trigger] r[k]).x_segment.wf() by {
                if k < last.0.len() {
                    assert(r[k] == last.0[k]);
                }
            }
        } else {
            assert(r == last.0);
        }
    } else {
        assert(r =~= Seq::<Segment<C>>::empty());
    }
    lemma_strictly_sorted_is_sorted(r);
}

/// A working set of well-formed segments is, put in order, sorted and well
/// formed.
pub proof fn lemma_prepared_sorted<C: WindingCount>(s: Seq<Segment<C>>)
    requires
        all_wf(s),
    ensures
        sorted_by_key(prepared(s)),
        all_wf(prepared(s)),
{
    lemma_sorted_ensures(s);
    lemma_permutation_keeps(s, sorted(s), |g: Segment<C>| g.x_segment.wf());
    lemma_merged_sorted(sorted(s));
}

/// The pieces of a chain are well formed.
pub proof fn lemma_chain_wf<C: WindingCount>(
    from: IntPoint,
    cuts: Seq<CutMark>,
    k: int,
    e: int,
    to: IntPoint,
    count: C,
)
    requires
        0 <= k,
        e <= cuts.len(),
    ensures
        all_wf(chain(from, cuts, k, e, to, count)),
    decreases e - k,
{
    if k < e {
        lemma_chain_wf(cuts[k].point, cuts, k + 1, e, to, count);
    }
}

/// The pieces into which segments are cut are well formed.
pub proof fn lemma_cut_from_wf<C: WindingCount>(segments: Seq<Segment<C>>, cuts: Seq<CutMark>, i: int, k: int)
    requires
        0 <= i,
        0 <= k <= cuts.len(),
    ensures
        all_wf(cut_from(segments, cuts, i, k)),
    decreases segments.len() - i,
{
    if i < segments.len() {
        lemma_positions(cuts, k, i);
        let k0 = skip_to(cuts, k, i);
        lemma_positions(cuts, k0, i);
        let k1 = run_end(cuts, k0, i);
        let s = segments[i];
        lemma_chain_wf(s.x_segment.a, cuts, k0, k1, s.x_segment.b, s.count);
        lemma_cut_from_wf(segments, cuts, i + 1, k1);
    }
}

/// The working set that follows when marks are applied is sorted and well
/// formed.
pub proof fn lemma_applied_sorted<C: WindingCount>(marks: Seq<LineMark>, segments: Seq<Segment<C>>)
    ensures
        sorted_by_key(applied(marks, segments)),
        all_wf(applied(marks, segments)),
{
    let cuts = sorted(crate::split::cut::cut_marks(marks, segments, marks.len() as int));
    lemma_cut_from_wf(segments, cuts, 0, 0);
    lemma_prepared_sorted(cut_pieces(marks, segments));
}

/// A segment is a part of itself, and its ends lie on its line.
pub proof fn lemma_whole_part(s: XSegment)
    requires
        s.wf(),
    ensures
        part_of(s, s),
        on_line(s, s.a),
        on_line(s, s.b),
{
    assert(area_two(s.a, s.b, s.a) == 0) by (nonlinear_arith)
        requires
            area_two(s.a, s.b, s.a) == (s.b.x - s.a.x) * (s.a.y - s.a.y) - (s.b.y - s.a.y) * (s.a.x - s.a.x),
    ;
    assert(area_two(s.a, s.b, s.b) == 0) by (nonlinear_arith)
        requires
            area_two(s.a, s.b, s.b) == (s.b.x - s.a.x) * (s.b.y - s.a.y) - (s.b.y - s.a.y) * (s.b.x - s.a.x),
    ;
}

/// Whether a mark names one of two fragments and a point strictly within
/// the segment of that fragment.
pub open spec fn mark_inside_pair(mark: LineMark, fi: Fragment, fj: Fragment) -> bool {
    (mark.index == fi.index && strictly_within(fi.x_segment, mark.point)) || (mark.index == fj.index
        && strictly_within(fj.x_segment, mark.point))
}

/// The marks of a pair that calls for no other pass lie strictly within the
/// segments that they name.
pub proof fn lemma_cross_marks_inside(fi: Fragment, fj: Fragment, radius: int)
    requires
        fi.x_segment.wf(),
        fj.x_segment.wf(),
        !cross_marks(fi, fj, radius).1,
    ensures
        forall|k: int|
            0 <= k < cross_marks(fi, fj, radius).0.len() ==> mark_inside_pair(
                #[trigger] cross_marks(fi, fj, radius).0[k],
                fi,
                fj,
            ),
{
    let t = fi.x_segment;
    let o = fj.x_segment;
    let marks = cross_marks(fi, fj, radius).0;
    lemma_whole_part(t);
    lemma_whole_part(o);
    let oa = orient(t.a, t.b, o.a);
    let ob = orient(t.a, t.b, o.b);
    let ta = orient(o.a, o.b, t.a);
    let tb = orient(o.a, o.b, t.b);
    match CrossSolver::spec_cross(t, o, radius) {
        None => {},
        Some(c) => {
            if c.cross_type == CrossType::Overlay {
                assert(oa == 0 && ob == 0 && ta == 0 && tb == 0);
                let mask = CrossSolver::spec_collinear(t, o);
                assert forall|k: int| 0 <= k < marks.len() implies mark_inside_pair(#[trigger] marks[k], fi, fj) by {
                    let m = marks[k];
                    assert(marks == crate::split::solver::overlay_marks(fi, fj, mask));
                    assert((mask.target_a && m == (LineMark { index: fj.index, point: t.a })) || (mask.target_b
                        && m == (LineMark { index: fj.index, point: t.b })) || (mask.other_a && m == (LineMark {
                        index: fi.index,
                        point: o.a,
                    })) || (mask.other_b && m == (LineMark { index: fi.index, point: o.b })));
                }
            } else if marks.len() > 0 {
                assert(marks == crate::split::solver::point_marks(fi, fj, c));
                if oa == 0 || ob == 0 || ta == 0 || tb == 0 {
                    // One end lies on the line of the other segment, whose
                    // ends the line through that end separates.
                    if oa == 0 || ob == 0 {
                        assert(ta * tb < 0) by (nonlinear_arith)
                            requires
                                (ta == 1 && tb == -1) || (ta == -1 && tb == 1),
                        ;
                        lemma_common_point_inside(t, t, o, c.point);
                    } else {
                        assert(oa * ob < 0) by (nonlinear_arith)
                            requires
                                (oa == 1 && ob == -1) || (oa == -1 && ob == 1),
                        ;
                        lemma_common_point_inside(o, o, t, c.point);
                    }
                } else {
                    assert(oa * ob < 0) by (nonlinear_arith)
                        requires
                            (oa == 1 && ob == -1) || (oa == -1 && ob == 1),
                    ;
                    assert(ta * tb < 0) by (nonlinear_arith)
                        requires
                            (ta == 1 && tb == -1) || (ta == -1 && tb == 1),
                    ;
                    assert(c == CrossSolver::spec_middle_cross(t, o, radius));
                    assert(CrossSolver::spec_is_exact(t, o));
                    lemma_exact_point_inside(t, o);
                }
                assert forall|k: int| 0 <= k < marks.len() implies mark_inside_pair(#[trigger] marks[k], fi, fj) by {
                }
            }
        },
    }
}

/// A pair of fragments whose segments cross properly and that calls for no
/// other pass marks both segments at the point at which they meet, which is
/// a lattice point.
pub proof fn lemma_cross_marks_exact(fi: Fragment, fj: Fragment, radius: int)
    requires
        CrossSolver::crosses_properly(fi.x_segment, fj.x_segment),
        radius >= 1,
        fi.rect.spec_contains_with_radius(CrossSolver::spec_cross_point(fi.x_segment, fj.x_segment), 0),
        fj.rect.spec_contains_with_radius(CrossSolver::spec_cross_point(fi.x_segment, fj.x_segment), 0),
        !cross_marks(fi, fj, radius).1,
    ensures
        CrossSolver::spec_is_exact(fi.x_segment, fj.x_segment),
        cross_marks(fi, fj, radius).0 == seq![
            LineMark { index: fi.index, point: CrossSolver::spec_cross_point(fi.x_segment, fj.x_segment) },
            LineMark { index: fj.index, point: CrossSolver::spec_cross_point(fi.x_segment, fj.x_segment) },
        ],
{
    let t = fi.x_segment;
    let o = fj.x_segment;
    lemma_proper_pair_is_marked(fi, fj, radius);
    crate::split::cross_laws::lemma_opposite_signs(area_two(t.a, t.b, o.a), area_two(t.a, t.b, o.b));
    crate::split::cross_laws::lemma_opposite_signs(area_two(o.a, o.b, t.a), area_two(o.a, o.b, t.b));
    let c = CrossSolver::spec_middle_cross(t, o, radius);
    assert(CrossSolver::spec_cross(t, o, radius) == Some(c));
}

/// Whether a sequence holds both marks of the point at which segments `i`
/// and `j` meet.
pub open spec fn holds_pair<C>(marks: Seq<LineMark>, segments: Seq<Segment<C>>, i: int, j: int) -> bool {
    let x = CrossSolver::spec_cross_point(segments[i].x_segment, segments[j].x_segment);
    marks.contains(LineMark { index: i as usize, point: x }) && marks.contains(
        LineMark { index: j as usize, point: x },
    )
}

/// What a sequence holds, a longer sequence holds.
pub proof fn lemma_contains_in_sum(a: Seq<LineMark>, b: Seq<LineMark>, m: LineMark)
    requires
        a.contains(m) || b.contains(m),
    ensures
        (a + b).contains(m),
{
    if a.contains(m) {
        let k = choose|k: int| 0 <= k < a.len() && a[k] == m;
        assert((a + b)[k] == m);
    } else {
        let k = choose|k: int| 0 <= k < b.len() && b[k] == m;
        assert((a + b)[a.len() + k] == m);
    }
}

/// Marks that lie within their segments, put together, lie within their
/// segments.
pub proof fn lemma_inside_sum<C>(a: Seq<LineMark>, b: Seq<LineMark>, segments: Seq<Segment<C>>)
    requires
        marks_inside(a, segments),
        marks_inside(b, segments),
    ensures
        marks_inside(a + b, segments),
{
    assert forall|k: int| 0 <= k < (a + b).len() implies (#[trigger] (a + b)[k]).index < segments.len()
        && strictly_within(segments[(a + b)[k].index as int].x_segment, (a + b)[k].point) by {
        if k < a.len() {
            assert((a + b)[k] == a[k]);
        } else {
            assert((a + b)[k] == b[k - a.len()]);
        }
    }
}

/// The marks of a row that calls for no other pass lie within their
/// segments, and hold both marks of every proper crossing of segment `i`
/// with a segment from `j0` on.
pub proof fn lemma_list_row_exact<C: WindingCount>(segments: Seq<Segment<C>>, i: int, j0: int, radius: int)
    requires
        sorted_by_key(segments),
        all_wf(segments),
        segments.len() <= usize::MAX,
        radius >= 1,
        0 <= i < j0 <= segments.len(),
        !list_row(segments, i, j0, radius).1,
    ensures
        marks_inside(list_row(segments, i, j0, radius).0, segments),
        forall|j: int|
            j0 <= j < segments.len() && CrossSolver::crosses_properly(
                segments[i].x_segment,
                (#[trigger] segments[j]).x_segment,
            ) ==> holds_pair(list_row(segments, i, j0, radius).0, segments, i, j) && CrossSolver::spec_is_exact(
                segments[i].x_segment,
                segments[j].x_segment,
            ),
    decreases segments.len() - j0,
{
    let row = list_row(segments, i, j0, radius);
    let t = segments[i].x_segment;
    assert(t.wf());
    if j0 >= segments.len() {
    } else if segments[i].x_segment.b.x < segments[j0].x_segment.a.x {
        assert forall|j: int|
            j0 <= j < segments.len() && CrossSolver::crosses_properly(
                segments[i].x_segment,
                (#[trigger] segments[j]).x_segment,
            ) implies holds_pair(row.0, segments, i, j) && CrossSolver::spec_is_exact(
            segments[i].x_segment,
            segments[j].x_segment,
        ) by {
            if j0 < j {
                assert(key_le(segments[j0].spec_key(), segments[j].spec_key()));
            }
            assert(segments[j].x_segment.wf());
            lemma_cross_needs_rects(t, segments[j].x_segment);
        }
    } else {
        let o = segments[j0].x_segment;
        assert(o.wf());
        let fi = whole(segments, i);
        let fj = whole(segments, j0);
        let rest = list_row(segments, i, j0 + 1, radius);
        let meets = y_ranges_meet(fi, fj);
        let here = cross_marks(fi, fj, radius);
        if meets {
            assert(row.0 == here.0 + rest.0);
            assert(!here.1 && !rest.1);
            lemma_cross_marks_inside(fi, fj, radius);
            assert(marks_inside(here.0, segments)) by {
                assert forall|k: int| 0 <= k < here.0.len() implies (#[trigger] here.0[k]).index < segments.len()
                    && strictly_within(segments[here.0[k].index as int].x_segment, here.0[k].point) by {
                    assert(mark_inside_pair(here.0[k], fi, fj));
                }
            }
        } else {
            assert(row.0 == rest.0);
        }
        lemma_list_row_exact(segments, i, j0 + 1, radius);
        if meets {
            lemma_inside_sum(here.0, rest.0, segments);
        }
        assert forall|j: int|
            j0 <= j < segments.len() && CrossSolver::crosses_properly(
                segments[i].x_segment,
                (#[trigger] segments[j]).x_segment,
            ) implies holds_pair(row.0, segments, i, j) && CrossSolver::spec_is_exact(
            segments[i].x_segment,
            segments[j].x_segment,
        ) by {
            let x = CrossSolver::spec_cross_point(t, segments[j].x_segment);
            if j == j0 {
                lemma_cross_needs_rects(t, o);
                lemma_cross_point_in_rects(t, o);
                lemma_cross_marks_exact(fi, fj, radius);
                assert(here.0[0] == (LineMark { index: i as usize, point: x }));
                assert(here.0[1] == (LineMark { index: j as usize, point: x }));
                lemma_contains_in_sum(here.0, rest.0, LineMark { index: i as usize, point: x });
                lemma_contains_in_sum(here.0, rest.0, LineMark { index: j as usize, point: x });
            } else {
                assert(holds_pair(rest.0, segments, i, j));
                if meets {
                    lemma_contains_in_sum(here.0, rest.0, LineMark { index: i as usize, point: x });
                    lemma_contains_in_sum(here.0, rest.0, LineMark { index: j as usize, point: x });
                }
            }
        }
    }
}

/// The marks of the rows from `i0` on, where they call for no other pass,
/// lie within their segments and hold both marks of every proper crossing
/// of a segment from `i0` on with a later segment.
pub proof fn lemma_list_rows_exact<C: WindingCount>(segments: Seq<Segment<C>>, i0: int, radius: int)
    requires
        sorted_by_key(segments),
        all_wf(segments),
        segments.len() <= usize::MAX,
        radius >= 1,
        0 <= i0 <= segments.len(),
        !list_rows(segments, i0, radius).1,
    ensures
        marks_inside(list_rows(segments, i0, radius).0, segments),
        forall|i: int, j: int|
            i0 <= i < j < segments.len() && CrossSolver::crosses_properly(
                (#[trigger] segments[i]).x_segment,
                (#[trigger] segments[j]).x_segment,
            ) ==> holds_pair(list_rows(segments, i0, radius).0, segments, i, j) && CrossSolver::spec_is_exact(
                segments[i].x_segment,
                segments[j].x_segment,
            ),
    decreases segments.len() - i0,
{
    if i0 < segments.len() {
        let here = list_row(segments, i0, i0 + 1, radius);
        let rest = list_rows(segments, i0 + 1, radius);
        let all = list_rows(segments, i0, radius);
        assert(all.0 == here.0 + rest.0);
        lemma_list_row_exact(segments, i0, i0 + 1, radius);
        lemma_list_rows_exact(segments, i0 + 1, radius);
        lemma_inside_sum(here.0, rest.0, segments);
        assert forall|i: int, j: int|
            i0 <= i < j < segments.len() && CrossSolver::crosses_properly(
                (#[trigger] segments[i]).x_segment,
                (#[trigger] segments[j]).x_segment,
            ) implies holds_pair(all.0, segments, i, j) && CrossSolver::spec_is_exact(
            segments[i].x_segment,
            segments[j].x_segment,
        ) by {
            let x = CrossSolver::spec_cross_point(segments[i].x_segment, segments[j].x_segment);
            if i == i0 {
                assert(holds_pair(here.0, segments, i, j));
            } else {
                assert(holds_pair(rest.0, segments, i, j));
            }
            lemma_contains_in_sum(here.0, rest.0, LineMark { index: i as usize, point: x });
            lemma_contains_in_sum(here.0, rest.0, LineMark { index: j as usize, point: x });
        }
    }
}

/// The marks of a pass of the list strategy that calls for no other pass lie
/// strictly within their segments and cover every proper crossing.
pub proof fn lemma_list_pass_exact<C: WindingCount>(segments: Seq<Segment<C>>, radius: int)
    requires
        sorted_by_key(segments),
        all_wf(segments),
        segments.len() <= usize::MAX,
        radius >= 1,
        !list_rows(segments, 0, radius).1,
    ensures
        marks_inside(list_rows(segments, 0, radius).0, segments),
        marks_cover(list_rows(segments, 0, radius).0, segments),
        no_crossings(applied(list_rows(segments, 0, radius).0, segments)),
{
    let marks = list_rows(segments, 0, radius).0;
    lemma_list_rows_exact(segments, 0, radius);
    assert forall|i: int, j: int|
        0 <= i < segments.len() && 0 <= j < segments.len() && i != j && CrossSolver::crosses_properly(
            (#[trigger] segments[i]).x_segment,
            (#[trigger] segments[j]).x_segment,
        ) implies exists|x: IntPoint|
        on_line(segments[i].x_segment, x) && on_line(segments[j].x_segment, x) && marks.contains(
            LineMark { index: i as usize, point: x },
        ) && #[trigger] marks.contains(LineMark { index: j as usize, point: x }) by {
        let s = segments[i].x_segment;
        let r = segments[j].x_segment;
        assert(s.wf() && r.wf());
        if i < j {
            let x = CrossSolver::spec_cross_point(s, r);
            assert(holds_pair(marks, segments, i, j));
            lemma_exact_point_inside(s, r);
            assert(marks.contains(LineMark { index: j as usize, point: x }));
        } else {
            lemma_cross_symmetric(s, r);
            let x = CrossSolver::spec_cross_point(r, s);
            assert(holds_pair(marks, segments, j, i));
            lemma_exact_point_inside(r, s);
            assert(marks.contains(LineMark { index: j as usize, point: x }));
        }
    }
    lemma_exact_apply_no_crossings(marks, segments);
}

/// No residual crossings: where a run of the list strategy ends because a
/// pass finds no mark or because a pass needs no rounding, no two segments
/// of the working set that it returns cross properly, and the cross solver
/// at radius 0 reports no crossing in the interior of both for any two of
/// them.
pub proof fn lemma_list_run_no_residual_crossings<C: WindingCount>(
    solver: Solver,
    segments: Seq<Segment<C>>,
    iter: usize,
)
    requires
        sorted_by_key(segments),
        all_wf(segments),
        list_run(solver, segments, iter).1 == SplitEnd::Quiet || list_run(solver, segments, iter).1
            == SplitEnd::Exact,
    ensures
        no_crossings(list_run(solver, segments, iter).0),
        no_pure_crossings(list_run(solver, segments, iter).0),
    decreases MAX_PASSES - iter,
{
    if segments.len() > 2 && iter < MAX_PASSES && segments.len() <= usize::MAX {
        let radius = solver.spec_radius(iter);
        lemma_pow2_monotonic(0, solver.spec_radius_power(iter));
        let pass = list_rows(segments, 0, radius);
        if pass.0.len() == 0 {
            lemma_list_pass_quiet(segments, radius);
        } else {
            let next = applied(pass.0, segments);
            lemma_applied_sorted(pass.0, segments);
            if solver.spec_is_list_split(next.len() as usize) {
                if pass.1 {
                    lemma_list_run_no_residual_crossings(solver, next, (iter + 1) as usize);
                } else {
                    lemma_list_pass_exact(segments, radius);
                }
            }
        }
    }
    lemma_no_crossings_is_no_pure(list_run(solver, segments, iter).0);
}

/// The snap radius never falls: the pass that the list strategy hands on
/// is not earlier than the pass it starts with, so that the radius of the
/// pass that follows is at least the radius of every pass it made.
pub proof fn lemma_list_run_passes<C: WindingCount>(solver: Solver, segments: Seq<Segment<C>>, iter: usize)
    ensures
        iter <= list_run(solver, segments, iter).2,
        iter <= MAX_PASSES ==> list_run(solver, segments, iter).2 <= MAX_PASSES,
        solver.spec_radius(iter) <= solver.spec_radius(list_run(solver, segments, iter).2),
    decreases MAX_PASSES - iter,
{
    if segments.len() > 2 && iter < MAX_PASSES && segments.len() <= usize::MAX {
        let pass = list_rows(segments, 0, solver.spec_radius(iter));
        if pass.0.len() > 0 {
            let next = applied(pass.0, segments);
            if solver.spec_is_list_split(next.len() as usize) && pass.1 {
                lemma_list_run_passes(solver, next, (iter + 1) as usize);
            }
        }
    }
    lemma_radius_monotonic(solver, iter, list_run(solver, segments, iter).2);
}

/// At most two segments that do not cross properly are a working set
/// without crossings: what a run that ends for want of segments leaves has
/// no crossing where its two segments are apart.
pub proof fn lemma_few_apart<C>(segments: Seq<Segment<C>>)
    requires
        few_apart(segments),
    ensures
        no_crossings(segments),
        no_pure_crossings(segments),
{
    lemma_no_crossings_is_no_pure(segments);
}

} // verus!

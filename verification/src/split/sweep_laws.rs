use vstd::prelude::*;
use crate::geom::line::strictly_within;
use crate::geom::point::{area_two, IntPoint};
use crate::segm::count::WindingCount;
use crate::segm::segment::{all_wf, Segment};
use crate::sort::{key_le, lemma_permutation_keeps, lemma_sorted_ensures, sorted, sorted_by_key, Keyed};
use crate::split::apply_laws::marks_inside;
use crate::split::fragment::{from_below, lemma_from_below, lemma_from_below_keeps, Fragment, IdSegment};
use crate::split::grid_laws::{column_start, groups_of, in_extent, lemma_index};
use crate::split::grid_layout::{added_borders, filled_borders, GridLayout};
use crate::split::line_mark::LineMark;
use crate::split::list_laws::lemma_inside_sum;
use crate::split::pass_laws::{
    fragment_of, fragments_of, from_pairs, includes, joint, lemma_includes_self, lemma_joint_from_pairs,
    lemma_joint_includes, lemma_tested_from_pairs,
};
use crate::split::segment_tree::{ordered_cross_marks, tested_marks};
use crate::split::solver_fragment::{
    bin_marks, bin_row, bin_rows, border_marks, border_points, border_sweep, borders_marks, columns_marks,
    lemma_skip_below, marks_below, skip_below,
};

verus! {

/// The marks of a row of a column stem from pairs of fragments.
pub proof fn lemma_bin_row_from_pairs<C>(
    fragments: Seq<Fragment>,
    i: int,
    j: int,
    segments: Seq<Segment<C>>,
    radius: int,
)
    requires
        fragments_of(fragments, segments),
        0 <= i < fragments.len(),
        0 <= j,
    ensures
        from_pairs(bin_row(fragments, i, j, radius), segments, radius),
    decreases fragments.len() - j,
{
    if j < fragments.len() && !(fragments[i].rect.max_y < fragments[j].rect.min_y) {
        lemma_tested_from_pairs(fragments[i], fragments[j], segments, radius);
        lemma_bin_row_from_pairs(fragments, i, j + 1, segments, radius);
        lemma_joint_from_pairs(
            tested_marks(fragments[i], fragments[j], radius),
            bin_row(fragments, i, j + 1, radius),
            segments,
            radius,
        );
    }
}

/// The marks of the rows of a column stem from pairs of fragments.
pub proof fn lemma_bin_rows_from_pairs<C>(fragments: Seq<Fragment>, i: int, segments: Seq<Segment<C>>, radius: int)
    requires
        fragments_of(fragments, segments),
        0 <= i,
    ensures
        from_pairs(bin_rows(fragments, i, radius), segments, radius),
    decreases fragments.len() - i,
{
    if i < fragments.len() {
        lemma_bin_row_from_pairs(fragments, i, i + 1, segments, radius);
        lemma_bin_rows_from_pairs(fragments, i + 1, segments, radius);
        lemma_joint_from_pairs(
            bin_row(fragments, i, i + 1, radius),
            bin_rows(fragments, i + 1, radius),
            segments,
            radius,
        );
    }
}

/// The marks of the sweep over a column stem from pairs of fragments.
pub proof fn lemma_bin_marks_from_pairs<C>(fragments: Seq<Fragment>, segments: Seq<Segment<C>>, radius: int)
    requires
        fragments_of(fragments, segments),
    ensures
        from_pairs(bin_marks(fragments, radius), segments, radius),
{
    if fragments.len() >= 2 {
        lemma_sorted_ensures(fragments);
        lemma_permutation_keeps(fragments, sorted(fragments), |f: Fragment| fragment_of(f, segments));
        lemma_bin_rows_from_pairs(sorted(fragments), 0, segments, radius);
    }
}

/// The marks of the sweeps over the first `n` columns stem from pairs of
/// fragments.
pub proof fn lemma_columns_from_pairs<C>(groups: Seq<Seq<Fragment>>, n: int, segments: Seq<Segment<C>>, radius: int)
    requires
        groups_of(groups, segments),
        0 <= n <= groups.len(),
    ensures
        from_pairs(columns_marks(groups, n, radius), segments, radius),
    decreases n,
{
    if n > 0 {
        lemma_columns_from_pairs(groups, n - 1, segments, radius);
        lemma_bin_marks_from_pairs(groups[n - 1], segments, radius);
        lemma_joint_from_pairs(
            columns_marks(groups, n - 1, radius),
            bin_marks(groups[n - 1], radius),
            segments,
            radius,
        );
    }
}

/// The marks of a row include the marks of fragment `i` with every later
/// fragment that does not start above it.
pub proof fn lemma_bin_row_includes(fragments: Seq<Fragment>, i: int, j: int, radius: int, q: int)
    requires
        sorted_by_key(fragments),
        0 <= i < j <= q < fragments.len(),
        fragments[i].rect.max_y >= fragments[q].rect.min_y,
    ensures
        includes(bin_row(fragments, i, j, radius), tested_marks(fragments[i], fragments[q], radius)),
    decreases fragments.len() - j,
{
    if j < q {
        assert(key_le(fragments[j].spec_key(), fragments[q].spec_key()));
    }
    let here = tested_marks(fragments[i], fragments[j], radius);
    let rest = bin_row(fragments, i, j + 1, radius);
    assert(bin_row(fragments, i, j, radius) == joint(here, rest));
    if j == q {
        lemma_includes_self(here);
    } else {
        lemma_bin_row_includes(fragments, i, j + 1, radius, q);
    }
    lemma_joint_includes(here, rest, tested_marks(fragments[i], fragments[q], radius));
}

/// The marks of the rows include the marks of every fragment with every
/// later fragment that does not start above it.
pub proof fn lemma_bin_rows_includes(fragments: Seq<Fragment>, i: int, radius: int, a: int, b: int)
    requires
        sorted_by_key(fragments),
        0 <= i <= a < b < fragments.len(),
        fragments[a].rect.max_y >= fragments[b].rect.min_y,
    ensures
        includes(bin_rows(fragments, i, radius), tested_marks(fragments[a], fragments[b], radius)),
    decreases fragments.len() - i,
{
    let here = bin_row(fragments, i, i + 1, radius);
    let rest = bin_rows(fragments, i + 1, radius);
    assert(bin_rows(fragments, i, radius) == joint(here, rest));
    if i == a {
        lemma_bin_row_includes(fragments, a, a + 1, radius, b);
    } else {
        lemma_bin_rows_includes(fragments, i + 1, radius, a, b);
    }
    lemma_joint_includes(here, rest, tested_marks(fragments[a], fragments[b], radius));
}

/// The marks of the sweep over a column include the marks of every pair of
/// its fragments that stand for different segments and whose rectangles both
/// hold one point.
pub proof fn lemma_bin_marks_includes(fragments: Seq<Fragment>, radius: int, f: Fragment, g: Fragment, p: IntPoint)
    requires
        fragments.contains(f),
        fragments.contains(g),
        f.x_segment != g.x_segment,
        f.rect.spec_contains_with_radius(p, 0),
        g.rect.spec_contains_with_radius(p, 0),
    ensures
        includes(bin_marks(fragments, radius), ordered_cross_marks(f, g, radius)),
{
    let ordered = sorted(fragments);
    lemma_sorted_ensures(fragments);
    fragments.to_multiset_ensures();
    ordered.to_multiset_ensures();
    assert(fragments.to_multiset().count(f) > 0);
    assert(fragments.to_multiset().count(g) > 0);
    assert(ordered.contains(f));
    assert(ordered.contains(g));
    let a = choose|a: int| 0 <= a < ordered.len() && ordered[a] == f;
    let b = choose|b: int| 0 <= b < ordered.len() && ordered[b] == g;
    assert(a != b);
    assert(fragments.len() >= 2);
    if a < b {
        lemma_bin_rows_includes(ordered, 0, radius, a, b);
        assert(tested_marks(f, g, radius) == ordered_cross_marks(f, g, radius));
    } else {
        lemma_bin_rows_includes(ordered, 0, radius, b, a);
        assert(tested_marks(g, f, radius) == ordered_cross_marks(g, f, radius));
        assert(ordered_cross_marks(g, f, radius) == ordered_cross_marks(f, g, radius));
    }
}

/// The marks of the sweeps over the first `n` columns include the marks of
/// the sweep over every one of them.
pub proof fn lemma_columns_includes(groups: Seq<Seq<Fragment>>, n: int, radius: int, c: int)
    requires
        0 <= c < n <= groups.len(),
    ensures
        includes(columns_marks(groups, n, radius), bin_marks(groups[c], radius)),
    decreases n,
{
    let prev = columns_marks(groups, n - 1, radius);
    let here = bin_marks(groups[n - 1], radius);
    assert(columns_marks(groups, n, radius) == joint(prev, here));
    if c == n - 1 {
        lemma_includes_self(here);
    } else {
        lemma_columns_includes(groups, n - 1, radius, c);
    }
    lemma_joint_includes(prev, here, bin_marks(groups[c], radius));
}

/// Whether `v` stands for a vertical segment of the working set that lies at
/// the first coordinate `x`.
pub open spec fn vertical_of<C>(v: IdSegment, x: int, segments: Seq<Segment<C>>) -> bool {
    &&& v.id < segments.len()
    &&& v.x_segment == segments[v.id as int].x_segment
    &&& v.x_segment.a.x == x
    &&& v.x_segment.b.x == x
}

/// Whether every entry of a list stands for a vertical segment of the
/// working set at the first coordinate `x`.
pub open spec fn verticals_of<C>(list: Seq<IdSegment>, x: int, segments: Seq<Segment<C>>) -> bool {
    forall|k: int| 0 <= k < list.len() ==> vertical_of(#[trigger] list[k], x, segments)
}

/// Whether every point of a list has the first coordinate `x`.
pub open spec fn points_at(points: Seq<IntPoint>, x: int) -> bool {
    forall|k: int| 0 <= k < points.len() ==> (#[trigger] points[k]).x == x
}

/// The greater ends on a border lie on the border.
pub proof fn lemma_border_points(fragments: Seq<Fragment>, k: int, x: int)
    requires
        0 <= k <= fragments.len(),
    ensures
        points_at(border_points(fragments, k, x), x),
    decreases k,
{
    if k > 0 {
        lemma_border_points(fragments, k - 1, x);
        let prev = border_points(fragments, k - 1, x);
        let now = border_points(fragments, k, x);
        assert forall|t: int| 0 <= t < now.len() implies (#[trigger] now[t]).x == x by {
            if t < prev.len() {
                assert(now[t] == prev[t]);
            }
        }
    }
}

/// The marks on one vertical segment lie strictly within it, where the
/// points lie on its line above its lesser end.
pub proof fn lemma_marks_below_inside<C>(
    points: Seq<IntPoint>,
    j: int,
    v: IdSegment,
    x: int,
    segments: Seq<Segment<C>>,
)
    requires
        points_at(points, x),
        vertical_of(v, x, segments),
        0 <= j,
        forall|t: int| j <= t < points.len() ==> (#[trigger] points[t]).y > v.x_segment.a.y,
    ensures
        marks_inside(marks_below(points, j, v), segments),
    decreases points.len() - j,
{
    let all = marks_below(points, j, v);
    if j < points.len() && points[j].y < v.x_segment.b.y {
        let first = seq![LineMark { index: v.id, point: points[j] }];
        let rest = marks_below(points, j + 1, v);
        lemma_marks_below_inside(points, j + 1, v, x, segments);
        let s = v.x_segment;
        let p = points[j];
        assert(area_two(s.a, s.b, p) == 0) by (nonlinear_arith)
            requires
                area_two(s.a, s.b, p) == (s.b.x - s.a.x) * (p.y - s.a.y) - (s.b.y - s.a.y) * (p.x - s.a.x),
                s.a.x == s.b.x,
                p.x == s.a.x,
        ;
        assert(strictly_within(s, p));
        assert(marks_inside(first, segments));
        lemma_inside_sum(first, rest, segments);
    }
}

/// The marks that points on a border leave on the vertical segments on the
/// border lie strictly within these segments.
pub proof fn lemma_border_sweep_inside<C>(
    points: Seq<IntPoint>,
    verticals: Seq<IdSegment>,
    v: int,
    i: int,
    x: int,
    segments: Seq<Segment<C>>,
)
    requires
        sorted_by_key(points),
        points_at(points, x),
        verticals_of(verticals, x, segments),
        0 <= v,
        0 <= i <= points.len(),
    ensures
        marks_inside(border_sweep(points, verticals, v, i), segments),
    decreases verticals.len() - v,
{
    if v < verticals.len() {
        let s = verticals[v];
        let first = skip_below(points, i, s.x_segment.a.y as int);
        lemma_skip_below(points, i, s.x_segment.a.y as int);
        lemma_skip_is_above(points, i, s.x_segment.a.y as int);
        assert forall|t: int| first <= t < points.len() implies (#[trigger] points[t]).y > s.x_segment.a.y by {
            if first < t {
                assert(key_le(points[first].spec_key(), points[t].spec_key()));
            }
        }
        lemma_marks_below_inside(points, first, s, x, segments);
        lemma_border_sweep_inside(points, verticals, v + 1, first, x, segments);
        lemma_inside_sum(marks_below(points, first, s), border_sweep(points, verticals, v + 1, first), segments);
    }
}

/// Where `skip_below` stops before the end, the point lies above `y`.
pub proof fn lemma_skip_is_above(points: Seq<IntPoint>, i: int, y: int)
    requires
        0 <= i <= points.len(),
    ensures
        skip_below(points, i, y) < points.len() ==> points[skip_below(points, i, y)].y > y,
    decreases points.len() - i,
{
    if i < points.len() && points[i].y <= y {
        lemma_skip_is_above(points, i + 1, y);
    }
}

/// The marks that the fragments of a column leave on the vertical segments
/// on its border lie strictly within these segments.
pub proof fn lemma_border_marks_inside<C>(
    x: int,
    fragments: Seq<Fragment>,
    verticals: Seq<IdSegment>,
    segments: Seq<Segment<C>>,
)
    requires
        verticals_of(verticals, x, segments),
    ensures
        marks_inside(border_marks(x, fragments, verticals), segments),
{
    let raw = border_points(fragments, fragments.len() as int, x);
    lemma_border_points(fragments, fragments.len() as int, x);
    lemma_sorted_ensures(raw);
    lemma_permutation_keeps(raw, sorted(raw), |p: IntPoint| p.x == x);
    lemma_from_below_keeps(verticals, |v: IdSegment| vertical_of(v, x, segments));
    lemma_border_sweep_inside(sorted(raw), from_below(verticals), 0, 0, x, segments);
}

/// Whether the vertical segments noted for every column lie on the right
/// border of the column.
pub open spec fn borders_of<C>(borders: Seq<Seq<IdSegment>>, layout: GridLayout, segments: Seq<Segment<C>>) -> bool {
    forall|c: int|
        0 <= c < borders.len() ==> verticals_of(#[trigger] borders[c], column_start(layout, c + 1), segments)
}

/// The vertical segments that are noted for the columns of a working set lie
/// on the right borders of these columns.
pub proof fn lemma_filled_borders<C: WindingCount>(layout: GridLayout, segments: Seq<Segment<C>>, n: int)
    requires
        layout.wf(),
        all_wf(segments),
        crate::split::grid_laws::all_in_extent(layout, segments),
        segments.len() <= usize::MAX,
        0 <= n <= segments.len(),
    ensures
        filled_borders(layout, segments, n).len() == layout.count,
        borders_of(filled_borders(layout, segments, n), layout, segments),
    decreases n,
{
    let now = filled_borders(layout, segments, n);
    if n > 0 {
        lemma_filled_borders(layout, segments, n - 1);
        let prev = filled_borders(layout, segments, n - 1);
        let s = segments[n - 1].x_segment;
        assert(s.wf() && in_extent(layout, s));
        let rect = s.spec_rect();
        assert(rect.min_x == s.a.x && rect.max_x == s.b.x);
        let c0 = layout.spec_index(rect.min_x);
        lemma_index(layout, s.a.x);
        let w = layout.width as int;
        let d = rect.min_x - layout.min_x;
        assert(now == added_borders(prev, layout, (n - 1) as usize, s));
        if rect.min_x == rect.max_x && c0 > 0 && d % w == 0 {
            assert(d == w * (d / w) + d % w) by (nonlinear_arith)
                requires
                    w > 0,
            ;
            assert(column_start(layout, c0) == layout.min_x + w * c0) by (nonlinear_arith)
                requires
                    column_start(layout, c0) == layout.min_x + c0 * w,
            ;
            assert(column_start(layout, c0) == rect.min_x);
            let v = IdSegment { id: (n - 1) as usize, x_segment: s };
            assert(vertical_of(v, column_start(layout, c0), segments));
            assert forall|c: int| 0 <= c < now.len() implies verticals_of(
                #[trigger] now[c],
                column_start(layout, c + 1),
                segments,
            ) by {
                if c == c0 - 1 {
                    assert forall|k: int| 0 <= k < now[c].len() implies vertical_of(
                        #[trigger] now[c][k],
                        column_start(layout, c + 1),
                        segments,
                    ) by {
                        if k < prev[c].len() {
                            assert(now[c][k] == prev[c][k]);
                        }
                    }
                } else {
                    assert(now[c] == prev[c]);
                }
            }
        }
    } else {
        assert forall|c: int| 0 <= c < now.len() implies verticals_of(
            #[trigger] now[c],
            column_start(layout, c + 1),
            segments,
        ) by {
            assert(now[c].len() == 0);
        }
    }
}

/// The marks that the fragments of the first `n` columns leave on the
/// vertical segments on the borders lie strictly within these segments.
pub proof fn lemma_borders_marks_inside<C>(
    layout: GridLayout,
    groups: Seq<Seq<Fragment>>,
    borders: Seq<Seq<IdSegment>>,
    n: int,
    segments: Seq<Segment<C>>,
)
    requires
        borders_of(borders, layout, segments),
        0 <= n <= borders.len(),
        n <= usize::MAX,
    ensures
        marks_inside(borders_marks(layout, groups, borders, n), segments),
    decreases n,
{
    if n > 0 {
        lemma_borders_marks_inside(layout, groups, borders, n - 1, segments);
        let prev = borders_marks(layout, groups, borders, n - 1);
        if borders[n - 1].len() > 0 {
            crate::split::grid_laws::lemma_pos(layout, n - 1);
            let x = layout.spec_pos((n - 1) as usize);
            assert(verticals_of(borders[n - 1], column_start(layout, n), segments));
            lemma_border_marks_inside(x, groups[n - 1], borders[n - 1], segments);
            lemma_inside_sum(prev, border_marks(x, groups[n - 1], borders[n - 1]), segments);
        }
    }
}

/// The marks of fragment `i` of a column against every fragment from `j`
/// on: those of each pair whose rectangles meet.
pub open spec fn pairs_row(fragments: Seq<Fragment>, i: int, j: int, radius: int) -> (Seq<LineMark>, bool)
    decreases fragments.len() - j,
{
    if j < 0 || j >= fragments.len() {
        (Seq::empty(), false)
    } else {
        let here = tested_marks(fragments[i], fragments[j], radius);
        let rest = pairs_row(fragments, i, j + 1, radius);
        (here.0 + rest.0, here.1 || rest.1)
    }
}

/// The marks of every pair of fragments of a column of which the first
/// stands at `i` or later and before the second: those of each pair whose
/// rectangles meet.
pub open spec fn all_pairs(fragments: Seq<Fragment>, i: int, radius: int) -> (Seq<LineMark>, bool)
    decreases fragments.len() - i,
{
    if i < 0 || i >= fragments.len() {
        (Seq::empty(), false)
    } else {
        let here = pairs_row(fragments, i, i + 1, radius);
        let rest = all_pairs(fragments, i + 1, radius);
        (here.0 + rest.0, here.1 || rest.1)
    }
}

/// Fragments that all start above a fragment leave no mark with it.
pub proof fn lemma_pairs_row_apart(fragments: Seq<Fragment>, i: int, j: int, radius: int)
    requires
        0 <= i < fragments.len(),
        0 <= j,
        forall|k: int| j <= k < fragments.len() ==> fragments[i].rect.max_y < (#[trigger] fragments[k]).rect.min_y,
    ensures
        pairs_row(fragments, i, j, radius) == (Seq::<LineMark>::empty(), false),
    decreases fragments.len() - j,
{
    if j < fragments.len() {
        lemma_pairs_row_apart(fragments, i, j + 1, radius);
        assert(fragments[i].rect.max_y < fragments[j].rect.min_y);
        assert(Seq::<LineMark>::empty() + Seq::<LineMark>::empty() =~= Seq::<LineMark>::empty());
    }
}

/// In a sorted column, a row that ends at the first fragment that starts
/// above its own misses no pair whose rectangles meet.
pub proof fn lemma_bin_row_is_pairs(fragments: Seq<Fragment>, i: int, j: int, radius: int)
    requires
        sorted_by_key(fragments),
        0 <= i < j,
        i < fragments.len(),
    ensures
        bin_row(fragments, i, j, radius) == pairs_row(fragments, i, j, radius),
    decreases fragments.len() - j,
{
    if j < fragments.len() {
        if fragments[i].rect.max_y < fragments[j].rect.min_y {
            assert forall|k: int| j <= k < fragments.len() implies fragments[i].rect.max_y < (
            #[trigger] fragments[k]).rect.min_y by {
                if j < k {
                    assert(key_le(fragments[j].spec_key(), fragments[k].spec_key()));
                }
            }
            lemma_pairs_row_apart(fragments, i, j, radius);
        } else {
            lemma_bin_row_is_pairs(fragments, i, j + 1, radius);
        }
    }
}

/// The sweep over a sorted column marks every pair of fragments whose
/// rectangles meet, the lower fragment first.
pub proof fn lemma_bin_rows_are_all_pairs(fragments: Seq<Fragment>, i: int, radius: int)
    requires
        sorted_by_key(fragments),
        0 <= i,
    ensures
        bin_rows(fragments, i, radius) == all_pairs(fragments, i, radius),
    decreases fragments.len() - i,
{
    if i < fragments.len() {
        lemma_bin_row_is_pairs(fragments, i, i + 1, radius);
        lemma_bin_rows_are_all_pairs(fragments, i + 1, radius);
    }
}

/// The marks of the sweep over a column are those of every pair of
/// fragments of the sorted column whose rectangles meet.
pub proof fn lemma_bin_marks_are_all_pairs(fragments: Seq<Fragment>, radius: int)
    requires
        fragments.len() >= 2,
    ensures
        bin_marks(fragments, radius) == all_pairs(sorted(fragments), 0, radius),
{
    lemma_sorted_ensures(fragments);
    lemma_bin_rows_are_all_pairs(sorted(fragments), 0, radius);
}

/// Whether the points of a list never fall from one to the next.
pub open spec fn rising(points: Seq<IntPoint>) -> bool {
    forall|k: int, l: int| 0 <= k < l < points.len() ==> (#[trigger] points[k]).y <= (#[trigger] points[l]).y
}

/// Whether the lower ends of the segments of a list never fall from one to
/// the next.
pub open spec fn rising_ends(verticals: Seq<IdSegment>) -> bool {
    forall|k: int, l: int|
        0 <= k < l < verticals.len() ==> (#[trigger] verticals[k]).x_segment.a.y <= (
        #[trigger] verticals[l]).x_segment.a.y
}

/// Whether a point lies strictly between the heights of the ends of a
/// vertical segment.
pub open spec fn is_between(p: IntPoint, s: IdSegment) -> bool {
    s.x_segment.a.y < p.y < s.x_segment.b.y
}

/// A mark on `s` for every point from `k` on that lies strictly between the
/// ends of `s`.
pub open spec fn between_marks(points: Seq<IntPoint>, s: IdSegment, k: int) -> Seq<LineMark>
    decreases points.len() - k,
{
    if k < 0 || k >= points.len() {
        Seq::empty()
    } else if is_between(points[k], s) {
        seq![LineMark { index: s.id, point: points[k] }] + between_marks(points, s, k + 1)
    } else {
        between_marks(points, s, k + 1)
    }
}

/// For every vertical segment from `v` on, a mark for every point that lies
/// strictly between its ends.
pub open spec fn all_between(points: Seq<IntPoint>, verticals: Seq<IdSegment>, v: int) -> Seq<LineMark>
    decreases verticals.len() - v,
{
    if v < 0 || v >= verticals.len() {
        Seq::empty()
    } else {
        between_marks(points, verticals[v], 0) + all_between(points, verticals, v + 1)
    }
}

/// Points of which none lies between the ends of a segment leave no mark.
pub proof fn lemma_between_none(points: Seq<IntPoint>, s: IdSegment, j: int, k: int)
    requires
        0 <= j <= k,
        forall|t: int| j <= t < k && t < points.len() ==> !is_between(#[trigger] points[t], s),
    ensures
        between_marks(points, s, j) == between_marks(points, s, k),
    decreases k - j,
{
    if j < k {
        lemma_between_none(points, s, j + 1, k);
        if j < points.len() {
            assert(!is_between(points[j], s));
        } else {
            assert(between_marks(points, s, j) == Seq::<LineMark>::empty());
            assert(between_marks(points, s, k) == Seq::<LineMark>::empty());
        }
    }
}

/// Where the points rise and all lie above the lower end of a segment, the
/// marks up to the first point that is not below the upper end are the
/// marks of all points between the ends.
pub proof fn lemma_marks_below_are_between(points: Seq<IntPoint>, j: int, s: IdSegment)
    requires
        rising(points),
        0 <= j,
        forall|t: int| j <= t < points.len() ==> (#[trigger] points[t]).y > s.x_segment.a.y,
    ensures
        marks_below(points, j, s) == between_marks(points, s, j),
    decreases points.len() - j,
{
    if j < points.len() {
        assert(points[j].y > s.x_segment.a.y);
        if points[j].y < s.x_segment.b.y {
            lemma_marks_below_are_between(points, j + 1, s);
        } else {
            assert forall|t: int| j <= t < points.len() implies !is_between(#[trigger] points[t], s) by {
                if j < t {
                    assert(points[j].y <= points[t].y);
                }
            }
            lemma_between_none(points, s, j, points.len() as int);
        }
    }
}

/// Where the points rise, the points before the position that `skip_below`
/// gives lie at `y` or lower, and those from it on lie above `y`.
pub proof fn lemma_skip_parts(points: Seq<IntPoint>, i: int, y: int)
    requires
        rising(points),
        0 <= i <= points.len(),
        forall|t: int| 0 <= t < i ==> (#[trigger] points[t]).y <= y,
    ensures
        i <= skip_below(points, i, y) <= points.len(),
        forall|t: int| 0 <= t < skip_below(points, i, y) ==> (#[trigger] points[t]).y <= y,
        forall|t: int| skip_below(points, i, y) <= t < points.len() ==> (#[trigger] points[t]).y > y,
    decreases points.len() - i,
{
    if i < points.len() && points[i].y <= y {
        lemma_skip_parts(points, i + 1, y);
    } else if i < points.len() {
        assert forall|t: int| i <= t < points.len() implies (#[trigger] points[t]).y > y by {
            if i < t {
                assert(points[i].y <= points[t].y);
            }
        }
    }
}

/// Where the points rise and the lower ends of the vertical segments rise,
/// the sweep along a border marks every vertical segment at every point
/// strictly between its ends.
pub proof fn lemma_border_sweep_is_between(points: Seq<IntPoint>, verticals: Seq<IdSegment>, v: int, i: int)
    requires
        rising(points),
        rising_ends(verticals),
        0 <= v,
        0 <= i <= points.len(),
        v < verticals.len() ==> forall|t: int| 0 <= t < i ==> (#[trigger] points[t]).y <= verticals[v].x_segment.a.y,
    ensures
        border_sweep(points, verticals, v, i) == all_between(points, verticals, v),
    decreases verticals.len() - v,
{
    if v < verticals.len() {
        let s = verticals[v];
        let first = skip_below(points, i, s.x_segment.a.y as int);
        lemma_skip_parts(points, i, s.x_segment.a.y as int);
        lemma_marks_below_are_between(points, first, s);
        assert forall|t: int| 0 <= t < first && t < points.len() implies !is_between(#[trigger] points[t], s) by {
            assert(points[t].y <= s.x_segment.a.y);
        }
        lemma_between_none(points, s, 0, first);
        if v + 1 < verticals.len() {
            assert(verticals[v].x_segment.a.y <= verticals[v + 1].x_segment.a.y);
            assert forall|t: int| 0 <= t < first implies (#[trigger] points[t]).y <= verticals[v + 1].x_segment.a.y by {
                assert(points[t].y <= s.x_segment.a.y);
            }
        }
        lemma_border_sweep_is_between(points, verticals, v + 1, first);
    }
}

/// One mark for every point between the ends: the fragments of a column
/// leave on every vertical segment on its right border one mark for each of
/// their greater ends on the border that lies strictly between the ends of
/// the vertical segment.
pub proof fn lemma_border_marks_are_between(x: int, fragments: Seq<Fragment>, verticals: Seq<IdSegment>)
    requires
        verticals.len() <= usize::MAX,
    ensures
        border_marks(x, fragments, verticals) == all_between(
            sorted(border_points(fragments, fragments.len() as int, x)),
            from_below(verticals),
            0,
        ),
{
    let raw = border_points(fragments, fragments.len() as int, x);
    let points = sorted(raw);
    lemma_border_points(fragments, fragments.len() as int, x);
    lemma_sorted_ensures(raw);
    lemma_permutation_keeps(raw, points, |p: IntPoint| p.x == x);
    assert forall|k: int, l: int| 0 <= k < l < points.len() implies (#[trigger] points[k]).y <= (
    #[trigger] points[l]).y by {
        assert(key_le(points[k].spec_key(), points[l].spec_key()));
        assert(points[k].x == x && points[l].x == x);
    }
    lemma_from_below(verticals);
    lemma_border_sweep_is_between(points, from_below(verticals), 0, 0);
}

} // verus!

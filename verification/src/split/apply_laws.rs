use vstd::prelude::*;
use crate::geom::line::{lemma_part_same_side, lemma_step_along, on_line, part_of, strictly_within, within};
use crate::geom::point::{orient, IntPoint};
use crate::geom::x_segment::XSegment;
use crate::segm::count::WindingCount;
use crate::segm::merge::{merged, merged_prefix};
use crate::segm::segment::{all_wf, Segment};
use crate::sort::{key_le, lemma_sorted_ensures, sorted, sorted_by_key, Keyed};
use crate::split::cross_solver::CrossSolver;
use crate::split::cut::{chain, cut_from, cut_marks, lemma_positions, piece, run_end, skip_to, CutMark};
use crate::split::exact_laws::{lemma_common_point_inside, lemma_parts_cross};
use crate::split::line_mark::LineMark;
use crate::split::list_laws::no_crossings;
use crate::split::solver::{applied, cut_pieces};

verus! {

/// Whether every mark names a segment of the working set and a point
/// strictly within that segment.
pub open spec fn marks_inside<C>(marks: Seq<LineMark>, segments: Seq<Segment<C>>) -> bool {
    forall|k: int|
        0 <= k < marks.len() ==> (#[trigger] marks[k]).index < segments.len() && strictly_within(
            segments[marks[k].index as int].x_segment,
            marks[k].point,
        )
}

/// Whether any two segments that cross properly are both marked at a point
/// that their lines have in common.
pub open spec fn marks_cover<C>(marks: Seq<LineMark>, segments: Seq<Segment<C>>) -> bool {
    forall|i: int, j: int|
        0 <= i < segments.len() && 0 <= j < segments.len() && i != j && CrossSolver::crosses_properly(
            (#[trigger] segments[i]).x_segment,
            (#[trigger] segments[j]).x_segment,
        ) ==> exists|x: IntPoint|
            on_line(segments[i].x_segment, x) && on_line(segments[j].x_segment, x) && marks.contains(
                LineMark { index: i as usize, point: x },
            ) && #[trigger] marks.contains(LineMark { index: j as usize, point: x })
}

/// Whether `p` is a piece of segment `i`: a part of it within which no mark
/// of the segment lies strictly.
pub open spec fn is_piece_of<C>(p: XSegment, i: int, marks: Seq<LineMark>, segments: Seq<Segment<C>>) -> bool {
    &&& 0 <= i < segments.len()
    &&& part_of(p, segments[i].x_segment)
    &&& forall|x: IntPoint| #[trigger]
        marks.contains(LineMark { index: i as usize, point: x }) ==> !strictly_within(p, x)
}

/// Whether every segment of `pieces` is a piece of a segment of the working
/// set.
pub open spec fn all_pieces<C>(pieces: Seq<Segment<C>>, marks: Seq<LineMark>, segments: Seq<Segment<C>>) -> bool {
    forall|k: int| 0 <= k < pieces.len() ==> is_piece((#[trigger] pieces[k]).x_segment, marks, segments)
}

/// Whether `p` is a piece of some segment of the working set.
pub open spec fn is_piece<C>(p: XSegment, marks: Seq<LineMark>, segments: Seq<Segment<C>>) -> bool {
    exists|i: int| #[trigger] is_piece_of(p, i, marks, segments)
}

/// Whether the cuts from `k` up to `e` belong to marks of segment `i` with
/// points strictly within `s`.
pub open spec fn run_of(cuts: Seq<CutMark>, k: int, e: int, i: int, s: XSegment, marks: Seq<LineMark>) -> bool {
    forall|l: int|
        k <= l < e ==> (#[trigger] cuts[l]).index == i && strictly_within(s, cuts[l].point) && cuts[l]
            == CutMark::spec_new(LineMark { index: i as usize, point: cuts[l].point }, s)
}

/// Of two cuts of one segment in the order of their keys, the second does not
/// come before the first on the segment.
pub proof fn lemma_cut_order(s: XSegment, c1: CutMark, c2: CutMark)
    requires
        s.wf(),
        c1.index == c2.index,
        key_le(c1.spec_key(), c2.spec_key()),
        on_line(s, c1.point),
        on_line(s, c2.point),
        c1 == CutMark::spec_new(LineMark { index: c1.index, point: c1.point }, s),
        c2 == CutMark::spec_new(LineMark { index: c2.index, point: c2.point }, s),
    ensures
        !c2.point.spec_less(c1.point),
{
    if c2.point.spec_less(c1.point) {
        lemma_step_along(s, c2.point, c1.point);
    }
}

/// The pieces of a chain through the cuts of a segment are pieces of the
/// segment.
pub proof fn lemma_chain_pieces<C: WindingCount>(
    from: IntPoint,
    cuts: Seq<CutMark>,
    k0: int,
    k: int,
    e: int,
    i: int,
    marks: Seq<LineMark>,
    segments: Seq<Segment<C>>,
)
    requires
        0 <= i < segments.len(),
        segments[i].x_segment.wf(),
        0 <= k0 <= k <= e <= cuts.len(),
        sorted_by_key(cuts),
        run_of(cuts, k0, e, i, segments[i].x_segment, marks),
        within(segments[i].x_segment, from),
        from != segments[i].x_segment.b,
        forall|l: int| k0 <= l < k ==> !from.spec_less((#[trigger] cuts[l]).point),
        forall|l: int| k <= l < e ==> !(#[trigger] cuts[l]).point.spec_less(from),
        forall|x: IntPoint| #[trigger]
            marks.contains(LineMark { index: i as usize, point: x }) ==> exists|l: int|
                k0 <= l < e && #[trigger] cuts[l].point == x,
    ensures
        all_pieces(
            chain(from, cuts, k, e, segments[i].x_segment.b, segments[i].count),
            marks,
            segments,
        ),
    decreases e - k,
{
    let s = segments[i].x_segment;
    let count = segments[i].count;
    let to = if k >= e {
        s.b
    } else {
        cuts[k].point
    };
    let first = piece(from, to, count);
    assert(within(s, to));
    assert(!to.spec_less(from)) by {
        if k >= e {
        }
    }
    // The first piece, where it has a length, is a piece of the segment.
    if from != to {
        let p = first[0].x_segment;
        assert(from.spec_less(to));
        assert(p == XSegment { a: from, b: to });
        assert(part_of(p, s));
        assert forall|x: IntPoint| #[trigger]
            marks.contains(LineMark { index: i as usize, point: x }) implies !strictly_within(p, x) by {
            let l = choose|l: int| k0 <= l < e && #[trigger] cuts[l].point == x;
            if l < k {
                assert(!from.spec_less(cuts[l].point));
            } else {
                if k < e {
                    assert(key_le(cuts[k].spec_key(), cuts[l].spec_key())) by {
                        if k < l {
                        }
                    }
                    lemma_cut_order(s, cuts[k], cuts[l]);
                } else {
                }
            }
        }
        assert(is_piece_of(p, i, marks, segments));
    }
    if k >= e {
        let all = chain(from, cuts, k, e, s.b, count);
        assert(all == first);
        assert forall|t: int| 0 <= t < all.len() implies is_piece(
            (#[trigger] all[t]).x_segment,
            marks,
            segments,
        ) by {
            assert(is_piece_of(all[t].x_segment, i, marks, segments));
        }
    } else {
        let next = cuts[k].point;
        assert forall|l: int| k0 <= l < k + 1 implies !next.spec_less((#[trigger] cuts[l]).point) by {
            if l < k {
                assert(key_le(cuts[l].spec_key(), cuts[k].spec_key()));
                lemma_cut_order(s, cuts[l], cuts[k]);
            }
        }
        assert forall|l: int| k + 1 <= l < e implies !(#[trigger] cuts[l]).point.spec_less(next) by {
            assert(key_le(cuts[k].spec_key(), cuts[l].spec_key()));
            lemma_cut_order(s, cuts[k], cuts[l]);
        }
        lemma_chain_pieces(next, cuts, k0, k + 1, e, i, marks, segments);
        let rest = chain(next, cuts, k + 1, e, s.b, count);
        let all = chain(from, cuts, k, e, s.b, count);
        assert(all == first + rest);
        assert forall|t: int| 0 <= t < all.len() implies is_piece(
            (#[trigger] all[t]).x_segment,
            marks,
            segments,
        ) by {
            if t < first.len() {
                assert(all[t] == first[t]);
                assert(is_piece_of(all[t].x_segment, i, marks, segments));
            } else {
                assert(all[t] == rest[t - first.len()]);
                assert(is_piece(rest[t - first.len()].x_segment, marks, segments));
            }
        }
    }
}

/// Whether every cut belongs to a mark of a segment of the working set with
/// its point strictly within the segment.
pub open spec fn cuts_inside<C>(cuts: Seq<CutMark>, segments: Seq<Segment<C>>) -> bool {
    forall|l: int| 0 <= l < cuts.len() ==> cut_inside(#[trigger] cuts[l], segments)
}

/// Whether a cut belongs to a mark of a segment of the working set with its
/// point strictly within the segment.
pub open spec fn cut_inside<C>(c: CutMark, segments: Seq<Segment<C>>) -> bool {
    &&& c.index < segments.len()
    &&& strictly_within(segments[c.index as int].x_segment, c.point)
    &&& c == CutMark::spec_new(
        LineMark { index: c.index, point: c.point },
        segments[c.index as int].x_segment,
    )
}

/// Whether every mark has its cut among the cuts.
pub open spec fn cuts_complete<C>(cuts: Seq<CutMark>, marks: Seq<LineMark>, segments: Seq<Segment<C>>) -> bool {
    forall|t: int|
        0 <= t < marks.len() ==> cuts.contains(
            CutMark::spec_new(#[trigger] marks[t], segments[marks[t].index as int].x_segment),
        )
}

/// The cuts of marks that lie strictly within their segments belong to
/// these marks, and every mark has its cut.
pub proof fn lemma_cut_marks<C: WindingCount>(marks: Seq<LineMark>, segments: Seq<Segment<C>>, n: int)
    requires
        marks_inside(marks, segments),
        0 <= n <= marks.len(),
    ensures
        cuts_inside(cut_marks(marks, segments, n), segments),
        forall|t: int|
            0 <= t < n ==> cut_marks(marks, segments, n).contains(
                CutMark::spec_new(#[trigger] marks[t], segments[marks[t].index as int].x_segment),
            ),
    decreases n,
{
    if n > 0 {
        lemma_cut_marks(marks, segments, n - 1);
        let prev = cut_marks(marks, segments, n - 1);
        let m = marks[n - 1];
        let c = CutMark::spec_new(m, segments[m.index as int].x_segment);
        let now = cut_marks(marks, segments, n);
        assert(now == prev.push(c));
        assert forall|l: int| 0 <= l < now.len() implies cut_inside(#[trigger] now[l], segments) by {
            if l < prev.len() {
                assert(now[l] == prev[l]);
            }
        }
        assert forall|t: int| 0 <= t < n implies now.contains(
            CutMark::spec_new(#[trigger] marks[t], segments[marks[t].index as int].x_segment),
        ) by {
            let want = CutMark::spec_new(marks[t], segments[marks[t].index as int].x_segment);
            if t < n - 1 {
                let l = choose|l: int| 0 <= l < prev.len() && prev[l] == want;
                assert(now[l] == want);
            } else {
                assert(now[prev.len() as int] == want);
            }
        }
    }
}

/// The sorted cuts of marks that lie strictly within their segments.
pub proof fn lemma_sorted_cuts<C: WindingCount>(marks: Seq<LineMark>, segments: Seq<Segment<C>>)
    requires
        marks_inside(marks, segments),
    ensures
        sorted_by_key(sorted(cut_marks(marks, segments, marks.len() as int))),
        cuts_inside(sorted(cut_marks(marks, segments, marks.len() as int)), segments),
        cuts_complete(sorted(cut_marks(marks, segments, marks.len() as int)), marks, segments),
{
    let raw = cut_marks(marks, segments, marks.len() as int);
    let cuts = sorted(raw);
    lemma_cut_marks(marks, segments, marks.len() as int);
    lemma_sorted_ensures(raw);
    crate::sort::lemma_permutation_keeps(raw, cuts, |c: CutMark| cut_inside(c, segments));
    assert forall|t: int| 0 <= t < marks.len() implies cuts.contains(
        CutMark::spec_new(#[trigger] marks[t], segments[marks[t].index as int].x_segment),
    ) by {
        let want = CutMark::spec_new(marks[t], segments[marks[t].index as int].x_segment);
        raw.to_multiset_ensures();
        cuts.to_multiset_ensures();
        assert(raw.contains(want));
        assert(raw.to_multiset().count(want) > 0);
    }
}

/// What `skip_to` passes over names lesser segments, and where it stops a
/// segment from `index` on is named.
pub proof fn lemma_skip_to(cuts: Seq<CutMark>, k: int, index: int)
    requires
        0 <= k <= cuts.len(),
    ensures
        forall|l: int| k <= l < skip_to(cuts, k, index) ==> (#[trigger] cuts[l]).index < index,
        skip_to(cuts, k, index) < cuts.len() ==> cuts[skip_to(cuts, k, index)].index >= index,
    decreases cuts.len() - k,
{
    if k < cuts.len() && cuts[k].index < index {
        lemma_skip_to(cuts, k + 1, index);
    }
}

/// What a run holds names the segment `index`, and where the run ends
/// another segment is named.
pub proof fn lemma_run_end(cuts: Seq<CutMark>, k: int, index: int)
    requires
        0 <= k <= cuts.len(),
    ensures
        forall|l: int| k <= l < run_end(cuts, k, index) ==> (#[trigger] cuts[l]).index == index,
        run_end(cuts, k, index) < cuts.len() ==> cuts[run_end(cuts, k, index)].index != index,
    decreases cuts.len() - k,
{
    if k < cuts.len() && cuts[k].index == index {
        lemma_run_end(cuts, k + 1, index);
    }
}

/// The pieces into which the segments from `i` on are cut are pieces of
/// these segments.
pub proof fn lemma_cut_from_pieces<C: WindingCount>(
    segments: Seq<Segment<C>>,
    cuts: Seq<CutMark>,
    i: int,
    k: int,
    marks: Seq<LineMark>,
)
    requires
        all_wf(segments),
        sorted_by_key(cuts),
        cuts_inside(cuts, segments),
        cuts_complete(cuts, marks, segments),
        marks_inside(marks, segments),
        segments.len() <= usize::MAX,
        0 <= i,
        0 <= k <= cuts.len(),
        forall|l: int| 0 <= l < k ==> (#[trigger] cuts[l]).index < i,
    ensures
        all_pieces(cut_from(segments, cuts, i, k), marks, segments),
    decreases segments.len() - i,
{
    if i < segments.len() {
        lemma_positions(cuts, k, i);
        lemma_skip_to(cuts, k, i);
        let k0 = skip_to(cuts, k, i);
        lemma_positions(cuts, k0, i);
        lemma_run_end(cuts, k0, i);
        let k1 = run_end(cuts, k0, i);
        let s = segments[i].x_segment;
        assert(s.wf());
        // The cuts from the end of the run on name greater segments.
        assert forall|l: int| k1 <= l < cuts.len() implies (#[trigger] cuts[l]).index > i by {
            assert(key_le(cuts[k0].spec_key(), cuts[l].spec_key())) by {
                if k0 < l {
                }
            }
            if k1 < l {
                assert(key_le(cuts[k1].spec_key(), cuts[l].spec_key()));
            }
            if k1 > k0 {
                assert(key_le(cuts[k1 - 1].spec_key(), cuts[k1].spec_key()));
            }
        }
        assert(run_of(cuts, k0, k1, i, s, marks)) by {
            assert forall|l: int| k0 <= l < k1 implies (#[trigger] cuts[l]).index == i && strictly_within(
                s,
                cuts[l].point,
            ) && cuts[l] == CutMark::spec_new(LineMark { index: i as usize, point: cuts[l].point }, s) by {
                assert(cut_inside(cuts[l], segments));
            }
        }
        assert forall|x: IntPoint| #[trigger]
            marks.contains(LineMark { index: i as usize, point: x }) implies exists|l: int|
            k0 <= l < k1 && #[trigger] cuts[l].point == x by {
            let t = choose|t: int| 0 <= t < marks.len() && marks[t] == (LineMark { index: i as usize, point: x });
            let want = CutMark::spec_new(marks[t], segments[marks[t].index as int].x_segment);
            assert(cuts.contains(want));
            let l = choose|l: int| 0 <= l < cuts.len() && cuts[l] == want;
            assert(cuts[l].index == i);
            assert(k0 <= l < k1);
        }
        assert forall|l: int| k0 <= l < k1 implies !(#[trigger] cuts[l]).point.spec_less(s.a) by {
            assert(cut_inside(cuts[l], segments));
        }
        lemma_chain_pieces(s.a, cuts, k0, k0, k1, i, marks, segments);
        assert forall|l: int| 0 <= l < k1 implies (#[trigger] cuts[l]).index < i + 1 by {
            if l >= k0 {
            } else if l >= k {
            }
        }
        lemma_cut_from_pieces(segments, cuts, i + 1, k1, marks);
        let here = chain(s.a, cuts, k0, k1, s.b, segments[i].count);
        let rest = cut_from(segments, cuts, i + 1, k1);
        let all = cut_from(segments, cuts, i, k);
        assert(all == here + rest);
        assert forall|t: int| 0 <= t < all.len() implies is_piece((#[trigger] all[t]).x_segment, marks, segments) by {
            if t < here.len() {
                assert(all[t] == here[t]);
            } else {
                assert(all[t] == rest[t - here.len()]);
            }
        }
    }
}

/// Merging keeps the segments of a sequence: every merged segment lies
/// where a segment of the sequence lies.
pub proof fn lemma_merged_prefix_from<C: WindingCount>(s: Seq<Segment<C>>, n: int)
    requires
        0 <= n <= s.len(),
    ensures
        forall|k: int|
            0 <= k < merged_prefix(s, n).0.len() ==> exists|t: int|
                0 <= t < n && #[trigger] s[t].x_segment == (#[trigger] merged_prefix(s, n).0[k]).x_segment,
        merged_prefix(s, n).1 matches Some(cur) ==> n > 0 && cur.x_segment == s[n - 1].x_segment,
    decreases n,
{
    if n > 0 {
        lemma_merged_prefix_from(s, n - 1);
        let prev = merged_prefix(s, n - 1);
        let now = merged_prefix(s, n);
        assert forall|k: int| 0 <= k < now.0.len() implies exists|t: int|
            0 <= t < n && #[trigger] s[t].x_segment == (#[trigger] now.0[k]).x_segment by {
            if k < prev.0.len() {
                assert(now.0[k] == prev.0[k]);
                let t = choose|t: int| 0 <= t < n - 1 && #[trigger] s[t].x_segment == prev.0[k].x_segment;
                assert(s[t].x_segment == now.0[k].x_segment);
            } else {
                assert(now.0[k].x_segment == s[n - 2].x_segment);
            }
        }
    }
}

/// Putting pieces in order leaves pieces.
pub proof fn lemma_prepared_pieces<C: WindingCount>(
    pieces: Seq<Segment<C>>,
    marks: Seq<LineMark>,
    segments: Seq<Segment<C>>,
)
    requires
        all_pieces(pieces, marks, segments),
    ensures
        all_pieces(crate::split::solver::prepared(pieces), marks, segments),
{
    let ordered = sorted(pieces);
    lemma_sorted_ensures(pieces);
    crate::sort::lemma_permutation_keeps(
        pieces,
        ordered,
        |g: Segment<C>| is_piece(g.x_segment, marks, segments),
    );
    let n = ordered.len() as int;
    lemma_merged_prefix_from(ordered, n);
    let last = merged_prefix(ordered, n);
    let r = merged(ordered);
    assert forall|k: int| 0 <= k < r.len() implies is_piece((#[trigger] r[k]).x_segment, marks, segments) by {
        if k < last.0.len() {
            assert(r[k] == last.0[k]);
            let t = choose|t: int| 0 <= t < n && #[trigger] ordered[t].x_segment == last.0[k].x_segment;
            assert(is_piece(ordered[t].x_segment, marks, segments));
        } else {
            assert(r[k].x_segment == ordered[n - 1].x_segment);
            assert(is_piece(ordered[n - 1].x_segment, marks, segments));
        }
    }
}

/// Pieces of a working set of which every proper crossing is marked do not
/// cross properly.
pub proof fn lemma_pieces_do_not_cross<C: WindingCount>(
    pieces: Seq<Segment<C>>,
    marks: Seq<LineMark>,
    segments: Seq<Segment<C>>,
)
    requires
        all_wf(segments),
        marks_cover(marks, segments),
        all_pieces(pieces, marks, segments),
    ensures
        no_crossings(pieces),
{
    assert forall|a: int, b: int|
        0 <= a < pieces.len() && 0 <= b < pieces.len() && a != b implies !CrossSolver::crosses_properly(
        (#[trigger] pieces[a]).x_segment,
        (#[trigger] pieces[b]).x_segment,
    ) by {
        let p = pieces[a].x_segment;
        let q = pieces[b].x_segment;
        if CrossSolver::crosses_properly(p, q) {
            assert(is_piece(p, marks, segments));
            assert(is_piece(q, marks, segments));
            let i = choose|i: int| #[trigger] is_piece_of(p, i, marks, segments);
            let j = choose|j: int| #[trigger] is_piece_of(q, j, marks, segments);
            let s = segments[i].x_segment;
            let r = segments[j].x_segment;
            assert(s.wf() && r.wf());
            lemma_part_same_side(p, s, q.a);
            lemma_part_same_side(p, s, q.b);
            lemma_part_same_side(q, r, p.a);
            lemma_part_same_side(q, r, p.b);
            if i == j {
                // Both ends of `q` lie on the line of `p`.
                assert(orient(s.a, s.b, q.a) == 0);
            } else {
                lemma_parts_cross(p, s, q, r);
                let x = choose|x: IntPoint|
                    on_line(s, x) && on_line(r, x) && marks.contains(LineMark { index: i as usize, point: x })
                        && #[trigger] marks.contains(LineMark { index: j as usize, point: x });
                lemma_common_point_inside(p, s, r, x);
            }
        }
    }
}

/// Applying marks that lie strictly within their segments and cover every
/// proper crossing leaves a working set without proper crossings.
pub proof fn lemma_exact_apply_no_crossings<C: WindingCount>(marks: Seq<LineMark>, segments: Seq<Segment<C>>)
    requires
        all_wf(segments),
        segments.len() <= usize::MAX,
        marks_inside(marks, segments),
        marks_cover(marks, segments),
    ensures
        no_crossings(applied(marks, segments)),
{
    lemma_sorted_cuts(marks, segments);
    let cuts = sorted(cut_marks(marks, segments, marks.len() as int));
    lemma_cut_from_pieces(segments, cuts, 0, 0, marks);
    lemma_prepared_pieces(cut_pieces(marks, segments), marks, segments);
    lemma_pieces_do_not_cross(applied(marks, segments), marks, segments);
}

} // verus!

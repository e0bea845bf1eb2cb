use vstd::prelude::*;
use crate::geom::line::on_line;
use crate::geom::point::IntPoint;
use crate::segm::count::WindingCount;
use crate::segm::segment::{all_wf, Segment};
use crate::split::apply_laws::{lemma_exact_apply_no_crossings, marks_cover, marks_inside};
use crate::split::cross_laws::{lemma_cross_symmetric, lemma_proper_pair_is_marked};
use crate::split::cross_solver::CrossSolver;
use crate::split::exact_laws::lemma_exact_point_inside;
use crate::split::fragment::Fragment;
use crate::split::line_mark::LineMark;
use crate::split::list_laws::{
    lemma_contains_in_sum, lemma_cross_marks_exact, lemma_cross_marks_inside, mark_inside_pair, no_crossings,
};
use crate::split::segment_tree::{ordered_cross_marks, tested_marks};
use crate::split::solver::{applied, cross_marks};

verus! {

/// Whether a fragment stands for a segment of the working set.
pub open spec fn fragment_of<C>(f: Fragment, segments: Seq<Segment<C>>) -> bool {
    f.index < segments.len() && f.x_segment == segments[f.index as int].x_segment
}

/// Whether every fragment of a sequence stands for a segment of the working
/// set.
pub open spec fn fragments_of<C>(fragments: Seq<Fragment>, segments: Seq<Segment<C>>) -> bool {
    forall|k: int| 0 <= k < fragments.len() ==> fragment_of(#[trigger] fragments[k], segments)
}

/// Whether `total` holds every mark of `part`, and calls for another pass
/// where `part` does.
pub open spec fn includes(total: (Seq<LineMark>, bool), part: (Seq<LineMark>, bool)) -> bool {
    &&& forall|k: int| 0 <= k < part.0.len() ==> total.0.contains(#[trigger] part.0[k])
    &&& part.1 ==> total.1
}

/// Whether a mark stems from a pair of fragments of the working set that
/// calls for another pass only where `round` is set.
pub open spec fn mark_from_pair<C>(mark: LineMark, round: bool, segments: Seq<Segment<C>>, radius: int) -> bool {
    exists|f: Fragment, g: Fragment|
        fragment_of(f, segments) && fragment_of(g, segments) && (#[trigger] cross_marks(f, g, radius)).0.contains(
            mark,
        ) && (cross_marks(f, g, radius).1 ==> round)
}

/// Whether every mark of a pass stems from a pair of fragments of the
/// working set, and the pass calls for another wherever such a pair does.
pub open spec fn from_pairs<C>(pass: (Seq<LineMark>, bool), segments: Seq<Segment<C>>, radius: int) -> bool {
    forall|k: int| 0 <= k < pass.0.len() ==> mark_from_pair(#[trigger] pass.0[k], pass.1, segments, radius)
}

/// The marks of two passes, one after the other.
pub open spec fn joint(a: (Seq<LineMark>, bool), b: (Seq<LineMark>, bool)) -> (Seq<LineMark>, bool) {
    (a.0 + b.0, a.1 || b.1)
}

/// Two passes together include either.
pub proof fn lemma_joint_includes(a: (Seq<LineMark>, bool), b: (Seq<LineMark>, bool), part: (Seq<LineMark>, bool))
    requires
        includes(a, part) || includes(b, part),
    ensures
        includes(joint(a, b), part),
{
    assert forall|k: int| 0 <= k < part.0.len() implies joint(a, b).0.contains(#[trigger] part.0[k]) by {
        lemma_contains_in_sum(a.0, b.0, part.0[k]);
    }
}

/// A pass includes itself.
pub proof fn lemma_includes_self(a: (Seq<LineMark>, bool))
    ensures
        includes(a, a),
{
    assert forall|k: int| 0 <= k < a.0.len() implies a.0.contains(#[trigger] a.0[k]) by {
        assert(a.0[k] == a.0[k]);
    }
}

/// What a pass includes, a pass that includes it includes.
pub proof fn lemma_includes_chain(a: (Seq<LineMark>, bool), b: (Seq<LineMark>, bool), c: (Seq<LineMark>, bool))
    requires
        includes(a, b),
        includes(b, c),
    ensures
        includes(a, c),
{
    assert forall|k: int| 0 <= k < c.0.len() implies a.0.contains(#[trigger] c.0[k]) by {
        let m = c.0[k];
        assert(b.0.contains(m));
        let t = choose|t: int| 0 <= t < b.0.len() && b.0[t] == m;
        assert(a.0.contains(b.0[t]));
    }
}

/// Passes that stem from pairs of fragments stem from pairs of fragments when
/// they are put together.
pub proof fn lemma_joint_from_pairs<C>(
    a: (Seq<LineMark>, bool),
    b: (Seq<LineMark>, bool),
    segments: Seq<Segment<C>>,
    radius: int,
)
    requires
        from_pairs(a, segments, radius),
        from_pairs(b, segments, radius),
    ensures
        from_pairs(joint(a, b), segments, radius),
{
    let j = joint(a, b);
    assert forall|k: int| 0 <= k < j.0.len() implies mark_from_pair(#[trigger] j.0[k], j.1, segments, radius) by {
        if k < a.0.len() {
            assert(j.0[k] == a.0[k]);
            assert(mark_from_pair(a.0[k], a.1, segments, radius));
            let (f, g) = choose|f: Fragment, g: Fragment|
                fragment_of(f, segments) && fragment_of(g, segments) && (#[trigger] cross_marks(
                    f,
                    g,
                    radius,
                )).0.contains(a.0[k]) && (cross_marks(f, g, radius).1 ==> a.1);
            assert(cross_marks(f, g, radius).0.contains(j.0[k]));
        } else {
            assert(j.0[k] == b.0[k - a.0.len()]);
            assert(mark_from_pair(b.0[k - a.0.len()], b.1, segments, radius));
            let (f, g) = choose|f: Fragment, g: Fragment|
                fragment_of(f, segments) && fragment_of(g, segments) && (#[trigger] cross_marks(
                    f,
                    g,
                    radius,
                )).0.contains(b.0[k - a.0.len()]) && (cross_marks(f, g, radius).1 ==> b.1);
            assert(cross_marks(f, g, radius).0.contains(j.0[k]));
        }
    }
}

/// The marks of a tested pair of fragments of the working set stem from a
/// pair of fragments.
pub proof fn lemma_tested_from_pairs<C>(f: Fragment, g: Fragment, segments: Seq<Segment<C>>, radius: int)
    requires
        fragment_of(f, segments),
        fragment_of(g, segments),
    ensures
        from_pairs(tested_marks(f, g, radius), segments, radius),
        from_pairs(ordered_cross_marks(f, g, radius), segments, radius),
        from_pairs(cross_marks(f, g, radius), segments, radius),
{
    let a = cross_marks(f, g, radius);
    assert forall|k: int| 0 <= k < a.0.len() implies mark_from_pair(#[trigger] a.0[k], a.1, segments, radius) by {
        assert(a.0.contains(a.0[k]));
    }
    let b = cross_marks(g, f, radius);
    assert forall|k: int| 0 <= k < b.0.len() implies mark_from_pair(#[trigger] b.0[k], b.1, segments, radius) by {
        assert(b.0.contains(b.0[k]));
    }
}

/// The marks of a pass that stems from pairs of fragments and calls for no
/// other pass lie strictly within their segments.
pub proof fn lemma_from_pairs_inside<C>(pass: (Seq<LineMark>, bool), segments: Seq<Segment<C>>, radius: int)
    requires
        all_wf(segments),
        from_pairs(pass, segments, radius),
        !pass.1,
    ensures
        marks_inside(pass.0, segments),
{
    assert forall|k: int| 0 <= k < pass.0.len() implies (#[trigger] pass.0[k]).index < segments.len()
        && crate::geom::line::strictly_within(segments[pass.0[k].index as int].x_segment, pass.0[k].point) by {
        let m = pass.0[k];
        assert(mark_from_pair(m, pass.1, segments, radius));
        let (f, g) = choose|f: Fragment, g: Fragment|
            fragment_of(f, segments) && fragment_of(g, segments) && (#[trigger] cross_marks(
                f,
                g,
                radius,
            )).0.contains(m) && (cross_marks(f, g, radius).1 ==> pass.1);
        assert(segments[f.index as int].x_segment.wf());
        assert(segments[g.index as int].x_segment.wf());
        lemma_cross_marks_inside(f, g, radius);
        let t = choose|t: int| 0 <= t < cross_marks(f, g, radius).0.len() && cross_marks(f, g, radius).0[t] == m;
        assert(mark_inside_pair(cross_marks(f, g, radius).0[t], f, g));
    }
}

/// The point at which the segments of two fragments are cut when the pair is
/// tested with the lesser segment first.
pub open spec fn tested_point(f: Fragment, g: Fragment) -> IntPoint {
    if f.x_segment.spec_less(g.x_segment) {
        CrossSolver::spec_cross_point(f.x_segment, g.x_segment)
    } else {
        CrossSolver::spec_cross_point(g.x_segment, f.x_segment)
    }
}

/// Whether a pass includes the test of a pair of fragments that stand for
/// segments `i` and `j` and both hold the point at which the segments are
/// cut.
pub open spec fn pair_included<C>(
    pass: (Seq<LineMark>, bool),
    segments: Seq<Segment<C>>,
    i: int,
    j: int,
    radius: int,
) -> bool {
    exists|f: Fragment, g: Fragment| #[trigger]
        includes(pass, ordered_cross_marks(f, g, radius)) && fragment_of(f, segments) && fragment_of(g, segments)
            && f.index == i && g.index == j && f.rect.spec_contains_with_radius(tested_point(f, g), 0)
            && g.rect.spec_contains_with_radius(tested_point(f, g), 0)
}

/// Whether a pass includes the test of every pair of segments that cross
/// properly.
pub open spec fn complete<C>(pass: (Seq<LineMark>, bool), segments: Seq<Segment<C>>, radius: int) -> bool {
    forall|i: int, j: int|
        0 <= i < segments.len() && 0 <= j < segments.len() && i != j && CrossSolver::crosses_properly(
            (#[trigger] segments[i]).x_segment,
            (#[trigger] segments[j]).x_segment,
        ) ==> pair_included(pass, segments, i, j, radius) || pair_included(pass, segments, j, i, radius)
}

/// A complete pass without marks runs over a working set without proper
/// crossings.
pub proof fn lemma_complete_quiet<C>(pass: (Seq<LineMark>, bool), segments: Seq<Segment<C>>, radius: int)
    requires
        complete(pass, segments, radius),
        radius >= 1,
        pass.0.len() == 0,
    ensures
        no_crossings(segments),
{
    assert forall|i: int, j: int|
        0 <= i < segments.len() && 0 <= j < segments.len() && i != j implies !CrossSolver::crosses_properly(
        (#[trigger] segments[i]).x_segment,
        (#[trigger] segments[j]).x_segment,
    ) by {
        if CrossSolver::crosses_properly(segments[i].x_segment, segments[j].x_segment) {
            let (a, b) = if pair_included(pass, segments, i, j, radius) {
                (i, j)
            } else {
                (j, i)
            };
            assert(pair_included(pass, segments, a, b, radius));
            let (f, g) = choose|f: Fragment, g: Fragment| #[trigger]
                includes(pass, ordered_cross_marks(f, g, radius)) && fragment_of(f, segments) && fragment_of(
                    g,
                    segments,
                ) && f.index == a && g.index == b && f.rect.spec_contains_with_radius(tested_point(f, g), 0)
                    && g.rect.spec_contains_with_radius(tested_point(f, g), 0);
            lemma_cross_symmetric(f.x_segment, g.x_segment);
            lemma_cross_symmetric(segments[i].x_segment, segments[j].x_segment);
            let part = ordered_cross_marks(f, g, radius);
            if f.x_segment.spec_less(g.x_segment) {
                lemma_proper_pair_is_marked(f, g, radius);
            } else {
                lemma_proper_pair_is_marked(g, f, radius);
            }
            assert(pass.0.contains(part.0[0]));
        }
    }
}

/// A complete pass that stems from pairs of fragments and calls for no other
/// pass leaves, once its marks are applied, a working set without proper
/// crossings.
pub proof fn lemma_complete_exact<C: WindingCount>(
    pass: (Seq<LineMark>, bool),
    segments: Seq<Segment<C>>,
    radius: int,
)
    requires
        all_wf(segments),
        segments.len() <= usize::MAX,
        complete(pass, segments, radius),
        marks_inside(pass.0, segments),
        radius >= 1,
        !pass.1,
    ensures
        marks_cover(pass.0, segments),
        no_crossings(applied(pass.0, segments)),
{
    let marks = pass.0;
    assert forall|i: int, j: int|
        0 <= i < segments.len() && 0 <= j < segments.len() && i != j && CrossSolver::crosses_properly(
            (#[trigger] segments[i]).x_segment,
            (#[trigger] segments[j]).x_segment,
        ) implies exists|x: IntPoint|
        on_line(segments[i].x_segment, x) && on_line(segments[j].x_segment, x) && marks.contains(
            LineMark { index: i as usize, point: x },
        ) && #[trigger] marks.contains(LineMark { index: j as usize, point: x }) by {
        let (a, b) = if pair_included(pass, segments, i, j, radius) {
            (i, j)
        } else {
            (j, i)
        };
        assert(pair_included(pass, segments, a, b, radius));
        let (f, g) = choose|f: Fragment, g: Fragment| #[trigger]
            includes(pass, ordered_cross_marks(f, g, radius)) && fragment_of(f, segments) && fragment_of(
                g,
                segments,
            ) && f.index == a && g.index == b && f.rect.spec_contains_with_radius(tested_point(f, g), 0)
                && g.rect.spec_contains_with_radius(tested_point(f, g), 0);
        lemma_cross_symmetric(f.x_segment, g.x_segment);
        lemma_cross_symmetric(segments[i].x_segment, segments[j].x_segment);
        assert(f.x_segment.wf() && g.x_segment.wf());
        let part = ordered_cross_marks(f, g, radius);
        let x = tested_point(f, g);
        if f.x_segment.spec_less(g.x_segment) {
            lemma_cross_marks_exact(f, g, radius);
            lemma_exact_point_inside(f.x_segment, g.x_segment);
        } else {
            lemma_cross_marks_exact(g, f, radius);
            lemma_exact_point_inside(g.x_segment, f.x_segment);
        }
        assert(marks.contains(part.0[0]));
        assert(marks.contains(part.0[1]));
        assert(marks.contains(LineMark { index: i as usize, point: x }));
        assert(marks.contains(LineMark { index: j as usize, point: x }));
    }
    lemma_exact_apply_no_crossings(marks, segments);
}

} // verus!

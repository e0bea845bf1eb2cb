use vstd::prelude::*;
use crate::fill::fill_rule::FillRule;
use crate::geom::point::IntPoint;
use crate::overlay::builder::{paths_segments, spec_overlay};
use crate::overlay::rule::OverlayRule;
use crate::segm::count::{ShapeCountBoolean, ShapeType, WindingCount};
use crate::segm::builder::lemma_closed_edges_wf;
use crate::segm::segment::{all_wf, Segment};
use crate::solver::Solver;
use crate::sort::lemma_sorted_of_permutation;
use crate::split::list_laws::no_crossings;
use crate::split::solver::{list_run, prepared, SplitEnd};
use crate::split::solver_fragment::{fragment_run, split_outcome, split_run};
use crate::split::solver_tree::tree_run;
use crate::split::split_laws::lemma_no_residual_crossings;

verus! {

/// The segments of an overlay of the given subject paths and clip paths.
pub open spec fn overlay_segments(subject: Seq<Seq<IntPoint>>, clip: Seq<Seq<IntPoint>>) -> Seq<
    Segment<ShapeCountBoolean>,
> {
    paths_segments(subject, subject.len() as int, ShapeType::Subject) + paths_segments(
        clip,
        clip.len() as int,
        ShapeType::Clip,
    )
}

/// Every segment of a list of paths is well formed.
pub proof fn lemma_paths_segments_wf(paths: Seq<Seq<IntPoint>>, n: int, shape_type: ShapeType)
    requires
        n <= paths.len(),
    ensures
        all_wf(paths_segments(paths, n, shape_type)),
    decreases n,
{
    if n > 0 {
        let counts = ShapeCountBoolean::spec_with_shape_type(shape_type);
        lemma_paths_segments_wf(paths, n - 1, shape_type);
        lemma_closed_edges_wf(paths[n - 1], paths[n - 1].len() as int, counts.0, counts.1);
    }
}

/// No residual crossings in an overlay: where the segments of subject paths
/// and clip paths are split and the run of the last strategy ends because a
/// pass finds no mark or needs no rounding, no two segments of the result
/// cross properly.
pub proof fn lemma_overlay_no_residual_crossings(
    subject: Seq<Seq<IntPoint>>,
    clip: Seq<Seq<IntPoint>>,
    solver: Solver,
)
    requires
        split_outcome(solver, overlay_segments(subject, clip)).1 == SplitEnd::Quiet || split_outcome(
            solver,
            overlay_segments(subject, clip),
        ).1 == SplitEnd::Exact,
    ensures
        no_crossings(split_run(solver, overlay_segments(subject, clip))),
{
    lemma_paths_segments_wf(subject, subject.len() as int, ShapeType::Subject);
    lemma_paths_segments_wf(clip, clip.len() as int, ShapeType::Clip);
    lemma_no_residual_crossings(solver, overlay_segments(subject, clip));
}

/// Working sets that hold the same segments are put in the same order.
pub proof fn lemma_prepared_of_permutation<C: WindingCount>(a: Seq<Segment<C>>, b: Seq<Segment<C>>)
    requires
        a.to_multiset() == b.to_multiset(),
    ensures
        prepared(a) == prepared(b),
{
    lemma_sorted_of_permutation(a, b);
}

/// Sets of segments that hold the same segments are split into the same
/// working set.
pub proof fn lemma_split_of_permutation<C: WindingCount>(solver: Solver, a: Seq<Segment<C>>, b: Seq<Segment<C>>)
    requires
        a.to_multiset() == b.to_multiset(),
    ensures
        split_run(solver, a) == split_run(solver, b),
{
    vstd::seq_lib::to_multiset_len(a);
    vstd::seq_lib::to_multiset_len(b);
    lemma_prepared_of_permutation(a, b);
    if a.len() == 0 {
        assert(a =~= b);
    }
}

/// The strategies do not depend on the order in which segments are given:
/// working sets that hold the same segments, once put in order, take the
/// same run of the grid strategy and of the tree strategy.
pub proof fn lemma_runs_of_permutation<C: WindingCount>(
    solver: Solver,
    a: Seq<Segment<C>>,
    b: Seq<Segment<C>>,
    iter: usize,
)
    requires
        a.to_multiset() == b.to_multiset(),
    ensures
        fragment_run(solver, prepared(a), iter) == fragment_run(solver, prepared(b), iter),
        tree_run(solver, prepared(a), iter) == tree_run(solver, prepared(b), iter),
        list_run(solver, prepared(a), iter) == list_run(solver, prepared(b), iter),
{
    lemma_prepared_of_permutation(a, b);
}

/// The segments of the first `n` paths depend on these paths alone.
pub proof fn lemma_paths_segments_prefix(
    a: Seq<Seq<IntPoint>>,
    b: Seq<Seq<IntPoint>>,
    n: int,
    shape_type: ShapeType,
)
    requires
        0 <= n <= a.len(),
        n <= b.len(),
        forall|i: int| 0 <= i < n ==> a[i] == b[i],
    ensures
        paths_segments(a, n, shape_type) == paths_segments(b, n, shape_type),
    decreases n,
{
    if n > 0 {
        lemma_paths_segments_prefix(a, b, n - 1, shape_type);
    }
}

/// A path that is put into a list of paths adds its segments to those of
/// the list, wherever it is put.
pub proof fn lemma_paths_segments_insert(
    paths: Seq<Seq<IntPoint>>,
    k: int,
    path: Seq<IntPoint>,
    shape_type: ShapeType,
)
    requires
        0 <= k <= paths.len(),
    ensures
        paths_segments(paths.insert(k, path), paths.len() as int + 1, shape_type).to_multiset() == paths_segments(
            paths,
            paths.len() as int,
            shape_type,
        ).to_multiset().add(paths_segments(seq![path], 1, shape_type).to_multiset()),
    decreases paths.len(),
{
    let counts = ShapeCountBoolean::spec_with_shape_type(shape_type);
    let longer = paths.insert(k, path);
    let n = paths.len() as int;
    let own = crate::segm::builder::path_segments(path, counts.0, counts.1);
    assert(paths_segments(seq![path], 1, shape_type) =~= own) by {
        assert(paths_segments(seq![path], 0, shape_type) == Seq::<Segment<ShapeCountBoolean>>::empty());
    }
    if k == n {
        assert(longer =~= paths.push(path));
        lemma_paths_segments_prefix(longer, paths, n, shape_type);
        assert(paths_segments(longer, n + 1, shape_type) == paths_segments(paths, n, shape_type) + own);
        vstd::seq_lib::lemma_multiset_commutative(paths_segments(paths, n, shape_type), own);
    } else {
        let last = paths.last();
        let shorter = paths.drop_last();
        let last_own = crate::segm::builder::path_segments(last, counts.0, counts.1);
        assert(longer.drop_last() =~= shorter.insert(k, path));
        assert(longer[n] == last);
        lemma_paths_segments_insert(shorter, k, path, shape_type);
        lemma_paths_segments_prefix(longer, shorter.insert(k, path), n, shape_type);
        lemma_paths_segments_prefix(paths, shorter, n - 1, shape_type);
        let head = paths_segments(shorter.insert(k, path), n, shape_type);
        let base = paths_segments(shorter, n - 1, shape_type);
        assert(paths_segments(longer, n + 1, shape_type) == head + last_own);
        assert(paths_segments(paths, n, shape_type) == base + last_own);
        vstd::seq_lib::lemma_multiset_commutative(head, last_own);
        vstd::seq_lib::lemma_multiset_commutative(base, last_own);
        assert(head.to_multiset().add(last_own.to_multiset()) =~= base.to_multiset().add(
            last_own.to_multiset(),
        ).add(own.to_multiset()));
    }
}

/// Lists that hold the same paths yield the same segments, whatever the
/// order of the paths.
pub proof fn lemma_paths_segments_of_permutation(
    a: Seq<Seq<IntPoint>>,
    b: Seq<Seq<IntPoint>>,
    shape_type: ShapeType,
)
    requires
        a.to_multiset() == b.to_multiset(),
    ensures
        paths_segments(a, a.len() as int, shape_type).to_multiset() == paths_segments(
            b,
            b.len() as int,
            shape_type,
        ).to_multiset(),
    decreases a.len(),
{
    vstd::seq_lib::to_multiset_len(a);
    vstd::seq_lib::to_multiset_len(b);
    if a.len() == 0 {
        assert(a =~= b);
    } else {
        let path = a.last();
        let rest = a.drop_last();
        a.to_multiset_ensures();
        b.to_multiset_ensures();
        assert(a.contains(path));
        assert(b.to_multiset().count(path) > 0);
        assert(b.contains(path));
        let k = choose|k: int| 0 <= k < b.len() && b[k] == path;
        let others = b.remove(k);
        assert(a =~= rest.insert(rest.len() as int, path));
        assert(b =~= others.insert(k, path));
        vstd::seq_lib::to_multiset_remove(b, k);
        vstd::seq_lib::to_multiset_remove(a, a.len() - 1);
        assert(a.remove(a.len() - 1) =~= rest);
        assert(rest.to_multiset() == others.to_multiset());
        lemma_paths_segments_of_permutation(rest, others, shape_type);
        lemma_paths_segments_insert(rest, rest.len() as int, path, shape_type);
        lemma_paths_segments_insert(others, k, path, shape_type);
    }
}

/// The order of the input paths does not matter: two lists of subject paths
/// that hold the same paths, with two lists of clip paths that hold the same
/// paths, give the same shapes for every rule.
pub proof fn lemma_order_independence(
    subject: Seq<Seq<IntPoint>>,
    shuffled_subject: Seq<Seq<IntPoint>>,
    clip: Seq<Seq<IntPoint>>,
    shuffled_clip: Seq<Seq<IntPoint>>,
    overlay_rule: OverlayRule,
    fill_rule: FillRule,
    min_area: int,
    solver: Solver,
)
    requires
        subject.to_multiset() == shuffled_subject.to_multiset(),
        clip.to_multiset() == shuffled_clip.to_multiset(),
    ensures
        spec_overlay(overlay_segments(subject, clip), overlay_rule, fill_rule, min_area, solver) == spec_overlay(
            overlay_segments(shuffled_subject, shuffled_clip),
            overlay_rule,
            fill_rule,
            min_area,
            solver,
        ),
{
    let a = overlay_segments(subject, clip);
    let b = overlay_segments(shuffled_subject, shuffled_clip);
    lemma_paths_segments_of_permutation(subject, shuffled_subject, ShapeType::Subject);
    lemma_paths_segments_of_permutation(clip, shuffled_clip, ShapeType::Clip);
    vstd::seq_lib::lemma_multiset_commutative(
        paths_segments(subject, subject.len() as int, ShapeType::Subject),
        paths_segments(clip, clip.len() as int, ShapeType::Clip),
    );
    vstd::seq_lib::lemma_multiset_commutative(
        paths_segments(shuffled_subject, shuffled_subject.len() as int, ShapeType::Subject),
        paths_segments(shuffled_clip, shuffled_clip.len() as int, ShapeType::Clip),
    );
    assert(a.to_multiset() == b.to_multiset());
    vstd::seq_lib::to_multiset_len(a);
    vstd::seq_lib::to_multiset_len(b);
    lemma_split_of_permutation(solver, a, b);
}

} // verus!

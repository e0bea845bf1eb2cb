use vstd::prelude::*;
use crate::geom::rect::LineRange;
use crate::segm::count::WindingCount;
use crate::segm::segment::{all_wf, Segment};
use crate::solver::{lemma_pow2_monotonic, Solver};
use crate::split::cross_laws::{lemma_cross_point_in_rects, lemma_cross_symmetric};
use crate::split::cross_solver::CrossSolver;
use crate::split::fragment::Fragment;
use crate::split::line_mark::LineMark;
use crate::split::list_laws::{lemma_applied_sorted, lemma_no_crossings_is_no_pure, no_crossings, no_pure_crossings};
use crate::split::pass_laws::{
    complete, fragment_of, fragments_of, from_pairs, includes, joint, lemma_complete_exact, lemma_complete_quiet,
    lemma_from_pairs_inside, lemma_includes_chain, lemma_includes_self, lemma_joint_from_pairs, lemma_joint_includes,
    lemma_tested_from_pairs, pair_included,
};
use crate::split::segment_tree::{
    bucket_marks, inserted, lemma_slot_in_range, levels_of, middle_of, new_nodes, ordered_cross_marks, slot,
    subtree_marks, tested_marks, NodeView,
};
use crate::split::solver::{applied, whole, SplitEnd, MAX_PASSES};
use crate::split::solver_tree::{simple_run, tree_pass_from, wholes};

verus! {

/// Whether every fragment that the tree stores stands for a segment of the
/// working set.
pub open spec fn nodes_of<C>(nodes: Seq<NodeView>, segments: Seq<Segment<C>>) -> bool {
    forall|i: int| 0 <= i < nodes.len() ==> fragments_of((#[trigger] nodes[i]).fragments, segments)
}

/// Whether the tree stores `f` at the node that the search for its vertical
/// range ends at.
pub open spec fn stored_in(nodes: Seq<NodeView>, power: nat, f: Fragment) -> bool {
    nodes[slot(nodes, 0, power, f.rect.y_range_spec())].fragments.contains(f)
}

/// The marks of a bucket stem from pairs of fragments.
pub proof fn lemma_bucket_from_pairs<C>(
    stored: Seq<Fragment>,
    k: int,
    this: Fragment,
    segments: Seq<Segment<C>>,
    radius: int,
)
    requires
        fragments_of(stored, segments),
        fragment_of(this, segments),
        0 <= k,
    ensures
        from_pairs(bucket_marks(stored, k, this, radius), segments, radius),
    decreases stored.len() - k,
{
    if k < stored.len() {
        lemma_tested_from_pairs(this, stored[k], segments, radius);
        lemma_bucket_from_pairs(stored, k + 1, this, segments, radius);
        lemma_joint_from_pairs(
            tested_marks(this, stored[k], radius),
            bucket_marks(stored, k + 1, this, radius),
            segments,
            radius,
        );
    }
}

/// The marks of a subtree stem from pairs of fragments.
pub proof fn lemma_subtree_from_pairs<C>(
    nodes: Seq<NodeView>,
    i: int,
    fuel: nat,
    this: Fragment,
    segments: Seq<Segment<C>>,
    radius: int,
)
    requires
        nodes_of(nodes, segments),
        fragment_of(this, segments),
    ensures
        from_pairs(subtree_marks(nodes, i, fuel, this, radius), segments, radius),
    decreases fuel,
{
    if 0 <= i < nodes.len() {
        let here = bucket_marks(nodes[i].fragments, 0, this, radius);
        lemma_bucket_from_pairs(nodes[i].fragments, 0, this, segments, radius);
        if fuel == 0 || 2 * i + 2 >= nodes.len() {
        } else {
            let nothing = (Seq::<LineMark>::empty(), false);
            let left = if this.rect.min_y < middle_of(nodes[i].range) {
                subtree_marks(nodes, 2 * i + 1, (fuel - 1) as nat, this, radius)
            } else {
                nothing
            };
            let right = if this.rect.max_y > middle_of(nodes[i].range) {
                subtree_marks(nodes, 2 * i + 2, (fuel - 1) as nat, this, radius)
            } else {
                nothing
            };
            lemma_subtree_from_pairs(nodes, 2 * i + 1, (fuel - 1) as nat, this, segments, radius);
            lemma_subtree_from_pairs(nodes, 2 * i + 2, (fuel - 1) as nat, this, segments, radius);
            lemma_joint_from_pairs(here, left, segments, radius);
            lemma_joint_from_pairs(joint(here, left), right, segments, radius);
            assert(subtree_marks(nodes, i, fuel, this, radius) == joint(joint(here, left), right));
        }
    }
}

/// Storing a fragment of the working set keeps the tree a tree of fragments
/// of the working set.
pub proof fn lemma_inserted_of<C>(nodes: Seq<NodeView>, power: nat, f: Fragment, segments: Seq<Segment<C>>)
    requires
        nodes.len() >= 1,
        nodes_of(nodes, segments),
        fragment_of(f, segments),
    ensures
        nodes_of(inserted(nodes, power, f), segments),
{
    lemma_slot_in_range(nodes, 0, power, f.rect.y_range_spec());
    let at = slot(nodes, 0, power, f.rect.y_range_spec());
    let after = inserted(nodes, power, f);
    assert forall|i: int| 0 <= i < after.len() implies fragments_of((#[trigger] after[i]).fragments, segments) by {
        if i == at {
            let grown = after[i].fragments;
            assert forall|k: int| 0 <= k < grown.len() implies fragment_of(#[trigger] grown[k], segments) by {
                if k < nodes[at].fragments.len() {
                    assert(grown[k] == nodes[at].fragments[k]);
                }
            }
        } else {
            assert(after[i] == nodes[i]);
        }
    }
}

/// The marks of a pass over the tree stem from pairs of fragments.
pub proof fn lemma_tree_pass_from_pairs<C>(
    nodes: Seq<NodeView>,
    power: nat,
    fragments: Seq<Fragment>,
    k: int,
    segments: Seq<Segment<C>>,
    radius: int,
)
    requires
        nodes.len() >= 1,
        nodes_of(nodes, segments),
        fragments_of(fragments, segments),
        0 <= k,
    ensures
        from_pairs(tree_pass_from(nodes, power, fragments, k, radius), segments, radius),
    decreases fragments.len() - k,
{
    if k < fragments.len() {
        lemma_subtree_from_pairs(nodes, 0, power, fragments[k], segments, radius);
        lemma_inserted_of(nodes, power, fragments[k], segments);
        lemma_slot_in_range(nodes, 0, power, fragments[k].rect.y_range_spec());
        lemma_tree_pass_from_pairs(inserted(nodes, power, fragments[k]), power, fragments, k + 1, segments, radius);
        lemma_joint_from_pairs(
            subtree_marks(nodes, 0, power, fragments[k], radius),
            tree_pass_from(inserted(nodes, power, fragments[k]), power, fragments, k + 1, radius),
            segments,
            radius,
        );
    }
}

/// The marks of a bucket include the marks of every pair with a fragment of
/// the bucket.
pub proof fn lemma_bucket_includes(stored: Seq<Fragment>, k: int, this: Fragment, radius: int, t: int)
    requires
        0 <= k <= t < stored.len(),
    ensures
        includes(bucket_marks(stored, k, this, radius), tested_marks(this, stored[t], radius)),
    decreases stored.len() - k,
{
    let here = tested_marks(this, stored[k], radius);
    let rest = bucket_marks(stored, k + 1, this, radius);
    assert(bucket_marks(stored, k, this, radius) == joint(here, rest));
    if t == k {
        lemma_includes_self(here);
    } else {
        lemma_bucket_includes(stored, k + 1, this, radius, t);
    }
    lemma_joint_includes(here, rest, tested_marks(this, stored[t], radius));
}

/// The search for a range ends at the same node in trees of the same ranges.
pub proof fn lemma_slot_same_ranges(a: Seq<NodeView>, b: Seq<NodeView>, i: int, fuel: nat, range: LineRange)
    requires
        a.len() == b.len(),
        forall|k: int| 0 <= k < a.len() ==> (#[trigger] a[k]).range == b[k].range,
    ensures
        slot(a, i, fuel, range) == slot(b, i, fuel, range),
    decreases fuel,
{
    if fuel == 0 || i < 0 || 2 * i + 2 >= a.len() {
    } else {
        assert(a[i].range == b[i].range);
        lemma_slot_same_ranges(a, b, 2 * i + 1, (fuel - 1) as nat, range);
        lemma_slot_same_ranges(a, b, 2 * i + 2, (fuel - 1) as nat, range);
    }
}

/// The marks of a subtree include the marks of the bucket at which the search
/// for a range ends, where the vertical range of the fragment meets that
/// range.
pub proof fn lemma_subtree_includes(
    nodes: Seq<NodeView>,
    i: int,
    fuel: nat,
    this: Fragment,
    radius: int,
    range: LineRange,
)
    requires
        0 <= i < nodes.len(),
        this.rect.min_y <= range.max,
        range.min <= this.rect.max_y,
    ensures
        0 <= slot(nodes, i, fuel, range) < nodes.len(),
        includes(
            subtree_marks(nodes, i, fuel, this, radius),
            bucket_marks(nodes[slot(nodes, i, fuel, range)].fragments, 0, this, radius),
        ),
    decreases fuel,
{
    lemma_slot_in_range(nodes, i, fuel, range);
    let here = bucket_marks(nodes[i].fragments, 0, this, radius);
    let at = slot(nodes, i, fuel, range);
    let goal = bucket_marks(nodes[at].fragments, 0, this, radius);
    if fuel == 0 || 2 * i + 2 >= nodes.len() {
        lemma_includes_self(here);
    } else {
        let nothing = (Seq::<LineMark>::empty(), false);
        let mid = middle_of(nodes[i].range);
        let left = if this.rect.min_y < mid {
            subtree_marks(nodes, 2 * i + 1, (fuel - 1) as nat, this, radius)
        } else {
            nothing
        };
        let right = if this.rect.max_y > mid {
            subtree_marks(nodes, 2 * i + 2, (fuel - 1) as nat, this, radius)
        } else {
            nothing
        };
        assert(subtree_marks(nodes, i, fuel, this, radius) == joint(joint(here, left), right));
        if range.max < mid {
            lemma_subtree_includes(nodes, 2 * i + 1, (fuel - 1) as nat, this, radius, range);
            lemma_joint_includes(here, left, goal);
            lemma_joint_includes(joint(here, left), right, goal);
        } else if range.min > mid {
            lemma_subtree_includes(nodes, 2 * i + 2, (fuel - 1) as nat, this, radius, range);
            lemma_joint_includes(joint(here, left), right, goal);
        } else {
            lemma_includes_self(here);
            lemma_joint_includes(here, left, goal);
            lemma_joint_includes(joint(here, left), right, goal);
        }
    }
}

/// What the tree stores, it stores after another fragment is stored; and it
/// stores that fragment.
pub proof fn lemma_inserted_stored(nodes: Seq<NodeView>, power: nat, f: Fragment, g: Fragment)
    requires
        nodes.len() >= 1,
        g == f || stored_in(nodes, power, g),
    ensures
        stored_in(inserted(nodes, power, f), power, g),
{
    let after = inserted(nodes, power, f);
    lemma_slot_in_range(nodes, 0, power, f.rect.y_range_spec());
    lemma_slot_in_range(nodes, 0, power, g.rect.y_range_spec());
    lemma_slot_same_ranges(nodes, after, 0, power, g.rect.y_range_spec());
    let at = slot(nodes, 0, power, f.rect.y_range_spec());
    let to = slot(nodes, 0, power, g.rect.y_range_spec());
    if g == f {
        assert(after[at].fragments[nodes[at].fragments.len() as int] == f);
    } else {
        let k = choose|k: int| 0 <= k < nodes[to].fragments.len() && nodes[to].fragments[k] == g;
        if to == at {
            assert(after[to].fragments[k] == g);
        } else {
            assert(after[to] == nodes[to]);
        }
    }
}

/// A pass over the tree includes the marks of every fragment from `k` on
/// with a fragment that the tree stores, where their vertical ranges meet.
pub proof fn lemma_tree_pass_includes_stored(
    nodes: Seq<NodeView>,
    power: nat,
    fragments: Seq<Fragment>,
    k: int,
    radius: int,
    g: Fragment,
    q: int,
)
    requires
        nodes.len() >= 1,
        0 <= k <= q < fragments.len(),
        stored_in(nodes, power, g),
        fragments[q].rect.min_y <= g.rect.max_y,
        g.rect.min_y <= fragments[q].rect.max_y,
    ensures
        includes(tree_pass_from(nodes, power, fragments, k, radius), tested_marks(fragments[q], g, radius)),
    decreases q - k,
{
    let here = subtree_marks(nodes, 0, power, fragments[k], radius);
    let after = inserted(nodes, power, fragments[k]);
    let rest = tree_pass_from(after, power, fragments, k + 1, radius);
    let goal = tested_marks(fragments[q], g, radius);
    assert(tree_pass_from(nodes, power, fragments, k, radius) == joint(here, rest));
    if k == q {
        let range = g.rect.y_range_spec();
        lemma_subtree_includes(nodes, 0, power, fragments[q], radius, range);
        let at = slot(nodes, 0, power, range);
        let t = choose|t: int| 0 <= t < nodes[at].fragments.len() && nodes[at].fragments[t] == g;
        lemma_bucket_includes(nodes[at].fragments, 0, fragments[q], radius, t);
        lemma_includes_chain(here, bucket_marks(nodes[at].fragments, 0, fragments[q], radius), goal);
    } else {
        lemma_inserted_stored(nodes, power, fragments[k], g);
        lemma_slot_in_range(nodes, 0, power, fragments[k].rect.y_range_spec());
        lemma_tree_pass_includes_stored(after, power, fragments, k + 1, radius, g, q);
    }
    lemma_joint_includes(here, rest, goal);
}

/// A pass over the tree includes the marks of every fragment with an earlier
/// fragment of the pass, where their vertical ranges meet.
pub proof fn lemma_tree_pass_includes(
    nodes: Seq<NodeView>,
    power: nat,
    fragments: Seq<Fragment>,
    k: int,
    radius: int,
    t: int,
    q: int,
)
    requires
        nodes.len() >= 1,
        0 <= k <= t < q < fragments.len(),
        fragments[q].rect.min_y <= fragments[t].rect.max_y,
        fragments[t].rect.min_y <= fragments[q].rect.max_y,
    ensures
        includes(
            tree_pass_from(nodes, power, fragments, k, radius),
            tested_marks(fragments[q], fragments[t], radius),
        ),
    decreases t - k,
{
    let here = subtree_marks(nodes, 0, power, fragments[k], radius);
    let after = inserted(nodes, power, fragments[k]);
    let rest = tree_pass_from(after, power, fragments, k + 1, radius);
    let goal = tested_marks(fragments[q], fragments[t], radius);
    assert(tree_pass_from(nodes, power, fragments, k, radius) == joint(here, rest));
    lemma_slot_in_range(nodes, 0, power, fragments[k].rect.y_range_spec());
    if k == t {
        lemma_inserted_stored(nodes, power, fragments[k], fragments[t]);
        lemma_tree_pass_includes_stored(after, power, fragments, k + 1, radius, fragments[t], q);
    } else {
        lemma_tree_pass_includes(after, power, fragments, k + 1, radius, t, q);
    }
    lemma_joint_includes(here, rest, goal);
}

/// The fragments that stand for whole segments stand for the segments of the
/// working set.
pub proof fn lemma_wholes<C: WindingCount>(segments: Seq<Segment<C>>, n: int)
    requires
        0 <= n <= segments.len(),
        segments.len() <= usize::MAX,
    ensures
        wholes(segments, n).len() == n,
        forall|k: int| 0 <= k < n ==> (#[trigger] wholes(segments, n)[k]) == whole(segments, k),
        fragments_of(wholes(segments, n), segments),
    decreases n,
{
    if n > 0 {
        lemma_wholes(segments, n - 1);
        let prev = wholes(segments, n - 1);
        let now = wholes(segments, n);
        assert forall|k: int| 0 <= k < n implies (#[trigger] now[k]) == whole(segments, k) by {
            if k < n - 1 {
                assert(now[k] == prev[k]);
            }
        }
        assert forall|k: int| 0 <= k < now.len() implies fragment_of(#[trigger] now[k], segments) by {
            assert(now[k] == whole(segments, k));
        }
    }
}

/// A pass of the tree over whole segments tests every pair of segments that
/// cross properly, and its marks stem from pairs of fragments.
pub proof fn lemma_simple_pass<C: WindingCount>(
    range: LineRange,
    power: usize,
    segments: Seq<Segment<C>>,
    radius: int,
)
    requires
        all_wf(segments),
        segments.len() <= usize::MAX,
    ensures
        complete(
            tree_pass_from(
                new_nodes(range, power),
                levels_of(power),
                wholes(segments, segments.len() as int),
                0,
                radius,
            ),
            segments,
            radius,
        ),
        from_pairs(
            tree_pass_from(
                new_nodes(range, power),
                levels_of(power),
                wholes(segments, segments.len() as int),
                0,
                radius,
            ),
            segments,
            radius,
        ),
{
    let nodes = new_nodes(range, power);
    let lv = levels_of(power);
    let n = segments.len() as int;
    let frags = wholes(segments, n);
    let pass = tree_pass_from(nodes, lv, frags, 0, radius);
    lemma_wholes(segments, n);
    assert(nodes.len() >= 1) by {
        lemma_pow2_monotonic(1, lv);
        assert(crate::solver::pow2(1) == 2) by {
            reveal_with_fuel(crate::solver::pow2, 2);
        }
    }
    assert(nodes_of(nodes, segments)) by {
        assert forall|i: int| 0 <= i < nodes.len() implies fragments_of(
            (#[trigger] nodes[i]).fragments,
            segments,
        ) by {
            assert(nodes[i].fragments.len() == 0);
        }
    }
    lemma_tree_pass_from_pairs(nodes, lv, frags, 0, segments, radius);
    assert forall|i: int, j: int|
        0 <= i < segments.len() && 0 <= j < segments.len() && i != j && CrossSolver::crosses_properly(
            (#[trigger] segments[i]).x_segment,
            (#[trigger] segments[j]).x_segment,
        ) implies pair_included(pass, segments, i, j, radius) || pair_included(pass, segments, j, i, radius) by {
        let (t, q) = if i < j {
            (i, j)
        } else {
            (j, i)
        };
        let f = frags[q];
        let g = frags[t];
        assert(f == whole(segments, q) && g == whole(segments, t));
        lemma_cross_symmetric(segments[i].x_segment, segments[j].x_segment);
        lemma_cross_symmetric(f.x_segment, g.x_segment);
        if f.x_segment.spec_less(g.x_segment) {
            lemma_cross_point_in_rects(f.x_segment, g.x_segment);
        } else {
            lemma_cross_point_in_rects(g.x_segment, f.x_segment);
        }
        lemma_tree_pass_includes(nodes, lv, frags, 0, radius, t, q);
        assert(tested_marks(f, g, radius) == ordered_cross_marks(f, g, radius));
        assert(includes(pass, ordered_cross_marks(f, g, radius)));
        assert(pair_included(pass, segments, q, t, radius));
    }
}

/// No residual crossings: where a run of the tree of whole segments ends
/// because a pass finds no mark or needs no rounding, no two segments of
/// the working set that it returns cross properly.
pub proof fn lemma_simple_run_no_residual_crossings<C: WindingCount>(
    solver: Solver,
    range: LineRange,
    power: usize,
    segments: Seq<Segment<C>>,
    iter: usize,
)
    requires
        all_wf(segments),
        simple_run(solver, range, power, segments, iter).1 == SplitEnd::Quiet || simple_run(
            solver,
            range,
            power,
            segments,
            iter,
        ).1 == SplitEnd::Exact,
    ensures
        no_crossings(simple_run(solver, range, power, segments, iter).0),
        no_pure_crossings(simple_run(solver, range, power, segments, iter).0),
    decreases MAX_PASSES - iter,
{
    if segments.len() > 2 && iter < MAX_PASSES && segments.len() <= usize::MAX {
        let radius = solver.spec_radius(iter);
        lemma_pow2_monotonic(0, solver.spec_radius_power(iter));
        let pass = tree_pass_from(
            new_nodes(range, power),
            levels_of(power),
            wholes(segments, segments.len() as int),
            0,
            radius,
        );
        lemma_simple_pass(range, power, segments, radius);
        if pass.0.len() == 0 {
            lemma_complete_quiet(pass, segments, radius);
        } else {
            let next = applied(pass.0, segments);
            lemma_applied_sorted(pass.0, segments);
            if pass.1 {
                lemma_simple_run_no_residual_crossings(solver, range, power, next, (iter + 1) as usize);
            } else {
                lemma_from_pairs_inside(pass, segments, radius);
                lemma_complete_exact(pass, segments, radius);
            }
        }
    }
    lemma_no_crossings_is_no_pure(simple_run(solver, range, power, segments, iter).0);
}

} // verus!

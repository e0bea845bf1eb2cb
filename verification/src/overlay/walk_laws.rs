use vstd::prelude::*;
use crate::geom::contour::spec_simplified;
use crate::geom::point::IntPoint;
use crate::overlay::extract::{
    closed, considered, contours_from, is_open, nearest_from, next_step, origin_of, points_of, sorted_in, spec_walk,
    target_of, walked, Found, Step, WalkView,
};
use crate::overlay::graph::OverlayGraph;
use crate::overlay::extract::{spec_filter, spec_walk_state};
use crate::overlay::link::{IdPoint, OverlayLink};
use crate::overlay::rule::OverlayRule;

verus! {

/// Whether every link names nodes of the graph and every node names links
/// of the graph, and the links can be numbered.
pub open spec fn graph_ok(graph: (Seq<OverlayLink>, Seq<Seq<usize>>)) -> bool {
    &&& graph.0.len() <= usize::MAX
    &&& forall|i: int|
        0 <= i < graph.0.len() ==> (#[trigger] graph.0[i]).a.id < graph.1.len() && graph.0[i].b.id < graph.1.len()
    &&& forall|n: int, k: int|
        0 <= n < graph.1.len() && 0 <= k < graph.1[n].len() ==> (#[trigger] graph.1[n][k]) < graph.0.len()
}

/// A graph that is well formed has a view that is.
pub proof fn lemma_graph_ok(graph: &OverlayGraph)
    requires
        graph.wf(),
    ensures
        graph_ok(graph@),
{
    let view = graph@;
    assert(view.0 == graph.links@);
    assert(view.1.len() == graph.nodes.len());
    assert forall|i: int| 0 <= i < view.0.len() implies (#[trigger] view.0[i]).a.id < view.1.len() && view.0[i].b.id
        < view.1.len() by {
        assert(graph.links@[i].a.id < graph.nodes.len());
    }
    assert forall|n: int, k: int| 0 <= n < view.1.len() && 0 <= k < view.1[n].len() implies (#[trigger] view.1[n][k])
        < view.0.len() by {
        assert(view.1[n] == graph.nodes@[n].indices@);
        assert(graph.nodes@[n].indices@[k] < graph.links.len());
    }
}

/// Whether a state has an entry for each direction of every link.
pub open spec fn state_ok(graph: (Seq<OverlayLink>, Seq<Seq<usize>>), state: WalkView) -> bool {
    state.0.len() == graph.0.len() && state.1.len() == graph.0.len()
}

/// Whether a step walks a link of the graph.
pub open spec fn is_step(graph: (Seq<OverlayLink>, Seq<Seq<usize>>), step: Step) -> bool {
    step.link < graph.0.len()
}

/// Whether a step can follow at the node `to`: it walks a link of the graph,
/// starts at the node, and is still to be walked or is `start`.
pub open spec fn can_follow(
    graph: (Seq<OverlayLink>, Seq<Seq<usize>>),
    step: Step,
    start: Step,
    state: WalkView,
    to: IdPoint,
) -> bool {
    is_step(graph, step) && (step == start || is_open(state, step)) && origin_of(graph.0, step).id == to.id
}

/// The step that is chosen at a node can follow there.
pub proof fn lemma_nearest_from(
    graph: (Seq<OverlayLink>, Seq<Seq<usize>>),
    list: Seq<usize>,
    k: int,
    start: Step,
    state: WalkView,
    from: IntPoint,
    to: IdPoint,
    best: Option<(Step, IntPoint)>,
)
    requires
        0 <= k <= list.len(),
        forall|j: int| 0 <= j < list.len() ==> (#[trigger] list[j]) < graph.0.len(),
        best matches Some(b) ==> can_follow(graph, b.0, start, state, to),
    ensures
        nearest_from(graph.0, list, k, start, state, from, to, best) matches Some(b) ==> can_follow(
            graph,
            b.0,
            start,
            state,
            to,
        ),
    decreases list.len() - k,
{
    if k < list.len() {
        assert(list[k] < graph.0.len());
        let first = considered(graph.0, Step { link: list[k], forward: true }, start, state, from, to, best);
        let second = considered(graph.0, Step { link: list[k], forward: false }, start, state, from, to, first);
        lemma_nearest_from(graph, list, k + 1, start, state, from, to, second);
    }
}

/// What holds of a contour while it is walked, for the state `before` the
/// walk and the state `after` the steps of `path`: the contour begins with
/// `start`; each of its steps walks a link of the graph and was still to be
/// walked before; no step occurs twice; each step starts at the node at
/// which the step before it arrives; and a step is still to be walked
/// afterwards where it was before and the contour does not hold it.
pub open spec fn walked_once(
    graph: (Seq<OverlayLink>, Seq<Seq<usize>>),
    start: Step,
    before: WalkView,
    after: WalkView,
    path: Seq<Step>,
) -> bool {
    &&& state_ok(graph, after)
    &&& path.len() >= 1
    &&& path[0] == start
    &&& forall|k: int| 0 <= k < path.len() ==> is_step(graph, #[trigger] path[k]) && is_open(before, path[k])
    &&& forall|j: int, k: int| 0 <= j < k < path.len() ==> #[trigger] path[j] != #[trigger] path[k]
    &&& forall|k: int|
        0 <= k && k + 1 < path.len() ==> target_of(graph.0, #[trigger] path[k]).id == origin_of(
            graph.0,
            path[k + 1],
        ).id
    &&& forall|s: Step|
        is_step(graph, s) ==> (#[trigger] is_open(after, s)) == (is_open(before, s) && !path.contains(s))
}

/// Walking one step more keeps what holds of a contour.
proof fn lemma_one_more_step(
    graph: (Seq<OverlayLink>, Seq<Seq<usize>>),
    start: Step,
    before: WalkView,
    state: WalkView,
    path: Seq<Step>,
    next: Step,
)
    requires
        state_ok(graph, before),
        walked_once(graph, start, before, state, path),
        is_step(graph, next),
        is_open(state, next),
        origin_of(graph.0, next).id == target_of(graph.0, path.last()).id,
    ensures
        walked_once(graph, start, before, closed(state, next), path.push(next)),
{
    let longer = path.push(next);
    let after = closed(state, next);
    assert(!path.contains(next));
    assert forall|k: int| 0 <= k < longer.len() implies is_step(graph, #[trigger] longer[k]) && is_open(
        before,
        longer[k],
    ) by {
        if k < path.len() {
            assert(longer[k] == path[k]);
        }
    }
    assert forall|j: int, k: int| 0 <= j < k < longer.len() implies #[trigger] longer[j] != #[trigger] longer[k] by {
        assert(longer[j] == path[j]);
        if k < path.len() {
            assert(longer[k] == path[k]);
        } else {
            assert(path.contains(path[j]));
        }
    }
    assert forall|k: int| 0 <= k && k + 1 < longer.len() implies target_of(graph.0, #[trigger] longer[k]).id
        == origin_of(graph.0, longer[k + 1]).id by {
        assert(longer[k] == path[k]);
        if k + 1 < path.len() {
            assert(longer[k + 1] == path[k + 1]);
        }
    }
    assert forall|s: Step| is_step(graph, s) implies (#[trigger] is_open(after, s)) == (is_open(before, s)
        && !longer.contains(s)) by {
        assert(is_open(state, s) == (is_open(before, s) && !path.contains(s)));
        if s == next {
            assert(longer[path.len() as int] == next);
            assert(!is_open(after, s));
        } else {
            assert(is_open(after, s) == is_open(state, s));
            if longer.contains(s) {
                let k = choose|k: int| 0 <= k < longer.len() && longer[k] == s;
                assert(path[k] == s);
            }
            if path.contains(s) {
                let k = choose|k: int| 0 <= k < path.len() && path[k] == s;
                assert(longer[k] == s);
            }
        }
    }
}

/// A walk that goes on keeps what holds of a contour.
proof fn lemma_walked(
    graph: (Seq<OverlayLink>, Seq<Seq<usize>>),
    cur: Step,
    start: Step,
    before: WalkView,
    state: WalkView,
    path: Seq<Step>,
    budget: nat,
)
    requires
        graph_ok(graph),
        state_ok(graph, before),
        walked_once(graph, start, before, state, path),
        path.last() == cur,
    ensures
        walked_once(
            graph,
            start,
            before,
            walked(graph, cur, start, state, path, budget).1,
            walked(graph, cur, start, state, path, budget).0,
        ),
    decreases budget,
{
    if budget > 0 {
        let from = origin_of(graph.0, cur);
        let to = target_of(graph.0, cur);
        assert(is_step(graph, path[path.len() - 1]));
        assert(to.id < graph.1.len());
        let list = graph.1[to.id as int];
        assert forall|j: int| 0 <= j < list.len() implies (#[trigger] list[j]) < graph.0.len() by {
            assert(graph.1[to.id as int][j] < graph.0.len());
        }
        lemma_nearest_from(graph, list, 0, start, state, from.point, to, None);
        match next_step(graph, cur, start, state) {
            None => {},
            Some(next) => {
                if next != start {
                    lemma_one_more_step(graph, start, before, state, path, next);
                    lemma_walked(graph, next, start, before, closed(state, next), path.push(next), (budget - 1) as nat);
                }
            },
        }
    }
}

/// No step is walked twice: the contour that a walk returns begins with the
/// step at which the walk starts, holds no step twice and only steps that
/// were still to be walked, each starting at the node at which the one
/// before it arrives; and after the walk exactly the steps of the contour
/// are no longer to be walked.
pub proof fn lemma_walk_steps_once(graph: (Seq<OverlayLink>, Seq<Seq<usize>>), start: Step, state: WalkView)
    requires
        graph_ok(graph),
        state_ok(graph, state),
        is_step(graph, start),
        is_open(state, start),
    ensures
        walked_once(graph, start, state, spec_walk(graph, start, state).1, spec_walk(graph, start, state).0),
{
    let path = seq![start];
    let first = closed(state, start);
    assert forall|s: Step| is_step(graph, s) implies (#[trigger] is_open(first, s)) == (is_open(state, s)
        && !path.contains(s)) by {
        if s == start {
            assert(path[0] == s);
        } else {
            if path.contains(s) {
                let k = choose|k: int| 0 <= k < path.len() && path[k] == s;
                assert(path[k] == start);
            }
        }
    }
    assert(walked_once(graph, start, state, first, path));
    lemma_walked(graph, start, start, state, first, path, (2 * graph.0.len()) as nat);
}

/// The contours that are walked when every step from link `i`, direction
/// `d`, on is tried as the start of a walk, in the order of the walks.
pub open spec fn walks_from(graph: (Seq<OverlayLink>, Seq<Seq<usize>>), state: WalkView, i: int, d: int) -> Seq<
    Seq<Step>,
>
    decreases graph.0.len() - i, 2 - d,
{
    if i < 0 || i >= graph.0.len() {
        Seq::empty()
    } else if d < 0 || d >= 2 {
        walks_from(graph, state, i + 1, 0)
    } else {
        let start = Step { link: i as usize, forward: d == 0 };
        if is_open(state, start) {
            let w = spec_walk(graph, start, state);
            seq![w.0] + walks_from(graph, w.1, i, d + 1)
        } else {
            walks_from(graph, state, i, d + 1)
        }
    }
}

/// The contours found once the points of every walk from walk `k` on are
/// sorted in.
pub open spec fn sorted_walks(
    links: Seq<OverlayLink>,
    walks: Seq<Seq<Step>>,
    k: int,
    found: Found,
    min_area: int,
) -> Found
    decreases walks.len() - k,
{
    if k < 0 || k >= walks.len() {
        found
    } else {
        sorted_walks(
            links,
            walks,
            k + 1,
            sorted_in(found, spec_simplified(points_of(links, walks[k])), min_area),
            min_area,
        )
    }
}

/// Sorting in the walks of a list depends on the walks from `k` on alone.
proof fn lemma_sorted_walks_shift(
    links: Seq<OverlayLink>,
    first: Seq<Step>,
    rest: Seq<Seq<Step>>,
    k: int,
    found: Found,
    min_area: int,
)
    requires
        0 <= k <= rest.len(),
    ensures
        sorted_walks(links, seq![first] + rest, k + 1, found, min_area) == sorted_walks(
            links,
            rest,
            k,
            found,
            min_area,
        ),
    decreases rest.len() - k,
{
    let all = seq![first] + rest;
    if k < rest.len() {
        assert(all[k + 1] == rest[k]);
        lemma_sorted_walks_shift(
            links,
            first,
            rest,
            k + 1,
            sorted_in(found, spec_simplified(points_of(links, rest[k])), min_area),
            min_area,
        );
    }
}

/// The contours that an extraction finds are those of its walks, stripped
/// and sorted in one after the other.
pub proof fn lemma_contours_are_walks(
    graph: (Seq<OverlayLink>, Seq<Seq<usize>>),
    state: WalkView,
    i: int,
    d: int,
    found: Found,
    min_area: int,
)
    ensures
        contours_from(graph, state, i, d, found, min_area) == sorted_walks(
            graph.0,
            walks_from(graph, state, i, d),
            0,
            found,
            min_area,
        ),
    decreases graph.0.len() - i, 2 - d,
{
    if i < 0 || i >= graph.0.len() {
    } else if d < 0 || d >= 2 {
        lemma_contours_are_walks(graph, state, i + 1, 0, found, min_area);
    } else {
        let start = Step { link: i as usize, forward: d == 0 };
        if is_open(state, start) {
            let w = spec_walk(graph, start, state);
            let rest = walks_from(graph, w.1, i, d + 1);
            let next = sorted_in(found, spec_simplified(points_of(graph.0, w.0)), min_area);
            lemma_contours_are_walks(graph, w.1, i, d + 1, next, min_area);
            lemma_sorted_walks_shift(graph.0, w.0, rest, 0, next, min_area);
            assert((seq![w.0] + rest)[0] == w.0);
        } else {
            lemma_contours_are_walks(graph, state, i, d + 1, found, min_area);
        }
    }
}

/// Whether `walks` has a step at place `k` of walk `w`.
pub open spec fn has_place(walks: Seq<Seq<Step>>, w: int, k: int) -> bool {
    0 <= w < walks.len() && 0 <= k < walks[w].len()
}

/// Whether one of the walks holds the step.
pub open spec fn walked_by(walks: Seq<Seq<Step>>, s: Step) -> bool {
    exists|w: int, k: int| #[trigger] has_place(walks, w, k) && walks[w][k] == s
}

/// The place of a step in the order in which steps are tried as the start
/// of a walk.
pub open spec fn turn_of(s: Step) -> int {
    2 * s.link + if s.forward {
        0int
    } else {
        1int
    }
}

/// What holds of the walks of an extraction from the state `state`: each of
/// their steps walks a link of the graph and is to be walked in `state`; no
/// step occurs at two places; and every step that is to be walked in
/// `state` and whose turn is `turn` or later occurs in one of them.
pub open spec fn each_once(
    graph: (Seq<OverlayLink>, Seq<Seq<usize>>),
    state: WalkView,
    walks: Seq<Seq<Step>>,
    turn: int,
) -> bool {
    &&& forall|w: int, k: int| #[trigger]
        has_place(walks, w, k) ==> is_step(graph, walks[w][k]) && is_open(state, walks[w][k])
    &&& forall|w: int, k: int, v: int, j: int|
        #[trigger] has_place(walks, w, k) && #[trigger] has_place(walks, v, j) && (w != v || k != j)
            ==> walks[w][k] != walks[v][j]
    &&& forall|s: Step|
        is_step(graph, s) && #[trigger] is_open(state, s) && turn_of(s) >= turn ==> walked_by(walks, s)
}

/// The walks from a turn on hold every step that is to be walked from that
/// turn on once, and no other.
pub proof fn lemma_walks_from(graph: (Seq<OverlayLink>, Seq<Seq<usize>>), state: WalkView, i: int, d: int)
    requires
        graph_ok(graph),
        state_ok(graph, state),
        0 <= i,
        0 <= d <= 2,
    ensures
        each_once(graph, state, walks_from(graph, state, i, d), 2 * i + d),
    decreases graph.0.len() - i, 2 - d,
{
    let walks = walks_from(graph, state, i, d);
    if i >= graph.0.len() {
        assert forall|s: Step| is_step(graph, s) && #[trigger] is_open(state, s) && turn_of(s) >= 2 * i + d implies
            walked_by(walks, s) by {
            assert(false);
        }
    } else if d >= 2 {
        lemma_walks_from(graph, state, i + 1, 0);
    } else {
        let start = Step { link: i as usize, forward: d == 0 };
        assert(turn_of(start) == 2 * i + d);
        if is_open(state, start) {
            let w = spec_walk(graph, start, state);
            let rest = walks_from(graph, w.1, i, d + 1);
            lemma_walk_steps_once(graph, start, state);
            lemma_walks_from(graph, w.1, i, d + 1);
            assert(walks == seq![w.0] + rest);
            assert(walks[0] == w.0);
            assert forall|v: int, j: int| has_place(walks, v, j) && v >= 1 implies has_place(rest, v - 1, j)
                && walks[v][j] == rest[v - 1][j] by {
                assert(walks[v] == rest[v - 1]);
            }
            assert forall|v: int, j: int| #[trigger] has_place(rest, v, j) implies has_place(walks, v + 1, j)
                && walks[v + 1][j] == rest[v][j] by {
                assert(walks[v + 1] == rest[v]);
            }
            assert forall|v: int, j: int| #[trigger] has_place(walks, v, j) implies is_step(graph, walks[v][j])
                && is_open(state, walks[v][j]) by {
                if v >= 1 {
                    assert(has_place(rest, v - 1, j));
                    assert(is_open(w.1, rest[v - 1][j]));
                }
            }
            assert forall|v: int, j: int, u: int, h: int|
                #[trigger] has_place(walks, v, j) && #[trigger] has_place(walks, u, h) && (v != u || j != h)
                    implies walks[v][j] != walks[u][h] by {
                if v >= 1 {
                    assert(has_place(rest, v - 1, j));
                    assert(is_open(w.1, rest[v - 1][j]));
                    assert(!w.0.contains(rest[v - 1][j]));
                }
                if u >= 1 {
                    assert(has_place(rest, u - 1, h));
                    assert(is_open(w.1, rest[u - 1][h]));
                    assert(!w.0.contains(rest[u - 1][h]));
                }
                if v == 0 {
                    assert(w.0.contains(w.0[j]));
                }
                if u == 0 {
                    assert(w.0.contains(w.0[h]));
                }
            }
            assert forall|s: Step|
                is_step(graph, s) && #[trigger] is_open(state, s) && turn_of(s) >= 2 * i + d implies walked_by(
                walks,
                s,
            ) by {
                if w.0.contains(s) {
                    let k = choose|k: int| 0 <= k < w.0.len() && w.0[k] == s;
                    assert(has_place(walks, 0, k));
                } else {
                    assert(is_open(w.1, s));
                    assert(w.0.contains(w.0[0]));
                    assert(s != start);
                    assert(turn_of(s) >= 2 * i + d + 1);
                    assert(walked_by(rest, s));
                    let (v, j) = choose|v: int, j: int| #[trigger] has_place(rest, v, j) && rest[v][j] == s;
                    assert(has_place(walks, v + 1, j));
                }
            }
        } else {
            lemma_walks_from(graph, state, i, d + 1);
            assert forall|s: Step|
                is_step(graph, s) && #[trigger] is_open(state, s) && turn_of(s) >= 2 * i + d implies walked_by(
                walks,
                s,
            ) by {
                assert(s != start);
            }
        }
    }
}

/// Every link is walked once or left out: in an extraction, every step that
/// the state at its start holds as still to be walked occurs at one place of
/// one walk, and the walks hold no other step.
pub proof fn lemma_every_step_walked_once(graph: (Seq<OverlayLink>, Seq<Seq<usize>>), state: WalkView)
    requires
        graph_ok(graph),
        state_ok(graph, state),
    ensures
        each_once(graph, state, walks_from(graph, state, 0, 0), 0),
{
    lemma_walks_from(graph, state, 0, 0);
}

/// Every link lies on one contour or is left out by the rule: in the
/// extraction of the shapes of a rule, a link that lies on the border of the
/// result is walked once, in one direction, and no other link is walked.
pub proof fn lemma_every_link_walked_once(graph: (Seq<OverlayLink>, Seq<Seq<usize>>), rule: OverlayRule, i: int)
    requires
        graph_ok(graph),
        0 <= i < graph.0.len(),
    ensures
        ({
            let state = spec_walk_state(graph.0, spec_filter(graph.0, rule), rule);
            let walks = walks_from(graph, state, 0, 0);
            let forward = Step { link: i as usize, forward: true };
            let backward = Step { link: i as usize, forward: false };
            &&& each_once(graph, state, walks, 0)
            &&& !(walked_by(walks, forward) && walked_by(walks, backward))
            &&& (walked_by(walks, forward) || walked_by(walks, backward)) == rule.spec_is_boundary(graph.0[i].fill)
        }),
{
    let state = spec_walk_state(graph.0, spec_filter(graph.0, rule), rule);
    let walks = walks_from(graph, state, 0, 0);
    let forward = Step { link: i as usize, forward: true };
    let backward = Step { link: i as usize, forward: false };
    lemma_every_step_walked_once(graph, state);
    assert(is_step(graph, forward) && is_step(graph, backward));
    assert(!(is_open(state, forward) && is_open(state, backward)));
    assert((is_open(state, forward) || is_open(state, backward)) == rule.spec_is_boundary(graph.0[i].fill));
    if walked_by(walks, forward) {
        let (w, k) = choose|w: int, k: int| #[trigger] has_place(walks, w, k) && walks[w][k] == forward;
        assert(is_open(state, walks[w][k]));
    }
    if walked_by(walks, backward) {
        let (w, k) = choose|w: int, k: int| #[trigger] has_place(walks, w, k) && walks[w][k] == backward;
        assert(is_open(state, walks[w][k]));
    }
    if is_open(state, forward) {
        assert(turn_of(forward) >= 0);
    }
    if is_open(state, backward) {
        assert(turn_of(backward) >= 0);
    }
}

} // verus!

use vstd::prelude::*;
use crate::fill::segment_fill::SegmentFill;
use crate::geom::contour::IntPath;
use crate::geom::point::IntPoint;
use crate::overlay::extract::{closed, is_open, origin_of, target_of, Step, WalkState, WalkView};
use crate::overlay::link::{IdPoint, OverlayLink};
use crate::overlay::nest::path_views;
use crate::string::graph::{is_body_border, is_string, StringGraph};
use crate::string::rule::ClipRule;

verus! {

impl ClipRule {
    /// Whether the clip keeps a line on a segment with the given fill: a
    /// line inside the body unless the rule is inverted, a line outside the
    /// body if it is, and a line along the border if the rule includes the
    /// border.
    pub open spec fn spec_keeps(self, fill: SegmentFill) -> bool {
        is_string(fill) && (if is_body_border(fill) {
            self.boundary_included
        } else if fill.subj_top {
            !self.invert
        } else {
            self.invert
        })
    }

    /// Whether the clip keeps a line on a segment with the given fill.
    pub fn keeps(&self, fill: SegmentFill) -> (r: bool)
        ensures
            r == self.spec_keeps(fill),
    {
        (fill.clip_top || fill.clip_bottom) && (if fill.subj_top != fill.subj_bottom {
            self.boundary_included
        } else if fill.subj_top {
            !self.invert
        } else {
            self.invert
        })
    }
}

/// Whether every path has at least two points.
pub open spec fn paths_ok(paths: Seq<IntPath>) -> bool {
    forall|i: int| 0 <= i < paths.len() ==> (#[trigger] paths[i]).len() >= 2
}

/// The directions in which the lines that `clip_rule` keeps run along the
/// links.
pub open spec fn spec_clip_state(links: Seq<OverlayLink>, clip_rule: ClipRule) -> WalkView {
    (
        Seq::new(links.len(), |i: int| clip_rule.spec_keeps(links[i].fill) && links[i].fill.clip_top),
        Seq::new(links.len(), |i: int| clip_rule.spec_keeps(links[i].fill) && links[i].fill.clip_bottom),
    )
}

/// The node at which a step starts (`leaving`) or arrives (otherwise).
pub open spec fn step_node(links: Seq<OverlayLink>, step: Step, leaving: bool) -> usize {
    if leaving {
        origin_of(links, step).id
    } else {
        target_of(links, step).id
    }
}

/// Whether `step` is still to be walked, starts or arrives at `node`, and is
/// not `except`.
pub open spec fn is_open_at(links: Seq<OverlayLink>, step: Step, node: usize, leaving: bool, except: Step, state: WalkView) -> bool {
    is_open(state, step) && step_node(links, step, leaving) == node && step != except
}

/// The first step of the links of `list` from `k` on that is still to be
/// walked and starts or arrives at `node`; each link is tried forward and
/// then backward, and `except` is passed over.
pub open spec fn open_at_from(
    links: Seq<OverlayLink>,
    list: Seq<usize>,
    k: int,
    node: usize,
    leaving: bool,
    except: Step,
    state: WalkView,
) -> Option<Step>
    decreases list.len() - k,
{
    if k < 0 || k >= list.len() {
        None
    } else if is_open_at(links, Step { link: list[k], forward: true }, node, leaving, except, state) {
        Some(Step { link: list[k], forward: true })
    } else if is_open_at(links, Step { link: list[k], forward: false }, node, leaving, except, state) {
        Some(Step { link: list[k], forward: false })
    } else {
        open_at_from(links, list, k + 1, node, leaving, except, state)
    }
}

/// The points of a chain and the state once the chain has gone on from
/// `node` for at most `budget` steps: from every step to the first one that
/// starts where it arrives and is still to be walked.
pub open spec fn chain_from(
    graph: (Seq<OverlayLink>, Seq<Seq<usize>>),
    node: usize,
    state: WalkView,
    path: Seq<IntPoint>,
    budget: nat,
) -> (Seq<IntPoint>, WalkView)
    decreases budget,
{
    if budget == 0 {
        (path, state)
    } else {
        match open_at_from(
            graph.0,
            graph.1[node as int],
            0,
            node,
            true,
            Step { link: graph.0.len() as usize, forward: true },
            state,
        ) {
            None => (path, state),
            Some(next) => chain_from(
                graph,
                target_of(graph.0, next).id,
                closed(state, next),
                path.push(target_of(graph.0, next).point),
                (budget - 1) as nat,
            ),
        }
    }
}

/// The points of the chain of kept lines that starts with `start`, and the
/// state after the chain.
pub open spec fn spec_chain(graph: (Seq<OverlayLink>, Seq<Seq<usize>>), start: Step, state: WalkView) -> (
    Seq<IntPoint>,
    WalkView,
) {
    chain_from(
        graph,
        target_of(graph.0, start).id,
        closed(state, start),
        seq![origin_of(graph.0, start).point, target_of(graph.0, start).point],
        (2 * graph.0.len()) as nat,
    )
}

/// Whether a chain starts with `start` in the given round: in the first
/// round only where no other kept step arrives at its start.
pub open spec fn is_head(graph: (Seq<OverlayLink>, Seq<Seq<usize>>), start: Step, state: WalkView, round: int) -> bool {
    let node = origin_of(graph.0, start).id;
    round == 1 || open_at_from(graph.0, graph.1[node as int], 0, node, false, start, state) is None
}

/// The paths once every step from round `round`, link `i`, direction `d` on
/// has been tried as the start of a chain.
pub open spec fn clipped_from(
    graph: (Seq<OverlayLink>, Seq<Seq<usize>>),
    state: WalkView,
    round: int,
    i: int,
    d: int,
    paths: Seq<Seq<IntPoint>>,
) -> Seq<Seq<IntPoint>>
    decreases 2 - round, graph.0.len() - i, 2 - d,
{
    if round < 0 || round >= 2 {
        paths
    } else if i < 0 || i >= graph.0.len() {
        clipped_from(graph, state, round + 1, 0, 0, paths)
    } else if d < 0 || d >= 2 {
        clipped_from(graph, state, round, i + 1, 0, paths)
    } else {
        let start = Step { link: i as usize, forward: d == 0 };
        if is_open(state, start) && is_head(graph, start, state, round) {
            let c = spec_chain(graph, start, state);
            clipped_from(graph, c.1, round, i, d + 1, paths.push(c.0))
        } else {
            clipped_from(graph, state, round, i, d + 1, paths)
        }
    }
}

/// The parts of the lines of a graph that `clip_rule` keeps, as paths that
/// run in the direction of the lines. In a first round a path starts with
/// every kept step at whose start no other kept step arrives; a second round
/// takes what is left, which are closed chains.
pub open spec fn spec_clip(graph: (Seq<OverlayLink>, Seq<Seq<usize>>), clip_rule: ClipRule) -> Seq<Seq<IntPoint>> {
    clipped_from(graph, spec_clip_state(graph.0, clip_rule), 0, 0, 0, Seq::empty())
}

impl StringGraph {
    /// The directions in which the kept lines run along the links.
    pub fn clip_state(&self, clip_rule: ClipRule) -> (state: WalkState)
        ensures
            state@ == spec_clip_state(self.graph.links@, clip_rule),
            state.forward.len() == self.graph.links.len(),
            state.backward.len() == self.graph.links.len(),
    {
        let n: usize = self.graph.links.len();
        let mut forward: Vec<bool> = Vec::new();
        let mut backward: Vec<bool> = Vec::new();
        let mut i: usize = 0;
        while i < n
            invariant
                n == self.graph.links.len(),
                i <= n,
                forward.len() == i,
                backward.len() == i,
                forall|k: int|
                    0 <= k < i ==> (#[trigger] forward@[k]) == (clip_rule.spec_keeps(
                        self.graph.links@[k].fill,
                    ) && self.graph.links@[k].fill.clip_top),
                forall|k: int|
                    0 <= k < i ==> (#[trigger] backward@[k]) == (clip_rule.spec_keeps(
                        self.graph.links@[k].fill,
                    ) && self.graph.links@[k].fill.clip_bottom),
            decreases n - i,
        {
            let fill: SegmentFill = self.graph.links[i].fill;
            let keep: bool = clip_rule.keeps(fill);
            forward.push(keep && fill.clip_top);
            backward.push(keep && fill.clip_bottom);
            i += 1;
        }
        let state: WalkState = WalkState { forward, backward };
        proof {
            assert(state@.0 =~= spec_clip_state(self.graph.links@, clip_rule).0);
            assert(state@.1 =~= spec_clip_state(self.graph.links@, clip_rule).1);
        }
        state
    }

    /// The ends of a step: where it starts, then where it arrives.
    fn step_ends(&self, step: Step) -> (r: (IdPoint, IdPoint))
        requires
            self.graph.wf(),
            step.link < self.graph.links.len(),
        ensures
            r.0 == origin_of(self.graph.links@, step),
            r.1 == target_of(self.graph.links@, step),
            r.0.id < self.graph.nodes.len(),
            r.1.id < self.graph.nodes.len(),
    {
        let link: OverlayLink = self.graph.links[step.link];
        if step.forward {
            (link.a, link.b)
        } else {
            (link.b, link.a)
        }
    }

    /// A step that is still to be walked and starts (`leaving`) or arrives
    /// (otherwise) at the given node; see `open_at_from`.
    fn open_step_at(&self, node: usize, leaving: bool, except: Step, state: &WalkState) -> (r: Option<Step>)
        requires
            self.graph.wf(),
            node < self.graph.nodes.len(),
            state.forward.len() == self.graph.links.len(),
            state.backward.len() == self.graph.links.len(),
        ensures
            r == open_at_from(self.graph.links@, self.graph@.1[node as int], 0, node, leaving, except, state@),
            r matches Some(step) ==> step.link < self.graph.links.len(),
    {
        let count: usize = self.graph.nodes[node].indices.len();
        let ghost list: Seq<usize> = self.graph@.1[node as int];
        let mut k: usize = 0;
        while k < count
            invariant
                self.graph.wf(),
                node < self.graph.nodes.len(),
                list == self.graph.nodes@[node as int].indices@,
                count == list.len(),
                k <= count,
                state.forward.len() == self.graph.links.len(),
                state.backward.len() == self.graph.links.len(),
                open_at_from(self.graph.links@, list, k as int, node, leaving, except, state@) == open_at_from(
                    self.graph.links@,
                    list,
                    0,
                    node,
                    leaving,
                    except,
                    state@,
                ),
            decreases count - k,
        {
            let index: usize = self.graph.nodes[node].indices[k];
            let link: OverlayLink = self.graph.links[index];
            let forward: Step = Step { link: index, forward: true };
            let backward: Step = Step { link: index, forward: false };
            let forward_node: usize = if leaving {
                link.a.id
            } else {
                link.b.id
            };
            let backward_node: usize = if leaving {
                link.b.id
            } else {
                link.a.id
            };
            if state.forward[index] && forward_node == node && forward != except {
                return Some(forward);
            }
            if state.backward[index] && backward_node == node && backward != except {
                return Some(backward);
            }
            k += 1;
        }
        None
    }

    /// Walks the chain of kept lines that starts with `start`; see
    /// `spec_chain`.
    fn chain(&self, start: Step, state: &mut WalkState) -> (path: IntPath)
        requires
            self.graph.wf(),
            start.link < self.graph.links.len(),
            old(state).forward.len() == self.graph.links.len(),
            old(state).backward.len() == self.graph.links.len(),
        ensures
            (path@, final(state)@) == spec_chain(self.graph@, start, old(state)@),
            final(state).forward.len() == self.graph.links.len(),
            final(state).backward.len() == self.graph.links.len(),
            path.len() >= 2,
    {
        let n: usize = self.graph.links.len();
        let mut path: IntPath = Vec::new();
        let (origin, target): (IdPoint, IdPoint) = self.step_ends(start);
        path.push(origin.point);
        path.push(target.point);
        state.close(start.link, start.forward);
        let mut node: usize = target.id;
        let mut steps: u128 = 0;
        let limit: u128 = 2 * (n as u128);
        let mut done: bool = false;
        proof {
            assert(path@ =~= seq![origin.point, target.point]);
        }
        while !done && steps < limit
            invariant
                self.graph.wf(),
                n == self.graph.links.len(),
                state.forward.len() == n,
                state.backward.len() == n,
                node < self.graph.nodes.len(),
                path.len() >= 2,
                limit == 2 * n,
                steps <= limit,
                done ==> (path@, state@) == spec_chain(self.graph@, start, old(state)@),
                !done ==> chain_from(self.graph@, node, state@, path@, (limit - steps) as nat) == spec_chain(
                    self.graph@,
                    start,
                    old(state)@,
                ),
            decreases limit - steps + (if done { 0int } else { 1int }),
        {
            match self.open_step_at(node, true, Step { link: n, forward: true }, state) {
                None => {
                    done = true;
                },
                Some(next) => {
                    let (_from, to): (IdPoint, IdPoint) = self.step_ends(next);
                    state.close(next.link, next.forward);
                    path.push(to.point);
                    node = to.id;
                    steps += 1;
                },
            }
        }
        path
    }

    /// The parts of the lines that `clip_rule` keeps; see `spec_clip`.
    pub fn clip_string_lines(&self, clip_rule: ClipRule) -> (paths: Vec<IntPath>)
        requires
            self.graph.wf(),
        ensures
            path_views(paths@) == spec_clip(self.graph@, clip_rule),
            paths_ok(paths@),
            self.graph.links.len() == 0 ==> paths.len() == 0,
    {
        let n: usize = self.graph.links.len();
        let mut state: WalkState = self.clip_state(clip_rule);
        let ghost goal: Seq<Seq<IntPoint>> = spec_clip(self.graph@, clip_rule);
        let mut paths: Vec<IntPath> = Vec::new();
        let mut round: usize = 0;
        proof {
            assert(path_views(paths@) =~= Seq::<Seq<IntPoint>>::empty());
        }
        while round < 2
            invariant
                self.graph.wf(),
                n == self.graph.links.len(),
                state.forward.len() == n,
                state.backward.len() == n,
                round <= 2,
                paths_ok(paths@),
                n == 0 ==> paths.len() == 0,
                clipped_from(self.graph@, state@, round as int, 0, 0, path_views(paths@)) == goal,
            decreases 2 - round,
        {
            let mut i: usize = 0;
            while i < n
                invariant
                    self.graph.wf(),
                    n == self.graph.links.len(),
                    state.forward.len() == n,
                    state.backward.len() == n,
                    i <= n,
                    round < 2,
                    paths_ok(paths@),
                    n == 0 ==> paths.len() == 0,
                    clipped_from(self.graph@, state@, round as int, i as int, 0, path_views(paths@)) == goal,
                decreases n - i,
            {
                let mut d: usize = 0;
                while d < 2
                    invariant
                        self.graph.wf(),
                        n == self.graph.links.len(),
                        state.forward.len() == n,
                        state.backward.len() == n,
                        i < n,
                        d <= 2,
                        round < 2,
                        paths_ok(paths@),
                        clipped_from(self.graph@, state@, round as int, i as int, d as int, path_views(paths@))
                            == goal,
                    decreases 2 - d,
                {
                    let start: Step = Step { link: i, forward: d == 0 };
                    if state.is_open(i, start.forward) {
                        let (origin, _target): (IdPoint, IdPoint) = self.step_ends(start);
                        let is_head: bool = round == 1 || self.open_step_at(
                            origin.id,
                            false,
                            start,
                            &state,
                        ).is_none();
                        if is_head {
                            let ghost views_before: Seq<Seq<IntPoint>> = path_views(paths@);
                            let path: IntPath = self.chain(start, &mut state);
                            let ghost before: Seq<IntPath> = paths@;
                            paths.push(path);
                            proof {
                                assert forall|q: int| 0 <= q < paths.len() implies (#[trigger] paths@[q]).len()
                                    >= 2 by {
                                    if q < before.len() {
                                        assert(paths@[q] == before[q]);
                                    }
                                }
                                assert(path_views(paths@) =~= views_before.push(path@));
                            }
                        }
                    }
                    d += 1;
                }
                i += 1;
            }
            round += 1;
        }
        paths
    }
}

} // verus!

use vstd::prelude::*;
use crate::geom::contour::{area_two_path, simplify_contour, spec_area_two_path, spec_simplified, IntPath, IntShape, IntShapes};
use crate::geom::point::{area_two, area_two_of, dot, dot_of, IntPoint};
use crate::overlay::graph::OverlayGraph;
use crate::overlay::link::{IdPoint, OverlayLink};
use crate::overlay::nest::{join_holes, joined, path_views, shape_views};
use crate::overlay::rule::OverlayRule;

verus! {

/// Where the ray from `c` through `b` lies when one turns clockwise away from
/// the ray from `c` through `a`: 0 within the first half turn, 1 at the half
/// turn, 2 within the second half turn, 3 at the full turn.
pub open spec fn turn_class(c: IntPoint, a: IntPoint, b: IntPoint) -> int {
    let cr = area_two(c, a, b);
    let d = dot(a.x - c.x, a.y - c.y, b.x - c.x, b.y - c.y);
    if cr < 0 {
        0
    } else if cr > 0 {
        2
    } else if d < 0 {
        1
    } else {
        3
    }
}

/// Whether, turning clockwise away from the ray from `c` through `a`, one
/// meets the ray through `b1` strictly before the ray through `b2`.
pub open spec fn spec_is_nearer(c: IntPoint, a: IntPoint, b1: IntPoint, b2: IntPoint) -> bool {
    let k1 = turn_class(c, a, b1);
    let k2 = turn_class(c, a, b2);
    k1 < k2 || (k1 == k2 && (k1 == 0 || k1 == 2) && area_two(c, b1, b2) < 0)
}

/// The class of the turn from the ray through `a` to the ray through `b`.
pub fn turn_class_of(c: IntPoint, a: IntPoint, b: IntPoint) -> (r: u8)
    ensures
        r == turn_class(c, a, b),
{
    let cr: i128 = area_two_of(c, a, b);
    if cr < 0 {
        0
    } else if cr > 0 {
        2
    } else {
        let d: i128 = dot_of(
            a.x as i64 - c.x as i64,
            a.y as i64 - c.y as i64,
            b.x as i64 - c.x as i64,
            b.y as i64 - c.y as i64,
        );
        if d < 0 {
            1
        } else {
            3
        }
    }
}

/// Whether the ray through `b1` comes strictly before the ray through `b2`.
pub fn is_nearer(c: IntPoint, a: IntPoint, b1: IntPoint, b2: IntPoint) -> (r: bool)
    ensures
        r == spec_is_nearer(c, a, b1, b2),
{
    let k1: u8 = turn_class_of(c, a, b1);
    let k2: u8 = turn_class_of(c, a, b2);
    if k1 != k2 {
        k1 < k2
    } else if k1 == 0 || k1 == 2 {
        area_two_of(c, b1, b2) < 0
    } else {
        false
    }
}

/// Whether a contour counts as an outer border: it has at least three
/// points, runs counter-clockwise, and encloses at least `min_area`.
pub open spec fn is_outer(contour: Seq<IntPoint>, min_area: int) -> bool {
    contour.len() >= 3 && spec_area_two_path(contour) > 0 && spec_area_two_path(contour) >= 2 * min_area
}

/// Whether a contour counts as a hole: it has at least three points, runs
/// clockwise, and encloses at least `min_area`.
pub open spec fn is_hole(contour: Seq<IntPoint>, min_area: int) -> bool {
    contour.len() >= 3 && spec_area_two_path(contour) < 0 && -spec_area_two_path(contour) >= 2 * min_area
}

/// Whether a shape starts with an outer border and goes on with holes.
pub open spec fn shape_ok(shape: Seq<IntPath>, min_area: int) -> bool {
    &&& shape.len() >= 1
    &&& is_outer(shape[0]@, min_area)
    &&& forall|k: int| 1 <= k < shape.len() ==> is_hole((#[trigger] shape[k])@, min_area)
}

/// Whether every shape starts with an outer border and goes on with holes.
pub open spec fn shapes_ok(shapes: Seq<IntShape>, min_area: int) -> bool {
    forall|s: int| 0 <= s < shapes.len() ==> shape_ok((#[trigger] shapes[s])@, min_area)
}

/// For every link, the directions in which it is still to be walked:
/// `forward` from its lesser end to its greater end, `backward` the other
/// way.
#[derive(Debug)]
pub struct WalkState {
    pub forward: Vec<bool>,
    pub backward: Vec<bool>,
}

/// What a walk state holds: for every link whether it is still to be walked
/// forward, and whether backward.
pub type WalkView = (Seq<bool>, Seq<bool>);

impl View for WalkState {
    type V = WalkView;

    open spec fn view(&self) -> WalkView {
        (self.forward@, self.backward@)
    }
}

/// A link walked in one direction.
#[derive(Clone, Copy, Debug, PartialEq, Eq, Structural)]
pub struct Step {
    pub link: usize,
    pub forward: bool,
}

/// Whether a step is still to be walked.
pub open spec fn is_open(state: WalkView, step: Step) -> bool {
    if step.forward {
        state.0[step.link as int]
    } else {
        state.1[step.link as int]
    }
}

/// The state after a step has been walked.
pub open spec fn closed(state: WalkView, step: Step) -> WalkView {
    if step.forward {
        (state.0.update(step.link as int, false), state.1)
    } else {
        (state.0, state.1.update(step.link as int, false))
    }
}

/// The end at which a step starts.
pub open spec fn origin_of(links: Seq<OverlayLink>, step: Step) -> IdPoint {
    if step.forward {
        links[step.link as int].a
    } else {
        links[step.link as int].b
    }
}

/// The end at which a step arrives.
pub open spec fn target_of(links: Seq<OverlayLink>, step: Step) -> IdPoint {
    if step.forward {
        links[step.link as int].b
    } else {
        links[step.link as int].a
    }
}

/// The better of the candidate `best` and `step` as the step that follows
/// at the node `to`. `step` is taken where it starts at the node, is still
/// to be walked or is `start`, and is met before the candidate when turning
/// clockwise away from the ray towards `from`.
pub open spec fn considered(
    links: Seq<OverlayLink>,
    step: Step,
    start: Step,
    state: WalkView,
    from: IntPoint,
    to: IdPoint,
    best: Option<(Step, IntPoint)>,
) -> Option<(Step, IntPoint)> {
    if (step == start || is_open(state, step)) && origin_of(links, step).id == to.id && (match best {
        None => true,
        Some(b) => spec_is_nearer(to.point, from, target_of(links, step).point, b.1),
    }) {
        Some((step, target_of(links, step).point))
    } else {
        best
    }
}

/// The best candidate once the links of `list` from `k` on are considered,
/// each forward and then backward.
pub open spec fn nearest_from(
    links: Seq<OverlayLink>,
    list: Seq<usize>,
    k: int,
    start: Step,
    state: WalkView,
    from: IntPoint,
    to: IdPoint,
    best: Option<(Step, IntPoint)>,
) -> Option<(Step, IntPoint)>
    decreases list.len() - k,
{
    if k < 0 || k >= list.len() {
        best
    } else {
        let first = considered(links, Step { link: list[k], forward: true }, start, state, from, to, best);
        let second = considered(links, Step { link: list[k], forward: false }, start, state, from, to, first);
        nearest_from(links, list, k + 1, start, state, from, to, second)
    }
}

/// The step that follows `cur` on its contour: of the steps that start
/// where `cur` arrives and are still to be walked, or are the step `start`
/// with which the contour began, the one met first when turning clockwise
/// away from `cur`.
pub open spec fn next_step(graph: (Seq<OverlayLink>, Seq<Seq<usize>>), cur: Step, start: Step, state: WalkView) -> Option<
    Step,
> {
    let from = origin_of(graph.0, cur);
    let to = target_of(graph.0, cur);
    match nearest_from(graph.0, graph.1[to.id as int], 0, start, state, from.point, to, None) {
        Some(b) => Some(b.0),
        None => None,
    }
}

/// The steps of a contour and the state once the walk has gone on from
/// `cur` for at most `budget` steps. The walk ends when it is led back to
/// `start` or no step follows.
pub open spec fn walked(
    graph: (Seq<OverlayLink>, Seq<Seq<usize>>),
    cur: Step,
    start: Step,
    state: WalkView,
    path: Seq<Step>,
    budget: nat,
) -> (Seq<Step>, WalkView)
    decreases budget,
{
    if budget == 0 {
        (path, state)
    } else {
        match next_step(graph, cur, start, state) {
            None => (path, state),
            Some(next) => if next == start {
                (path, state)
            } else {
                walked(graph, next, start, closed(state, next), path.push(next), (budget - 1) as nat)
            },
        }
    }
}

/// The steps of the contour that starts with `start`, and the state after
/// the walk. The walk takes at most twice as many steps as there are links.
pub open spec fn spec_walk(graph: (Seq<OverlayLink>, Seq<Seq<usize>>), start: Step, state: WalkView) -> (
    Seq<Step>,
    WalkView,
) {
    walked(graph, start, start, closed(state, start), seq![start], (2 * graph.0.len()) as nat)
}

/// The points at which the steps of a walked contour start.
pub open spec fn points_of(links: Seq<OverlayLink>, path: Seq<Step>) -> Seq<IntPoint> {
    Seq::new(path.len(), |k: int| origin_of(links, path[k]).point)
}

/// The contours found so far: those that start shapes, and the holes.
pub struct Found {
    pub shapes: Seq<Seq<Seq<IntPoint>>>,
    pub holes: Seq<Seq<IntPoint>>,
}

/// The contours found once `contour` is sorted in. A contour of fewer than
/// three points or of less than `min_area` is dropped; one that runs
/// counter-clockwise starts a shape; one that runs clockwise is a hole.
pub open spec fn sorted_in(found: Found, contour: Seq<IntPoint>, min_area: int) -> Found {
    if contour.len() < 3 {
        found
    } else if spec_area_two_path(contour) > 0 && spec_area_two_path(contour) >= 2 * min_area {
        Found { shapes: found.shapes.push(seq![contour]), holes: found.holes }
    } else if spec_area_two_path(contour) < 0 && spec_area_two_path(contour) <= -2 * min_area {
        Found { shapes: found.shapes, holes: found.holes.push(contour) }
    } else {
        found
    }
}

/// The contours found once every step from link `i`, direction `d`, on has
/// been tried as the start of a walk: forward for `d == 0`, then backward.
pub open spec fn contours_from(
    graph: (Seq<OverlayLink>, Seq<Seq<usize>>),
    state: WalkView,
    i: int,
    d: int,
    found: Found,
    min_area: int,
) -> Found
    decreases graph.0.len() - i, 2 - d,
{
    if i < 0 || i >= graph.0.len() {
        found
    } else if d < 0 || d >= 2 {
        contours_from(graph, state, i + 1, 0, found, min_area)
    } else {
        let start = Step { link: i as usize, forward: d == 0 };
        if is_open(state, start) {
            let w = spec_walk(graph, start, state);
            let contour = spec_simplified(points_of(graph.0, w.0));
            contours_from(graph, w.1, i, d + 1, sorted_in(found, contour, min_area), min_area)
        } else {
            contours_from(graph, state, i, d + 1, found, min_area)
        }
    }
}

/// The shapes that the walks over a graph yield.
///
/// A walk starts with the first step that is still to be walked and goes on,
/// at every node, with the step met first when turning clockwise away from
/// the link of arrival. A contour is stripped of the points at which it does
/// not turn. It is dropped where fewer than three points are left or where
/// it encloses less than `min_area`. A contour that runs counter-clockwise
/// starts a shape; one that runs clockwise is a hole and joins the smallest
/// shape whose outer border encloses it.
pub open spec fn spec_extract_contours(
    graph: (Seq<OverlayLink>, Seq<Seq<usize>>),
    state: WalkView,
    min_area: int,
) -> Seq<Seq<Seq<IntPoint>>> {
    let found = contours_from(graph, state, 0, 0, Found { shapes: Seq::empty(), holes: Seq::empty() }, min_area);
    joined(found.shapes, found.holes)
}

/// For every link, whether `rule` leaves it out of the walk: it does not lie
/// on the border of the result.
pub open spec fn spec_filter(links: Seq<OverlayLink>, rule: OverlayRule) -> Seq<bool> {
    Seq::new(links.len(), |i: int| !rule.spec_is_boundary(links[i].fill))
}

/// The directions in which the links are walked for `rule`: a link that
/// `filter` leaves out in none, any other in the one direction that has the
/// result on its left.
pub open spec fn spec_walk_state(links: Seq<OverlayLink>, filter: Seq<bool>, rule: OverlayRule) -> WalkView {
    (
        Seq::new(links.len(), |i: int| !filter[i] && rule.spec_is_fill_top(links[i].fill)),
        Seq::new(links.len(), |i: int| !filter[i] && !rule.spec_is_fill_top(links[i].fill)),
    )
}

/// The shapes of the result of `rule` in a graph, without the contours that
/// enclose less than `min_area`.
pub open spec fn spec_extract_shapes(graph: (Seq<OverlayLink>, Seq<Seq<usize>>), rule: OverlayRule, min_area: int) -> Seq<
    Seq<Seq<IntPoint>>,
> {
    spec_extract_contours(graph, spec_walk_state(graph.0, spec_filter(graph.0, rule), rule), min_area)
}

/// Extracting the shapes of one rule from one graph twice gives the same
/// shapes: what an extraction returns depends on the graph, the rule and the
/// least area alone, and the graph is left as it is.
pub proof fn lemma_extraction_repeats(
    graph: (Seq<OverlayLink>, Seq<Seq<usize>>),
    rule: OverlayRule,
    min_area: int,
    first: Seq<Seq<Seq<IntPoint>>>,
    second: Seq<Seq<Seq<IntPoint>>>,
)
    requires
        first == spec_extract_shapes(graph, rule, min_area),
        second == spec_extract_shapes(graph, rule, min_area),
    ensures
        first == second,
{
}

impl WalkState {
    /// Whether link `i` is still to be walked in the given direction.
    pub fn is_open(&self, i: usize, forward: bool) -> (r: bool)
        requires
            i < self.forward.len(),
            i < self.backward.len(),
        ensures
            r == is_open(self@, Step { link: i, forward }),
    {
        if forward {
            self.forward[i]
        } else {
            self.backward[i]
        }
    }

    /// Notes that link `i` has been walked in the given direction.
    pub fn close(&mut self, i: usize, forward: bool)
        requires
            i < old(self).forward.len(),
            i < old(self).backward.len(),
        ensures
            final(self).forward.len() == old(self).forward.len(),
            final(self).backward.len() == old(self).backward.len(),
            final(self)@ == closed(old(self)@, Step { link: i, forward }),
    {
        if forward {
            self.forward[i] = false;
        } else {
            self.backward[i] = false;
        }
    }
}

impl OverlayGraph {
    /// The ends of a step: where it starts, then where it arrives.
    fn directed(&self, step: Step) -> (r: (IdPoint, IdPoint))
        requires
            self.wf(),
            step.link < self.links.len(),
        ensures
            r.0 == origin_of(self.links@, step),
            r.1 == target_of(self.links@, step),
            r.0.id < self.nodes.len(),
            r.1.id < self.nodes.len(),
    {
        let link: OverlayLink = self.links[step.link];
        if step.forward {
            (link.a, link.b)
        } else {
            (link.b, link.a)
        }
    }

    /// For every link, whether it is left out of the walk: it does not lie on
    /// the border of the result.
    pub fn filter(&self, rule: OverlayRule) -> (visited: Vec<bool>)
        ensures
            visited@ == spec_filter(self.links@, rule),
            visited.len() == self.links.len(),
    {
        let n: usize = self.links.len();
        let mut visited: Vec<bool> = Vec::new();
        let mut i: usize = 0;
        while i < n
            invariant
                n == self.links.len(),
                i <= n,
                visited.len() == i,
                forall|k: int|
                    0 <= k < i ==> (#[trigger] visited@[k]) == !rule.spec_is_boundary(self.links@[k].fill),
            decreases n - i,
        {
            visited.push(!rule.is_boundary(self.links[i].fill));
            i += 1;
        }
        assert(visited@ =~= spec_filter(self.links@, rule));
        visited
    }

    /// The directions in which the links are walked for `rule`.
    pub fn walk_state(&self, filter: &Vec<bool>, rule: OverlayRule) -> (state: WalkState)
        requires
            filter.len() == self.links.len(),
        ensures
            state@ == spec_walk_state(self.links@, filter@, rule),
            state.forward.len() == self.links.len(),
            state.backward.len() == self.links.len(),
    {
        let n: usize = self.links.len();
        let mut forward: Vec<bool> = Vec::new();
        let mut backward: Vec<bool> = Vec::new();
        let mut i: usize = 0;
        while i < n
            invariant
                n == self.links.len(),
                n == filter.len(),
                i <= n,
                forward.len() == i,
                backward.len() == i,
                forall|k: int|
                    0 <= k < i ==> (#[trigger] forward@[k]) == (!filter@[k] && rule.spec_is_fill_top(
                        self.links@[k].fill,
                    )),
                forall|k: int|
                    0 <= k < i ==> (#[trigger] backward@[k]) == (!filter@[k] && !rule.spec_is_fill_top(
                        self.links@[k].fill,
                    )),
            decreases n - i,
        {
            let top: bool = rule.is_fill_top(self.links[i].fill);
            forward.push(!filter[i] && top);
            backward.push(!filter[i] && !top);
            i += 1;
        }
        let state: WalkState = WalkState { forward, backward };
        proof {
            assert(state@.0 =~= spec_walk_state(self.links@, filter@, rule).0);
            assert(state@.1 =~= spec_walk_state(self.links@, filter@, rule).1);
        }
        state
    }

    /// The better of the candidate `best` and `step`; see `considered`.
    fn consider(
        &self,
        step: Step,
        start: Step,
        state: &WalkState,
        from: IntPoint,
        to: IdPoint,
        best: Option<(Step, IntPoint)>,
    ) -> (r: Option<(Step, IntPoint)>)
        requires
            self.wf(),
            step.link < self.links.len(),
            state.forward.len() == self.links.len(),
            state.backward.len() == self.links.len(),
            best matches Some(b) ==> b.0.link < self.links.len(),
        ensures
            r == considered(self.links@, step, start, state@, from, to, best),
            r matches Some(b) ==> b.0.link < self.links.len(),
    {
        if step == start || state.is_open(step.link, step.forward) {
            let (origin, target): (IdPoint, IdPoint) = self.directed(step);
            if origin.id == to.id {
                let better: bool = match best {
                    None => true,
                    Some(b) => is_nearer(to.point, from, target.point, b.1),
                };
                if better {
                    return Some((step, target.point));
                }
            }
        }
        best
    }

    /// The step that follows `cur` on its contour; see `next_step`.
    fn find_nearest_link_to(&self, cur: Step, start: Step, state: &WalkState) -> (r: Option<Step>)
        requires
            self.wf(),
            cur.link < self.links.len(),
            start.link < self.links.len(),
            state.forward.len() == self.links.len(),
            state.backward.len() == self.links.len(),
        ensures
            r == next_step(self@, cur, start, state@),
            r matches Some(next) ==> next.link < self.links.len(),
    {
        let (from, to): (IdPoint, IdPoint) = self.directed(cur);
        let count: usize = self.nodes[to.id].indices.len();
        let ghost list: Seq<usize> = self@.1[to.id as int];
        let mut best: Option<(Step, IntPoint)> = None;
        let mut k: usize = 0;
        while k < count
            invariant
                self.wf(),
                to.id < self.nodes.len(),
                list == self.nodes@[to.id as int].indices@,
                count == list.len(),
                k <= count,
                state.forward.len() == self.links.len(),
                state.backward.len() == self.links.len(),
                best matches Some(b) ==> b.0.link < self.links.len(),
                nearest_from(self.links@, list, k as int, start, state@, from.point, to, best) == nearest_from(
                    self.links@,
                    list,
                    0,
                    start,
                    state@,
                    from.point,
                    to,
                    None,
                ),
            decreases count - k,
        {
            let index: usize = self.nodes[to.id].indices[k];
            best = self.consider(Step { link: index, forward: true }, start, state, from.point, to, best);
            best = self.consider(Step { link: index, forward: false }, start, state, from.point, to, best);
            k += 1;
        }
        match best {
            Some(b) => Some(b.0),
            None => None,
        }
    }

    /// Walks the contour that starts with the step `start` and notes its
    /// steps as walked; see `spec_walk`.
    pub fn walk(&self, start: Step, state: &mut WalkState) -> (path: Vec<Step>)
        requires
            self.wf(),
            start.link < self.links.len(),
            old(state).forward.len() == self.links.len(),
            old(state).backward.len() == self.links.len(),
        ensures
            (path@, final(state)@) == spec_walk(self@, start, old(state)@),
            final(state).forward.len() == self.links.len(),
            final(state).backward.len() == self.links.len(),
            path.len() >= 1,
            path@[0] == start,
            forall|k: int| 0 <= k < path.len() ==> (#[trigger] path@[k]).link < self.links.len(),
    {
        let n: usize = self.links.len();
        let mut path: Vec<Step> = Vec::new();
        path.push(start);
        state.close(start.link, start.forward);
        let mut cur: Step = start;
        let mut steps: u128 = 0;
        let limit: u128 = 2 * (n as u128);
        let mut done: bool = false;
        while !done && steps < limit
            invariant
                self.wf(),
                n == self.links.len(),
                state.forward.len() == n,
                state.backward.len() == n,
                start.link < n,
                cur.link < n,
                path.len() >= 1,
                path@[0] == start,
                forall|k: int| 0 <= k < path.len() ==> (#[trigger] path@[k]).link < n,
                limit == 2 * n,
                steps <= limit,
                done ==> (path@, state@) == spec_walk(self@, start, old(state)@),
                !done ==> walked(self@, cur, start, state@, path@, (limit - steps) as nat) == spec_walk(
                    self@,
                    start,
                    old(state)@,
                ),
            decreases limit - steps + (if done { 0int } else { 1int }),
        {
            match self.find_nearest_link_to(cur, start, state) {
                None => {
                    done = true;
                },
                Some(next) => {
                    if next == start {
                        done = true;
                    } else {
                        state.close(next.link, next.forward);
                        path.push(next);
                        cur = next;
                        steps += 1;
                    }
                },
            }
        }
        path
    }

    /// The points at which the steps of a walked contour start.
    pub fn path_points(&self, path: &Vec<Step>) -> (points: Vec<IntPoint>)
        requires
            self.wf(),
            forall|k: int| 0 <= k < path.len() ==> (#[trigger] path@[k]).link < self.links.len(),
        ensures
            points@ == points_of(self.links@, path@),
    {
        let n: usize = path.len();
        let mut points: Vec<IntPoint> = Vec::new();
        let mut k: usize = 0;
        while k < n
            invariant
                self.wf(),
                n == path.len(),
                k <= n,
                points.len() == k,
                forall|q: int| 0 <= q < path.len() ==> (#[trigger] path@[q]).link < self.links.len(),
                forall|q: int| 0 <= q < k ==> (#[trigger] points@[q]) == origin_of(self.links@, path@[q]).point,
            decreases n - k,
        {
            let (origin, _target): (IdPoint, IdPoint) = self.directed(path[k]);
            points.push(origin.point);
            k += 1;
        }
        assert(points@ =~= points_of(self.links@, path@));
        points
    }

    /// The shapes of the result of `overlay_rule`.
    pub fn extract_shapes(&self, overlay_rule: OverlayRule) -> (shapes: IntShapes)
        requires
            self.wf(),
        ensures
            shape_views(shapes@) == spec_extract_shapes(self@, overlay_rule, 0),
            shapes_ok(shapes@, 0),
            self.links.len() == 0 ==> shapes.len() == 0,
    {
        self.extract_shapes_min_area(overlay_rule, 0)
    }

    /// The shapes of the result of `overlay_rule`, without the contours that
    /// enclose less than `min_area`.
    pub fn extract_shapes_min_area(&self, overlay_rule: OverlayRule, min_area: usize) -> (shapes: IntShapes)
        requires
            self.wf(),
        ensures
            shape_views(shapes@) == spec_extract_shapes(self@, overlay_rule, min_area as int),
            shapes_ok(shapes@, min_area as int),
            self.links.len() == 0 ==> shapes.len() == 0,
    {
        let visited: Vec<bool> = self.filter(overlay_rule);
        self.extract(visited, overlay_rule, min_area)
    }

    /// Walks the links that `filter` does not leave out into contours, with
    /// the result of `overlay_rule` on the left of every link, and assembles
    /// the contours into shapes; see `spec_extract_contours`.
    pub fn extract(&self, filter: Vec<bool>, overlay_rule: OverlayRule, min_area: usize) -> (shapes: IntShapes)
        requires
            self.wf(),
            filter.len() == self.links.len(),
        ensures
            shape_views(shapes@) == spec_extract_contours(
                self@,
                spec_walk_state(self.links@, filter@, overlay_rule),
                min_area as int,
            ),
            shapes_ok(shapes@, min_area as int),
            self.links.len() == 0 ==> shapes.len() == 0,
    {
        let state: WalkState = self.walk_state(&filter, overlay_rule);
        self.extract_contours(state, min_area)
    }

    /// Walks every link in every direction that `state` names into contours
    /// and assembles the contours into shapes; see `spec_extract_contours`.
    pub fn extract_contours(&self, state: WalkState, min_area: usize) -> (shapes: IntShapes)
        requires
            self.wf(),
            state.forward.len() == self.links.len(),
            state.backward.len() == self.links.len(),
        ensures
            shape_views(shapes@) == spec_extract_contours(self@, state@, min_area as int),
            shapes_ok(shapes@, min_area as int),
            self.links.len() == 0 ==> shapes.len() == 0,
    {
        let n: usize = self.links.len();
        let ghost first: WalkView = state@;
        let ghost nothing: Found = Found { shapes: Seq::empty(), holes: Seq::empty() };
        let ghost goal: Found = contours_from(self@, first, 0, 0, nothing, min_area as int);
        let mut state: WalkState = state;
        let mut shapes: Vec<IntShape> = Vec::new();
        let mut holes: Vec<IntPath> = Vec::new();
        let limit: i128 = 2 * (min_area as i128);
        let mut i: usize = 0;
        proof {
            assert(shape_views(shapes@) =~= nothing.shapes);
            assert(path_views(holes@) =~= nothing.holes);
        }
        while i < n
            invariant
                self.wf(),
                n == self.links.len(),
                state.forward.len() == n,
                state.backward.len() == n,
                i <= n,
                limit == 2 * min_area,
                n == 0 ==> shapes.len() == 0,
                shapes_ok(shapes@, min_area as int),
                forall|h: int| 0 <= h < holes.len() ==> is_hole((#[trigger] holes@[h])@, min_area as int),
                contours_from(
                    self@,
                    state@,
                    i as int,
                    0,
                    Found { shapes: shape_views(shapes@), holes: path_views(holes@) },
                    min_area as int,
                ) == goal,
            decreases n - i,
        {
            let mut d: usize = 0;
            while d < 2
                invariant
                    self.wf(),
                    n == self.links.len(),
                    state.forward.len() == n,
                    state.backward.len() == n,
                    i < n,
                    d <= 2,
                    limit == 2 * min_area,
                    shapes_ok(shapes@, min_area as int),
                    forall|h: int|
                        0 <= h < holes.len() ==> is_hole((#[trigger] holes@[h])@, min_area as int),
                    contours_from(
                        self@,
                        state@,
                        i as int,
                        d as int,
                        Found { shapes: shape_views(shapes@), holes: path_views(holes@) },
                        min_area as int,
                    ) == goal,
                decreases 2 - d,
            {
                let start: Step = Step { link: i, forward: d == 0 };
                if state.is_open(start.link, start.forward) {
                    let path: Vec<Step> = self.walk(start, &mut state);
                    let points: Vec<IntPoint> = self.path_points(&path);
                    let contour: Vec<IntPoint> = simplify_contour(&points);
                    let ghost found: Found = Found { shapes: shape_views(shapes@), holes: path_views(holes@) };
                    if contour.len() >= 3 {
                        let area: i128 = area_two_path(&contour);
                        if area > 0 && area >= limit {
                            let ghost before: Seq<IntShape> = shapes@;
                            let mut shape: IntShape = Vec::new();
                            shape.push(contour);
                            shapes.push(shape);
                            proof {
                                assert forall|s: int| 0 <= s < shapes.len() implies shape_ok(
                                    (#[trigger] shapes@[s])@,
                                    min_area as int,
                                ) by {
                                    if s < before.len() {
                                        assert(shapes@[s] == before[s]);
                                    }
                                }
                                assert(path_views(shape@) =~= seq![contour@]);
                                assert(shape_views(shapes@) =~= found.shapes.push(seq![contour@]));
                            }
                        } else if area < 0 && area <= -limit {
                            let ghost before: Seq<IntPath> = holes@;
                            holes.push(contour);
                            proof {
                                assert forall|h: int| 0 <= h < holes.len() implies is_hole(
                                    (#[trigger] holes@[h])@,
                                    min_area as int,
                                ) by {
                                    if h < before.len() {
                                        assert(holes@[h] == before[h]);
                                    }
                                }
                                assert(path_views(holes@) =~= found.holes.push(contour@));
                            }
                        }
                    }
                }
                d += 1;
            }
            i += 1;
        }
        join_holes(shapes, holes, min_area)
    }
}

} // verus!

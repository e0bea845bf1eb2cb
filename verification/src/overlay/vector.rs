use vstd::prelude::*;
use crate::fill::segment_fill::SegmentFill;
use crate::geom::contour::{area_two_path, spec_area_two_path, IntPath, IntShape};
use crate::geom::point::IntPoint;
use crate::overlay::extract::{points_of, spec_filter, spec_walk, spec_walk_state, Step, WalkState, WalkView};
use crate::overlay::graph::OverlayGraph;
use crate::overlay::link::OverlayLink;
use crate::overlay::nest::{find_parent, path_views, shape_views, spec_find_parent};
use crate::overlay::rule::OverlayRule;

verus! {

/// A directed edge with the fill of the segment that it lies on.
#[derive(Clone, Copy, Debug, PartialEq, Eq, Structural)]
pub struct VectorEdge {
    pub a: IntPoint,
    pub b: IntPoint,
    pub fill: SegmentFill,
}

/// A closed chain of edges.
pub type VectorPath = Vec<VectorEdge>;

/// A shape of edges: its outer border first, then its holes.
pub type VectorShape = Vec<VectorPath>;

/// The edges of the first `n` links, each from its lesser end to its greater
/// end.
pub open spec fn edges_of(links: Seq<OverlayLink>, n: int) -> Seq<VectorEdge>
    decreases n,
{
    if n <= 0 {
        Seq::empty()
    } else {
        edges_of(links, n - 1).push(
            VectorEdge { a: links[n - 1].a.point, b: links[n - 1].b.point, fill: links[n - 1].fill },
        )
    }
}

/// The edge of a step: the link in the direction of the step.
pub open spec fn edge_of(links: Seq<OverlayLink>, step: Step) -> VectorEdge {
    let link = links[step.link as int];
    if step.forward {
        VectorEdge { a: link.a.point, b: link.b.point, fill: link.fill }
    } else {
        VectorEdge { a: link.b.point, b: link.a.point, fill: link.fill }
    }
}

/// The edges of a walked contour.
pub open spec fn path_edges_of(links: Seq<OverlayLink>, path: Seq<Step>) -> Seq<VectorEdge> {
    Seq::new(path.len(), |k: int| edge_of(links, path[k]))
}

/// The contours of edges found so far: the shapes with the points of their
/// outer borders, and the holes with their points.
pub struct FoundVectors {
    pub shapes: Seq<Seq<Seq<VectorEdge>>>,
    pub outers: Seq<Seq<Seq<IntPoint>>>,
    pub holes: Seq<Seq<VectorEdge>>,
    pub hole_points: Seq<Seq<IntPoint>>,
}

/// The contours found once a contour of edges is sorted in: one of a single
/// edge is dropped, one that does not run clockwise starts a shape, one that
/// does is a hole.
pub open spec fn sorted_in_vectors(found: FoundVectors, edges: Seq<VectorEdge>, points: Seq<IntPoint>) -> FoundVectors {
    if points.len() < 2 {
        found
    } else if spec_area_two_path(points) >= 0 {
        FoundVectors {
            shapes: found.shapes.push(seq![edges]),
            outers: found.outers.push(seq![points]),
            holes: found.holes,
            hole_points: found.hole_points,
        }
    } else {
        FoundVectors {
            shapes: found.shapes,
            outers: found.outers,
            holes: found.holes.push(edges),
            hole_points: found.hole_points.push(points),
        }
    }
}

/// The contours of edges found once every link from `i` on has been tried as
/// the start of a walk, in the direction in which it is still to be walked.
pub open spec fn vectors_from(
    graph: (Seq<OverlayLink>, Seq<Seq<usize>>),
    state: WalkView,
    i: int,
    found: FoundVectors,
) -> FoundVectors
    decreases graph.0.len() - i,
{
    if i < 0 || i >= graph.0.len() {
        found
    } else if state.0[i] || state.1[i] {
        let w = spec_walk(graph, Step { link: i as usize, forward: state.0[i] }, state);
        vectors_from(
            graph,
            w.1,
            i + 1,
            sorted_in_vectors(found, path_edges_of(graph.0, w.0), points_of(graph.0, w.0)),
        )
    } else {
        vectors_from(graph, state, i + 1, found)
    }
}

/// The shapes of edges once every hole has joined the shape whose outer
/// border encloses it, the last hole first.
pub open spec fn joined_vectors(
    shapes: Seq<Seq<Seq<VectorEdge>>>,
    outers: Seq<Seq<Seq<IntPoint>>>,
    holes: Seq<Seq<VectorEdge>>,
    hole_points: Seq<Seq<IntPoint>>,
) -> Seq<Seq<Seq<VectorEdge>>>
    decreases holes.len(),
{
    if holes.len() == 0 || hole_points.len() == 0 {
        shapes
    } else {
        let next = match spec_find_parent(outers, hole_points.last()) {
            Some(p) => shapes.update(p, shapes[p].push(holes.last())),
            None => shapes,
        };
        joined_vectors(next, outers, holes.drop_last(), hole_points.drop_last())
    }
}

/// The result of `rule` in a graph as shapes of directed edges: the
/// contours are walked as for shapes of points, but no edge is left out.
pub open spec fn spec_shape_vectors(graph: (Seq<OverlayLink>, Seq<Seq<usize>>), rule: OverlayRule) -> Seq<
    Seq<Seq<VectorEdge>>,
> {
    let found = vectors_from(
        graph,
        spec_walk_state(graph.0, spec_filter(graph.0, rule), rule),
        0,
        FoundVectors {
            shapes: Seq::empty(),
            outers: Seq::empty(),
            holes: Seq::empty(),
            hole_points: Seq::empty(),
        },
    );
    joined_vectors(found.shapes, found.outers, found.holes, found.hole_points)
}

/// The edges of a list of chains.
pub open spec fn chain_views(paths: Seq<VectorPath>) -> Seq<Seq<VectorEdge>> {
    Seq::new(paths.len(), |i: int| paths[i]@)
}

/// The edges of a list of shapes.
pub open spec fn vector_views(shapes: Seq<VectorShape>) -> Seq<Seq<Seq<VectorEdge>>> {
    Seq::new(shapes.len(), |i: int| chain_views(shapes[i]@))
}

impl OverlayGraph {
    /// Every link as an edge of its own.
    pub fn extract_separate_vectors(&self) -> (r: Vec<VectorEdge>)
        ensures
            r@ == edges_of(self.links@, self.links.len() as int),
    {
        let n: usize = self.links.len();
        let mut r: Vec<VectorEdge> = Vec::new();
        let mut i: usize = 0;
        while i < n
            invariant
                n == self.links.len(),
                i <= n,
                r@ == edges_of(self.links@, i as int),
            decreases n - i,
        {
            let link: OverlayLink = self.links[i];
            r.push(VectorEdge { a: link.a.point, b: link.b.point, fill: link.fill });
            i += 1;
        }
        r
    }

    /// The edges of a walked contour, each in the direction of the walk, and
    /// the points at which they start.
    fn path_edges(&self, path: &Vec<Step>) -> (r: (Vec<VectorEdge>, Vec<IntPoint>))
        requires
            self.wf(),
            forall|k: int| 0 <= k < path.len() ==> (#[trigger] path@[k]).link < self.links.len(),
        ensures
            r.0@ == path_edges_of(self.links@, path@),
            r.1@ == points_of(self.links@, path@),
    {
        let n: usize = path.len();
        let mut edges: Vec<VectorEdge> = Vec::new();
        let mut points: Vec<IntPoint> = Vec::new();
        let mut k: usize = 0;
        while k < n
            invariant
                self.wf(),
                n == path.len(),
                k <= n,
                edges.len() == k,
                points.len() == k,
                forall|q: int| 0 <= q < path.len() ==> (#[trigger] path@[q]).link < self.links.len(),
                forall|q: int| 0 <= q < k ==> (#[trigger] edges@[q]) == edge_of(self.links@, path@[q]),
                forall|q: int|
                    0 <= q < k ==> (#[trigger] points@[q]) == crate::overlay::extract::origin_of(
                        self.links@,
                        path@[q],
                    ).point,
            decreases n - k,
        {
            let link: OverlayLink = self.links[path[k].link];
            if path[k].forward {
                edges.push(VectorEdge { a: link.a.point, b: link.b.point, fill: link.fill });
                points.push(link.a.point);
            } else {
                edges.push(VectorEdge { a: link.b.point, b: link.a.point, fill: link.fill });
                points.push(link.b.point);
            }
            k += 1;
        }
        proof {
            assert(edges@ =~= path_edges_of(self.links@, path@));
            assert(points@ =~= points_of(self.links@, path@));
        }
        (edges, points)
    }

    /// The result of `overlay_rule` as shapes of directed edges; see
    /// `spec_shape_vectors`.
    pub fn extract_shape_vectors(&self, overlay_rule: OverlayRule) -> (r: Vec<VectorShape>)
        requires
            self.wf(),
        ensures
            vector_views(r@) == spec_shape_vectors(self@, overlay_rule),
            self.links.len() == 0 ==> r.len() == 0,
            forall|s: int| 0 <= s < r.len() ==> (#[trigger] r@[s]).len() >= 1,
    {
        let n: usize = self.links.len();
        let filter: Vec<bool> = self.filter(overlay_rule);
        let mut state: WalkState = self.walk_state(&filter, overlay_rule);
        let ghost nothing: FoundVectors = FoundVectors {
            shapes: Seq::empty(),
            outers: Seq::empty(),
            holes: Seq::empty(),
            hole_points: Seq::empty(),
        };
        let ghost goal: FoundVectors = vectors_from(self@, state@, 0, nothing);
        let mut shapes: Vec<VectorShape> = Vec::new();
        let mut outers: Vec<IntShape> = Vec::new();
        let mut areas: Vec<i128> = Vec::new();
        let mut holes: Vec<VectorPath> = Vec::new();
        let mut hole_points: Vec<IntPath> = Vec::new();
        proof {
            assert(vector_views(shapes@) =~= nothing.shapes);
            assert(shape_views(outers@) =~= nothing.outers);
            assert(chain_views(holes@) =~= nothing.holes);
            assert(path_views(hole_points@) =~= nothing.hole_points);
        }
        let mut i: usize = 0;
        while i < n
            invariant
                self.wf(),
                n == self.links.len(),
                state.forward.len() == n,
                state.backward.len() == n,
                i <= n,
                n == 0 ==> shapes.len() == 0,
                outers.len() == shapes.len(),
                areas.len() == shapes.len(),
                holes.len() == hole_points.len(),
                forall|s: int| 0 <= s < shapes.len() ==> (#[trigger] shapes@[s]).len() >= 1,
                forall|s: int| 0 <= s < outers.len() ==> (#[trigger] outers@[s]).len() >= 1,
                forall|s: int| 0 <= s < outers.len() ==> (#[trigger] areas@[s]) == spec_area_two_path(outers@[s]@[0]@),
                forall|h: int| 0 <= h < hole_points.len() ==> (#[trigger] hole_points@[h]).len() >= 2,
                vectors_from(
                    self@,
                    state@,
                    i as int,
                    FoundVectors {
                        shapes: vector_views(shapes@),
                        outers: shape_views(outers@),
                        holes: chain_views(holes@),
                        hole_points: path_views(hole_points@),
                    },
                ) == goal,
            decreases n - i,
        {
            let forward: bool = state.forward[i];
            if forward || state.backward[i] {
                let ghost found: FoundVectors = FoundVectors {
                    shapes: vector_views(shapes@),
                    outers: shape_views(outers@),
                    holes: chain_views(holes@),
                    hole_points: path_views(hole_points@),
                };
                let path: Vec<Step> = self.walk(Step { link: i, forward }, &mut state);
                let (edges, points): (Vec<VectorEdge>, Vec<IntPoint>) = self.path_edges(&path);
                if points.len() >= 2 {
                    let area: i128 = area_two_path(&points);
                    if area >= 0 {
                        let ghost outers_before: Seq<IntShape> = outers@;
                        let mut shape: VectorShape = Vec::new();
                        shape.push(edges);
                        shapes.push(shape);
                        let mut outer: IntShape = Vec::new();
                        outer.push(points);
                        outers.push(outer);
                        areas.push(area);
                        proof {
                            assert(chain_views(shape@) =~= seq![edges@]);
                            assert(vector_views(shapes@) =~= found.shapes.push(seq![edges@]));
                            assert(path_views(outer@) =~= seq![points@]);
                            assert(shape_views(outers@) =~= found.outers.push(seq![points@]));
                            assert forall|s: int| 0 <= s < outers.len() implies (#[trigger] areas@[s])
                                == spec_area_two_path(outers@[s]@[0]@) by {
                                if s < outers_before.len() {
                                    assert(outers@[s] == outers_before[s]);
                                }
                            }
                        }
                    } else {
                        holes.push(edges);
                        hole_points.push(points);
                        proof {
                            assert(chain_views(holes@) =~= found.holes.push(edges@));
                            assert(path_views(hole_points@) =~= found.hole_points.push(points@));
                        }
                    }
                }
            }
            i += 1;
        }
        let ghost total: Seq<Seq<Seq<VectorEdge>>> = joined_vectors(
            vector_views(shapes@),
            shape_views(outers@),
            chain_views(holes@),
            path_views(hole_points@),
        );
        while holes.len() > 0
            invariant
                outers.len() == shapes.len(),
                areas.len() == shapes.len(),
                holes.len() == hole_points.len(),
                self.links.len() == 0 ==> shapes.len() == 0,
                forall|s: int| 0 <= s < shapes.len() ==> (#[trigger] shapes@[s]).len() >= 1,
                forall|s: int| 0 <= s < outers.len() ==> (#[trigger] outers@[s]).len() >= 1,
                forall|s: int| 0 <= s < outers.len() ==> (#[trigger] areas@[s]) == spec_area_two_path(outers@[s]@[0]@),
                forall|h: int| 0 <= h < hole_points.len() ==> (#[trigger] hole_points@[h]).len() >= 2,
                joined_vectors(
                    vector_views(shapes@),
                    shape_views(outers@),
                    chain_views(holes@),
                    path_views(hole_points@),
                ) == total,
            decreases holes.len(),
        {
            let ghost last: int = hole_points.len() - 1;
            let ghost holes_before: Seq<Seq<VectorEdge>> = chain_views(holes@);
            let ghost points_before: Seq<Seq<IntPoint>> = path_views(hole_points@);
            let ghost views_before: Seq<Seq<Seq<VectorEdge>>> = vector_views(shapes@);
            assert(hole_points@[last].len() >= 2);
            let hole: VectorPath = holes.pop().unwrap();
            let points: IntPath = hole_points.pop().unwrap();
            proof {
                assert(chain_views(holes@) =~= holes_before.drop_last());
                assert(path_views(hole_points@) =~= points_before.drop_last());
                assert(holes_before.last() == hole@);
                assert(points_before.last() == points@);
            }
            match find_parent(&outers, &areas, &points) {
                Some(parent) => {
                    shapes[parent].push(hole);
                    proof {
                        assert(chain_views(shapes@[parent as int]@) =~= views_before[parent as int].push(hole@));
                        assert(vector_views(shapes@) =~= views_before.update(
                            parent as int,
                            views_before[parent as int].push(hole@),
                        ));
                    }
                },
                None => {},
            }
        }
        shapes
    }
}

} // verus!

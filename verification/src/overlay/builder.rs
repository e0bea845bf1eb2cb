use vstd::prelude::*;
use crate::fill::fill_rule::FillRule;
use crate::geom::contour::{IntPath, IntShape, IntShapes};
use crate::geom::point::IntPoint;
use crate::overlay::extract::{shapes_ok, spec_extract_contours, spec_walk_state};
use crate::overlay::graph::{graph_of, OverlayGraph};
use crate::overlay::link::{built_links, LinkFilter, OverlayLink, OverlayLinkBuilder};
use crate::overlay::nest::{path_views, shape_views};
use crate::overlay::rule::OverlayRule;
use crate::overlay::vector::{edges_of, spec_shape_vectors, vector_views, VectorEdge, VectorShape};
use crate::segm::builder::{append_path, path_segments};
use crate::segm::count::{ShapeCountBoolean, ShapeType};
use crate::segm::segment::Segment;
use crate::solver::Solver;

verus! {

/// The segments of the first `n` paths of a list, each path taken as a
/// closed contour of the given role.
pub open spec fn paths_segments(paths: Seq<Seq<IntPoint>>, n: int, shape_type: ShapeType) -> Seq<
    Segment<ShapeCountBoolean>,
>
    decreases n,
{
    if n <= 0 {
        Seq::empty()
    } else {
        let counts = ShapeCountBoolean::spec_with_shape_type(shape_type);
        paths_segments(paths, n - 1, shape_type) + path_segments(paths[n - 1], counts.0, counts.1)
    }
}

/// The segments of the first `n` shapes of a list.
pub open spec fn shapes_segments(shapes: Seq<Seq<Seq<IntPoint>>>, n: int, shape_type: ShapeType) -> Seq<
    Segment<ShapeCountBoolean>,
>
    decreases n,
{
    if n <= 0 {
        Seq::empty()
    } else {
        shapes_segments(shapes, n - 1, shape_type) + paths_segments(
            shapes[n - 1],
            shapes[n - 1].len() as int,
            shape_type,
        )
    }
}

/// The number of points of the first `n` paths of a list.
pub open spec fn spec_points_count(paths: Seq<Seq<IntPoint>>, n: int) -> int
    decreases n,
{
    if n <= 0 {
        0
    } else {
        spec_points_count(paths, n - 1) + paths[n - 1].len()
    }
}

/// The number of points of a list of paths; the greatest number that fits
/// where the sum does not.
pub fn points_count(paths: &[IntPath]) -> (r: usize)
    ensures
        r == if spec_points_count(path_views(paths@), paths@.len() as int) <= usize::MAX {
            spec_points_count(path_views(paths@), paths@.len() as int)
        } else {
            usize::MAX as int
        },
{
    let n: usize = paths.len();
    let mut total: usize = 0;
    let mut i: usize = 0;
    while i < n
        invariant
            n == paths@.len(),
            i <= n,
            spec_points_count(path_views(paths@), i as int) >= 0,
            total == if spec_points_count(path_views(paths@), i as int) <= usize::MAX {
                spec_points_count(path_views(paths@), i as int)
            } else {
                usize::MAX as int
            },
        decreases n - i,
    {
        total = match total.checked_add(paths[i].len()) {
            Some(sum) => sum,
            None => usize::MAX,
        };
        i += 1;
    }
    total
}

/// The number of points of the first `n` shapes of a list.
pub open spec fn spec_shapes_points_count(shapes: Seq<Seq<Seq<IntPoint>>>, n: int) -> int
    decreases n,
{
    if n <= 0 {
        0
    } else {
        spec_shapes_points_count(shapes, n - 1) + spec_points_count(shapes[n - 1], shapes[n - 1].len() as int)
    }
}

/// The number of points of a list of paths is not negative.
pub proof fn lemma_points_count(paths: Seq<Seq<IntPoint>>, n: int)
    ensures
        spec_points_count(paths, n) >= 0,
    decreases n,
{
    if n > 0 {
        lemma_points_count(paths, n - 1);
    }
}

/// The number of points of a list of shapes; the greatest number that fits
/// where the sum does not.
pub fn shapes_points_count(shapes: &[IntShape]) -> (r: usize)
    ensures
        r == if spec_shapes_points_count(shape_views(shapes@), shapes@.len() as int) <= usize::MAX {
            spec_shapes_points_count(shape_views(shapes@), shapes@.len() as int)
        } else {
            usize::MAX as int
        },
{
    let n: usize = shapes.len();
    let mut total: usize = 0;
    let mut i: usize = 0;
    while i < n
        invariant
            n == shapes@.len(),
            i <= n,
            spec_shapes_points_count(shape_views(shapes@), i as int) >= 0,
            total == if spec_shapes_points_count(shape_views(shapes@), i as int) <= usize::MAX {
                spec_shapes_points_count(shape_views(shapes@), i as int)
            } else {
                usize::MAX as int
            },
        decreases n - i,
    {
        let here: usize = points_count(shapes[i].as_slice());
        proof {
            assert(shape_views(shapes@)[i as int] == path_views(shapes@[i as int]@));
            lemma_points_count(path_views(shapes@[i as int]@), shapes@[i as int]@.len() as int);
        }
        total = match total.checked_add(here) {
            Some(sum) => sum,
            None => usize::MAX,
        };
        i += 1;
    }
    total
}

/// The graph of a set of segments under `fill_rule`: the segments are split
/// at their intersections, filled, and those that border the subject or the
/// clip become the links of the graph.
pub open spec fn spec_graph(segments: Seq<Segment<ShapeCountBoolean>>, fill_rule: FillRule, solver: Solver) -> (
    Seq<OverlayLink>,
    Seq<Seq<usize>>,
) {
    graph_of(built_links(segments, fill_rule, LinkFilter::Filler, solver))
}

/// The graph of the segments that border the result of `overlay_rule`.
pub open spec fn spec_rule_graph(
    segments: Seq<Segment<ShapeCountBoolean>>,
    fill_rule: FillRule,
    overlay_rule: OverlayRule,
    solver: Solver,
) -> (Seq<OverlayLink>, Seq<Seq<usize>>) {
    graph_of(built_links(segments, fill_rule, LinkFilter::Overlay(overlay_rule), solver))
}

/// The shapes of the result of `overlay_rule` for a set of segments: the
/// segments are split, filled under `fill_rule`, those that border the
/// result are linked into a graph, and the graph is walked into contours
/// that enclose at least `min_area`.
pub open spec fn spec_overlay(
    segments: Seq<Segment<ShapeCountBoolean>>,
    overlay_rule: OverlayRule,
    fill_rule: FillRule,
    min_area: int,
    solver: Solver,
) -> Seq<Seq<Seq<IntPoint>>> {
    let graph = spec_rule_graph(segments, fill_rule, overlay_rule, solver);
    spec_extract_contours(
        graph,
        spec_walk_state(graph.0, Seq::new(graph.0.len(), |i: int| false), overlay_rule),
        min_area,
    )
}

/// Collects the paths of the subject and of the clip for a Boolean
/// operation.
#[derive(Clone, Debug)]
pub struct Overlay {
    pub segments: Vec<Segment<ShapeCountBoolean>>,
}

impl Overlay {
    /// An overlay without paths, with room for `capacity` segments.
    pub fn new(capacity: usize) -> (r: Overlay)
        ensures
            r.segments@ == Seq::<Segment<ShapeCountBoolean>>::empty(),
    {
        Overlay { segments: Vec::with_capacity(capacity) }
    }

    /// An overlay of the given subject paths and clip paths.
    pub fn with_paths(subject_paths: &[IntPath], clip_paths: &[IntPath]) -> (r: Overlay)
        ensures
            r.segments@ == paths_segments(
                path_views(subject_paths@),
                subject_paths@.len() as int,
                ShapeType::Subject,
            ) + paths_segments(path_views(clip_paths@), clip_paths@.len() as int, ShapeType::Clip),
    {
        let a: usize = points_count(subject_paths);
        let b: usize = points_count(clip_paths);
        let capacity: usize = match a.checked_add(b) {
            Some(sum) => sum,
            None => usize::MAX,
        };
        let mut overlay: Overlay = Self::new(capacity);
        overlay.add_paths(subject_paths, ShapeType::Subject);
        overlay.add_paths(clip_paths, ShapeType::Clip);
        overlay
    }

    /// An overlay of the given subject shapes and clip shapes.
    pub fn with_shapes(subject_shapes: &[IntShape], clip_shapes: &[IntShape]) -> (r: Overlay)
        ensures
            r.segments@ == shapes_segments(
                shape_views(subject_shapes@),
                subject_shapes@.len() as int,
                ShapeType::Subject,
            ) + shapes_segments(shape_views(clip_shapes@), clip_shapes@.len() as int, ShapeType::Clip),
    {
        let a: usize = shapes_points_count(subject_shapes);
        let b: usize = shapes_points_count(clip_shapes);
        let capacity: usize = match a.checked_add(b) {
            Some(sum) => sum,
            None => usize::MAX,
        };
        let mut overlay: Overlay = Self::new(capacity);
        overlay.add_shapes(subject_shapes, ShapeType::Subject);
        overlay.add_shapes(clip_shapes, ShapeType::Clip);
        overlay
    }

    /// Adds a closed path in the given role: one segment for every edge that
    /// has a length, the edge from the last point back to the first
    /// included. A path of fewer than two points adds nothing.
    pub fn add_path(&mut self, path: &[IntPoint], shape_type: ShapeType)
        ensures
            final(self).segments@ == old(self).segments@ + path_segments(
                path@,
                ShapeCountBoolean::spec_with_shape_type(shape_type).0,
                ShapeCountBoolean::spec_with_shape_type(shape_type).1,
            ),
    {
        let counts: (ShapeCountBoolean, ShapeCountBoolean) = ShapeCountBoolean::with_shape_type(shape_type);
        append_path(&mut self.segments, path, counts.0, counts.1);
    }

    /// Adds closed paths in the given role.
    pub fn add_paths(&mut self, paths: &[IntPath], shape_type: ShapeType)
        ensures
            final(self).segments@ == old(self).segments@ + paths_segments(
                path_views(paths@),
                paths@.len() as int,
                shape_type,
            ),
    {
        let n: usize = paths.len();
        let mut i: usize = 0;
        while i < n
            invariant
                n == paths@.len(),
                i <= n,
                self.segments@ == old(self).segments@ + paths_segments(path_views(paths@), i as int, shape_type),
            decreases n - i,
        {
            self.add_path(paths[i].as_slice(), shape_type);
            i += 1;
        }
    }

    /// Adds a shape in the given role.
    pub fn add_shape(&mut self, shape: &IntShape, shape_type: ShapeType)
        ensures
            final(self).segments@ == old(self).segments@ + paths_segments(
                path_views(shape@),
                shape@.len() as int,
                shape_type,
            ),
    {
        self.add_paths(shape.as_slice(), shape_type);
    }

    /// Adds shapes in the given role.
    pub fn add_shapes(&mut self, shapes: &[IntShape], shape_type: ShapeType)
        ensures
            final(self).segments@ == old(self).segments@ + shapes_segments(
                shape_views(shapes@),
                shapes@.len() as int,
                shape_type,
            ),
    {
        let n: usize = shapes.len();
        let mut i: usize = 0;
        while i < n
            invariant
                n == shapes@.len(),
                i <= n,
                self.segments@ == old(self).segments@ + shapes_segments(shape_views(shapes@), i as int, shape_type),
            decreases n - i,
        {
            self.add_paths(shapes[i].as_slice(), shape_type);
            i += 1;
        }
    }

    /// A copy of the segments collected so far.
    fn copy_segments(&self) -> (r: Vec<Segment<ShapeCountBoolean>>)
        ensures
            r@ == self.segments@,
    {
        let n: usize = self.segments.len();
        let mut r: Vec<Segment<ShapeCountBoolean>> = Vec::with_capacity(n);
        let mut i: usize = 0;
        while i < n
            invariant
                n == self.segments.len(),
                i <= n,
                r@ == self.segments@.subrange(0, i as int),
            decreases n - i,
        {
            r.push(self.segments[i]);
            i += 1;
        }
        r
    }

    /// The result of `overlay_rule` as shapes of directed edges that carry
    /// their fill.
    pub fn into_shape_vectors(self, fill_rule: FillRule, overlay_rule: OverlayRule, solver: Solver) -> (r: Vec<
        VectorShape,
    >)
        ensures
            vector_views(r@) == spec_shape_vectors(
                spec_rule_graph(self.segments@, fill_rule, overlay_rule, solver),
                overlay_rule,
            ),
    {
        let links: Vec<OverlayLink> = OverlayLinkBuilder::build_with_overlay_filter(
            self.segments,
            fill_rule,
            overlay_rule,
            solver,
        );
        let graph: OverlayGraph = OverlayGraph::new(solver, links);
        graph.extract_shape_vectors(overlay_rule)
    }

    /// Every piece of the split paths as an edge that carries its fill.
    pub fn into_separate_vectors(self, fill_rule: FillRule, solver: Solver) -> (r: Vec<VectorEdge>)
        ensures
            r@ == edges_of(
                graph_of(built_links(self.segments@, fill_rule, LinkFilter::All, solver)).0,
                graph_of(built_links(self.segments@, fill_rule, LinkFilter::All, solver)).0.len() as int,
            ),
    {
        let links: Vec<OverlayLink> = OverlayLinkBuilder::build_without_filter(self.segments, fill_rule, solver);
        let graph: OverlayGraph = OverlayGraph::new(solver, links);
        graph.extract_separate_vectors()
    }

    /// The graph of the collected paths under `fill_rule`, built with the
    /// automatic solver.
    pub fn into_graph(self, fill_rule: FillRule) -> (g: OverlayGraph)
        ensures
            g.wf(),
            g.solver == Solver::spec_auto(),
            g@ == spec_graph(self.segments@, fill_rule, Solver::spec_auto()),
    {
        self.into_graph_with_solver(fill_rule, Solver::auto())
    }

    /// The graph of the collected paths under `fill_rule`: the segments are
    /// split at their intersections, filled, and those that border the
    /// subject or the clip become the links of the graph.
    pub fn into_graph_with_solver(self, fill_rule: FillRule, solver: Solver) -> (g: OverlayGraph)
        ensures
            g.wf(),
            g.solver == solver,
            g@ == spec_graph(self.segments@, fill_rule, solver),
    {
        let links: Vec<OverlayLink> = OverlayLinkBuilder::build_with_filler_filter(self.segments, fill_rule, solver);
        OverlayGraph::new(solver, links)
    }

    /// The graph of the collected paths; the overlay can be used again.
    pub fn build_graph(&self, fill_rule: FillRule) -> (g: OverlayGraph)
        ensures
            g.wf(),
            g.solver == Solver::spec_auto(),
            g@ == spec_graph(self.segments@, fill_rule, Solver::spec_auto()),
    {
        self.build_graph_with_solver(fill_rule, Solver::auto())
    }

    /// The graph of the collected paths, built with the given solver; the
    /// overlay can be used again.
    pub fn build_graph_with_solver(&self, fill_rule: FillRule, solver: Solver) -> (g: OverlayGraph)
        ensures
            g.wf(),
            g.solver == solver,
            g@ == spec_graph(self.segments@, fill_rule, solver),
    {
        let links: Vec<OverlayLink> = OverlayLinkBuilder::build_with_filler_filter(
            self.copy_segments(),
            fill_rule,
            solver,
        );
        OverlayGraph::new(solver, links)
    }

    /// The shapes of the result of `overlay_rule`, built with the automatic
    /// solver.
    pub fn overlay(self, overlay_rule: OverlayRule, fill_rule: FillRule) -> (shapes: IntShapes)
        ensures
            shape_views(shapes@) == spec_overlay(self.segments@, overlay_rule, fill_rule, 0, Solver::spec_auto()),
            shapes_ok(shapes@, 0),
    {
        self.overlay_with_min_area_and_solver(overlay_rule, fill_rule, 0, Solver::auto())
    }

    /// The shapes of the result of `overlay_rule`, without the contours that
    /// enclose less than `min_area`.
    pub fn overlay_with_min_area_and_solver(
        self,
        overlay_rule: OverlayRule,
        fill_rule: FillRule,
        min_area: usize,
        solver: Solver,
    ) -> (shapes: IntShapes)
        ensures
            shape_views(shapes@) == spec_overlay(self.segments@, overlay_rule, fill_rule, min_area as int, solver),
            shapes_ok(shapes@, min_area as int),
    {
        let links: Vec<OverlayLink> = OverlayLinkBuilder::build_with_overlay_filter(
            self.segments,
            fill_rule,
            overlay_rule,
            solver,
        );
        let graph: OverlayGraph = OverlayGraph::new(solver, links);
        let n: usize = graph.links.len();
        let mut filter: Vec<bool> = Vec::with_capacity(n);
        let mut i: usize = 0;
        while i < n
            invariant
                i <= n,
                filter.len() == i,
                forall|k: int| 0 <= k < i ==> !(#[trigger] filter@[k]),
            decreases n - i,
        {
            filter.push(false);
            i += 1;
        }
        assert(filter@ =~= Seq::new(graph@.0.len(), |i: int| false));
        graph.extract(filter, overlay_rule, min_area)
    }
}

} // verus!

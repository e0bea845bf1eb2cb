use vstd::prelude::*;
use crate::fill::fill_rule::FillRule;
use crate::geom::contour::{IntPath, IntShape};
use crate::geom::point::IntPoint;
use crate::overlay::graph::{graph_of, OverlayGraph};
use crate::overlay::link::{built_links, LinkFilter, OverlayLink, OverlayLinkBuilder};
use crate::overlay::nest::{path_views, shape_views};
use crate::segm::builder::{append_path, path_segments};
use crate::segm::segment::Segment;
use crate::solver::Solver;
use crate::string::count::ShapeCountString;
use crate::string::graph::StringGraph;

verus! {

/// The segment of a line from `a` to `b`; none where the line has no length.
pub open spec fn line_segment(a: IntPoint, b: IntPoint) -> Seq<Segment<ShapeCountString>> {
    if a == b {
        Seq::empty()
    } else {
        seq![Segment::spec_with_ab(a, b, ShapeCountString::spec_line().0, ShapeCountString::spec_line().1)]
    }
}

/// The segments of the first `n` edges of an open path of lines.
pub open spec fn open_edges(path: Seq<IntPoint>, n: int) -> Seq<Segment<ShapeCountString>>
    decreases n,
{
    if n <= 0 {
        Seq::empty()
    } else {
        open_edges(path, n - 1) + line_segment(path[n - 1], path[n])
    }
}

/// The segments of a path of lines: one for every pair of neighbouring
/// points, and for a closed path of more than two points one more from the
/// last point back to the first.
pub open spec fn string_path_segments(path: Seq<IntPoint>, is_open: bool) -> Seq<
    Segment<ShapeCountString>,
> {
    let edges = open_edges(path, path.len() - 1);
    if !is_open && path.len() > 2 {
        edges + line_segment(path[path.len() - 1], path[0])
    } else {
        edges
    }
}

/// The segments of the first `n` paths of lines.
pub open spec fn string_paths_segments(paths: Seq<Seq<IntPoint>>, n: int, is_open: bool) -> Seq<
    Segment<ShapeCountString>,
>
    decreases n,
{
    if n <= 0 {
        Seq::empty()
    } else {
        string_paths_segments(paths, n - 1, is_open) + string_path_segments(paths[n - 1], is_open)
    }
}

/// The segments of the first `n` lines.
pub open spec fn string_lines_segments(lines: Seq<[IntPoint; 2]>, n: int) -> Seq<
    Segment<ShapeCountString>,
>
    decreases n,
{
    if n <= 0 {
        Seq::empty()
    } else {
        string_lines_segments(lines, n - 1) + line_segment(lines[n - 1]@[0], lines[n - 1]@[1])
    }
}

/// The segments of the first `n` closed paths of a body.
pub open spec fn body_paths_segments(paths: Seq<Seq<IntPoint>>, n: int) -> Seq<Segment<ShapeCountString>>
    decreases n,
{
    if n <= 0 {
        Seq::empty()
    } else {
        body_paths_segments(paths, n - 1) + path_segments(
            paths[n - 1],
            ShapeCountString::spec_body().0,
            ShapeCountString::spec_body().1,
        )
    }
}

/// The segments of the first `n` shapes of a body.
pub open spec fn body_shapes_segments(shapes: Seq<Seq<Seq<IntPoint>>>, n: int) -> Seq<Segment<ShapeCountString>>
    decreases n,
{
    if n <= 0 {
        Seq::empty()
    } else {
        body_shapes_segments(shapes, n - 1) + body_paths_segments(shapes[n - 1], shapes[n - 1].len() as int)
    }
}

/// The graph of the body and the lines under `fill_rule`: the segments are
/// split at their intersections, filled, and those that border the body or
/// carry a line become the links of the graph.
pub open spec fn spec_string_graph(segments: Seq<Segment<ShapeCountString>>, fill_rule: FillRule, solver: Solver) -> (
    Seq<OverlayLink>,
    Seq<Seq<usize>>,
) {
    graph_of(built_links(segments, fill_rule, LinkFilter::StringLines, solver))
}

/// Collects the closed paths of a body and the lines that cut or are
/// clipped by it.
#[derive(Clone, Debug)]
pub struct StringOverlay {
    pub segments: Vec<Segment<ShapeCountString>>,
}

impl StringOverlay {
    /// A string overlay without paths, with room for `capacity` segments.
    pub fn new(capacity: usize) -> (r: StringOverlay)
        ensures
            r.segments@ == Seq::<Segment<ShapeCountString>>::empty(),
    {
        StringOverlay { segments: Vec::with_capacity(capacity) }
    }

    /// Adds a closed path of the body.
    pub fn add_shape_path(&mut self, path: &[IntPoint])
        ensures
            final(self).segments@ == old(self).segments@ + path_segments(
                path@,
                ShapeCountString::spec_body().0,
                ShapeCountString::spec_body().1,
            ),
    {
        let counts: (ShapeCountString, ShapeCountString) = ShapeCountString::body();
        append_path(&mut self.segments, path, counts.0, counts.1);
    }

    /// Adds closed paths of the body.
    pub fn add_shape_paths(&mut self, paths: &[IntPath])
        ensures
            final(self).segments@ == old(self).segments@ + body_paths_segments(
                path_views(paths@),
                paths@.len() as int,
            ),
    {
        let n: usize = paths.len();
        let mut i: usize = 0;
        while i < n
            invariant
                n == paths@.len(),
                i <= n,
                self.segments@ == old(self).segments@ + body_paths_segments(path_views(paths@), i as int),
            decreases n - i,
        {
            self.add_shape_path(paths[i].as_slice());
            i += 1;
        }
    }

    /// Adds shapes of the body.
    pub fn add_shapes(&mut self, shapes: &[IntShape])
        ensures
            final(self).segments@ == old(self).segments@ + body_shapes_segments(
                shape_views(shapes@),
                shapes@.len() as int,
            ),
    {
        let n: usize = shapes.len();
        let mut i: usize = 0;
        while i < n
            invariant
                n == shapes@.len(),
                i <= n,
                self.segments@ == old(self).segments@ + body_shapes_segments(shape_views(shapes@), i as int),
            decreases n - i,
        {
            self.add_shape_paths(shapes[i].as_slice());
            i += 1;
        }
    }

    /// Adds the line from `line[0]` to `line[1]`; a line without length adds
    /// nothing.
    pub fn add_string_line(&mut self, line: [IntPoint; 2])
        ensures
            final(self).segments@ == old(self).segments@ + line_segment(line@[0], line@[1]),
    {
        let a: IntPoint = line[0];
        let b: IntPoint = line[1];
        if a != b {
            let counts: (ShapeCountString, ShapeCountString) = ShapeCountString::line();
            self.segments.push(Segment::with_ab(a, b, counts.0, counts.1));
        }
    }

    /// Adds lines.
    pub fn add_string_lines(&mut self, lines: &[[IntPoint; 2]])
        ensures
            final(self).segments@ == old(self).segments@ + string_lines_segments(
                lines@,
                lines@.len() as int,
            ),
    {
        let n: usize = lines.len();
        let mut i: usize = 0;
        while i < n
            invariant
                n == lines@.len(),
                i <= n,
                self.segments@ == old(self).segments@ + string_lines_segments(lines@, i as int),
            decreases n - i,
        {
            self.add_string_line(lines[i]);
            i += 1;
        }
    }

    /// Adds a path of lines: one line for every pair of neighbouring points,
    /// and for a path that is not open and has more than two points one more
    /// line from the last point back to the first.
    pub fn add_string_path(&mut self, path: &[IntPoint], is_open: bool)
        ensures
            final(self).segments@ == old(self).segments@ + string_path_segments(path@, is_open),
    {
        let n: usize = path.len();
        let mut i: usize = 1;
        while i < n
            invariant
                n == path@.len(),
                1 <= i,
                i <= n || n == 0,
                n == 0 ==> i == 1,
                self.segments@ == old(self).segments@ + open_edges(path@, i as int - 1),
            decreases n - i,
        {
            self.add_string_line([path[i - 1], path[i]]);
            i += 1;
        }
        let ghost edges: Seq<Segment<ShapeCountString>> = open_edges(path@, path@.len() - 1);
        proof {
            if n == 0 {
                assert(open_edges(path@, -1) == Seq::<Segment<ShapeCountString>>::empty());
                assert(open_edges(path@, 0) == Seq::<Segment<ShapeCountString>>::empty());
            }
            assert(self.segments@ == old(self).segments@ + edges);
        }
        if !is_open && n > 2 {
            self.add_string_line([path[n - 1], path[0]]);
            proof {
                let closing = line_segment(path@[n - 1], path@[0]);
                assert(self.segments@ == (old(self).segments@ + edges) + closing);
                assert((old(self).segments@ + edges) + closing == old(self).segments@ + (edges + closing));
            }
        }
    }

    /// Adds paths of lines, all open or all closed.
    pub fn add_string_paths(&mut self, paths: &[IntPath], is_open: bool)
        ensures
            final(self).segments@ == old(self).segments@ + string_paths_segments(
                path_views(paths@),
                paths@.len() as int,
                is_open,
            ),
    {
        let n: usize = paths.len();
        let mut i: usize = 0;
        while i < n
            invariant
                n == paths@.len(),
                i <= n,
                self.segments@ == old(self).segments@ + string_paths_segments(
                    path_views(paths@),
                    i as int,
                    is_open,
                ),
            decreases n - i,
        {
            self.add_string_path(paths[i].as_slice(), is_open);
            i += 1;
        }
    }

    /// The graph of the body and the lines under `fill_rule`, built with the
    /// automatic solver.
    pub fn into_graph(self, fill_rule: FillRule) -> (g: StringGraph)
        ensures
            g.graph.wf(),
            g.graph.solver == Solver::spec_auto(),
            g.graph@ == spec_string_graph(self.segments@, fill_rule, Solver::spec_auto()),
    {
        self.into_graph_with_solver(fill_rule, Solver::auto())
    }

    /// The graph of the body and the lines under `fill_rule`: the segments
    /// are split at their intersections, filled, and those that border the
    /// body or carry a line become the links of the graph.
    pub fn into_graph_with_solver(self, fill_rule: FillRule, solver: Solver) -> (g: StringGraph)
        ensures
            g.graph.wf(),
            g.graph.solver == solver,
            g.graph@ == spec_string_graph(self.segments@, fill_rule, solver),
    {
        let links: Vec<OverlayLink> = OverlayLinkBuilder::build(
            self.segments,
            fill_rule,
            LinkFilter::StringLines,
            solver,
        );
        StringGraph { graph: OverlayGraph::new(solver, links) }
    }
}

} // verus!

use vstd::prelude::*;
use crate::fill::segment_fill::SegmentFill;
use crate::geom::contour::IntShapes;
use crate::geom::point::IntPoint;
use crate::overlay::extract::{shapes_ok, spec_extract_contours, WalkState, WalkView};
use crate::overlay::link::OverlayLink;
use crate::overlay::nest::shape_views;
use crate::overlay::graph::OverlayGraph;
use crate::string::rule::StringRule;

verus! {

/// The planar graph of a string overlay.
#[derive(Debug)]
pub struct StringGraph {
    pub graph: OverlayGraph,
}

/// Whether a segment with the given fill borders the body.
pub open spec fn is_body_border(fill: SegmentFill) -> bool {
    fill.subj_top != fill.subj_bottom
}

/// Whether a segment with the given fill carries a line.
pub open spec fn is_string(fill: SegmentFill) -> bool {
    fill.clip_top || fill.clip_bottom
}

/// Whether a segment with the given fill carries a line inside the body.
pub open spec fn is_inner_string(fill: SegmentFill) -> bool {
    fill.subj_top && fill.subj_bottom && is_string(fill)
}

/// Whether a slice walks a segment with the given fill from its lesser end
/// to its greater end: as a border that has the body on its top side, or as
/// a line inside the body.
pub open spec fn slice_forward(fill: SegmentFill) -> bool {
    (is_body_border(fill) && fill.subj_top) || is_inner_string(fill)
}

/// Whether a slice walks a segment with the given fill from its greater end
/// to its lesser end: as a border that has the body on its bottom side, or
/// as a line inside the body.
pub open spec fn slice_backward(fill: SegmentFill) -> bool {
    (is_body_border(fill) && fill.subj_bottom) || is_inner_string(fill)
}

/// The directions in which a slice walks the links: a border of the body in
/// the direction that has the body on its left, a line inside the body in
/// both directions, anything else in none.
pub open spec fn spec_slice_state(links: Seq<OverlayLink>) -> WalkView {
    (
        Seq::new(links.len(), |i: int| slice_forward(links[i].fill)),
        Seq::new(links.len(), |i: int| slice_backward(links[i].fill)),
    )
}

/// The pieces into which the lines of a graph cut its body, without the
/// contours that enclose less than `min_area`.
pub open spec fn spec_slice(graph: (Seq<OverlayLink>, Seq<Seq<usize>>), min_area: int) -> Seq<Seq<Seq<IntPoint>>> {
    spec_extract_contours(graph, spec_slice_state(graph.0), min_area)
}

impl StringGraph {
    /// The directions in which a slice walks the links: a border of the body
    /// in the direction that has the body on its left, a line inside the body
    /// in both directions, anything else in none.
    pub fn slice_state(&self) -> (state: WalkState)
        ensures
            state@ == spec_slice_state(self.graph.links@),
            state.forward.len() == self.graph.links.len(),
            state.backward.len() == self.graph.links.len(),
    {
        let n: usize = self.graph.links.len();
        let mut forward: Vec<bool> = Vec::new();
        let mut backward: Vec<bool> = Vec::new();
        let mut i: usize = 0;
        while i < n
            invariant
                n == self.graph.links.len(),
                i <= n,
                forward.len() == i,
                backward.len() == i,
                forall|k: int|
                    0 <= k < i ==> (#[trigger] forward@[k]) == slice_forward(self.graph.links@[k].fill),
                forall|k: int|
                    0 <= k < i ==> (#[trigger] backward@[k]) == slice_backward(self.graph.links@[k].fill),
            decreases n - i,
        {
            let fill: SegmentFill = self.graph.links[i].fill;
            let border: bool = fill.subj_top != fill.subj_bottom;
            let inner: bool = fill.subj_top && fill.subj_bottom && (fill.clip_top || fill.clip_bottom);
            forward.push((border && fill.subj_top) || inner);
            backward.push((border && fill.subj_bottom) || inner);
            i += 1;
        }
        let state: WalkState = WalkState { forward, backward };
        proof {
            assert(state@.0 =~= spec_slice_state(self.graph.links@).0);
            assert(state@.1 =~= spec_slice_state(self.graph.links@).1);
        }
        state
    }

    /// The shapes that `string_rule` asks for.
    pub fn extract_shapes(&self, string_rule: StringRule) -> (shapes: IntShapes)
        requires
            self.graph.wf(),
        ensures
            shape_views(shapes@) == spec_slice(self.graph@, 0),
            shapes_ok(shapes@, 0),
            self.graph.links.len() == 0 ==> shapes.len() == 0,
    {
        self.extract_shapes_min_area(string_rule, 0)
    }

    /// The shapes that `string_rule` asks for, without the contours that
    /// enclose less than `min_area`. For a slice these are the pieces into
    /// which the lines cut the body: a line counts as far as it runs inside
    /// the body, and a line that ends inside the body cuts nothing.
    pub fn extract_shapes_min_area(&self, string_rule: StringRule, min_area: usize) -> (shapes: IntShapes)
        requires
            self.graph.wf(),
        ensures
            shape_views(shapes@) == spec_slice(self.graph@, min_area as int),
            shapes_ok(shapes@, min_area as int),
            self.graph.links.len() == 0 ==> shapes.len() == 0,
    {
        match string_rule {
            StringRule::Slice => {
                let state: WalkState = self.slice_state();
                self.graph.extract_contours(state, min_area)
            },
        }
    }
}

} // verus!

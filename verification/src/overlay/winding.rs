use vstd::prelude::*;
use crate::geom::point::{orient, IntPoint};
use crate::geom::x_segment::XSegment;
use crate::overlay::builder::paths_segments;
use crate::overlay::order::overlay_segments;
use crate::segm::builder::{closed_edge, closed_edges, path_segments};
use crate::segm::count::{ShapeCountBoolean, ShapeType};
use crate::segm::segment::Segment;

verus! {

/// The sum of the contributions, for the subject and for the clip, of those
/// of the first `n` segments that `keep` holds of.
pub open spec fn counted(
    segments: Seq<Segment<ShapeCountBoolean>>,
    n: int,
    keep: spec_fn(XSegment) -> bool,
) -> (int, int)
    decreases n,
{
    if n <= 0 {
        (0, 0)
    } else {
        let before = counted(segments, n - 1, keep);
        if keep(segments[n - 1].x_segment) {
            (before.0 + segments[n - 1].count.subj, before.1 + segments[n - 1].count.clip)
        } else {
            before
        }
    }
}

/// Whether a segment crosses the vertical line at `x`: it starts on the line
/// or left of it and ends right of it.
pub open spec fn crosses_line(s: XSegment, x: int) -> bool {
    s.a.x <= x < s.b.x
}

/// Holds of the segments that cross the vertical line at `x`.
pub open spec fn crossing(x: int) -> spec_fn(XSegment) -> bool {
    |s: XSegment| crosses_line(s, x)
}

/// Holds of the segments that cross the vertical line through `p` on the
/// given side of `p`: 1 for below `p`, -1 for above it, 0 for through it.
pub open spec fn passing(p: IntPoint, side: int) -> spec_fn(XSegment) -> bool {
    |s: XSegment| crosses_line(s, p.x as int) && orient(s.a, s.b, p) == side
}

/// The sum over the first `n` segments takes no other segment into account.
pub proof fn lemma_counted_prefix(
    a: Seq<Segment<ShapeCountBoolean>>,
    b: Seq<Segment<ShapeCountBoolean>>,
    n: int,
    keep: spec_fn(XSegment) -> bool,
)
    requires
        n <= a.len(),
        n <= b.len(),
        forall|i: int| 0 <= i < n ==> a[i] == b[i],
    ensures
        counted(a, n, keep) == counted(b, n, keep),
    decreases n,
{
    if n > 0 {
        lemma_counted_prefix(a, b, n - 1, keep);
    }
}

/// The sum over two lists of segments is the sum of the sums over each.
pub proof fn lemma_counted_sum(
    a: Seq<Segment<ShapeCountBoolean>>,
    b: Seq<Segment<ShapeCountBoolean>>,
    n: int,
    keep: spec_fn(XSegment) -> bool,
)
    requires
        0 <= n <= b.len(),
    ensures
        counted(a + b, a.len() + n, keep).0 == counted(a, a.len() as int, keep).0 + counted(b, n, keep).0,
        counted(a + b, a.len() + n, keep).1 == counted(a, a.len() as int, keep).1 + counted(b, n, keep).1,
    decreases n,
{
    if n > 0 {
        lemma_counted_sum(a, b, n - 1, keep);
        assert((a + b)[a.len() + n - 1] == b[n - 1]);
    } else {
        lemma_counted_prefix(a + b, a, a.len() as int, keep);
    }
}

/// Where each segment of `keep` is one of `first` or of `second` and none is
/// of both, the sum over `keep` is the sum of the sums over the two.
pub proof fn lemma_counted_parts(
    segments: Seq<Segment<ShapeCountBoolean>>,
    n: int,
    keep: spec_fn(XSegment) -> bool,
    first: spec_fn(XSegment) -> bool,
    second: spec_fn(XSegment) -> bool,
)
    requires
        n <= segments.len(),
        forall|i: int|
            0 <= i < n ==> keep(segments[i].x_segment) == (first(segments[i].x_segment) || second(
                segments[i].x_segment,
            )),
        forall|i: int| 0 <= i < n ==> !(first(segments[i].x_segment) && second(segments[i].x_segment)),
    ensures
        counted(segments, n, keep).0 == counted(segments, n, first).0 + counted(segments, n, second).0,
        counted(segments, n, keep).1 == counted(segments, n, first).1 + counted(segments, n, second).1,
    decreases n,
{
    if n > 0 {
        lemma_counted_parts(segments, n - 1, keep, first, second);
    }
}

/// 1 where `p` lies right of the vertical line at `x`, else 0.
pub open spec fn beyond(p: IntPoint, x: int) -> int {
    if p.x > x {
        1
    } else {
        0
    }
}

/// Point `i` of a closed path, the first point following the last.
pub open spec fn corner(path: Seq<IntPoint>, i: int) -> IntPoint {
    if i < path.len() {
        path[i]
    } else {
        path[0]
    }
}

/// The contributions of the first `n` edges of a closed path that cross a
/// vertical line add up to the number of sides of the line that the edges
/// have changed: what lies between the first point and point `n`.
pub proof fn lemma_edges_balance(path: Seq<IntPoint>, n: int, shape_type: ShapeType, x: int)
    requires
        0 <= n <= path.len(),
        path.len() >= 1,
    ensures
        ({
            let counts = ShapeCountBoolean::spec_with_shape_type(shape_type);
            let edges = closed_edges(path, n, counts.0, counts.1);
            let sum = counted(edges, edges.len() as int, crossing(x));
            let change = beyond(corner(path, n), x) - beyond(path[0], x);
            sum == if shape_type == ShapeType::Subject {
                (change, 0int)
            } else {
                (0int, change)
            }
        }),
    decreases n,
{
    let counts = ShapeCountBoolean::spec_with_shape_type(shape_type);
    if n > 0 {
        lemma_edges_balance(path, n - 1, shape_type, x);
        let before = closed_edges(path, n - 1, counts.0, counts.1);
        let edge = closed_edge(path, n - 1, counts.0, counts.1);
        lemma_counted_sum(before, edge, edge.len() as int, crossing(x));
        assert(corner(path, n - 1) == path[n - 1]);
        if edge.len() > 0 {
            assert(counted(edge, 0, crossing(x)) == (0int, 0int));
        }
    }
}

/// The contributions of the segments of a closed path that cross a vertical
/// line add up to nothing.
pub proof fn lemma_path_balance(path: Seq<IntPoint>, shape_type: ShapeType, x: int)
    ensures
        ({
            let counts = ShapeCountBoolean::spec_with_shape_type(shape_type);
            let segments = path_segments(path, counts.0, counts.1);
            counted(segments, segments.len() as int, crossing(x)) == (0int, 0int)
        }),
{
    if path.len() >= 2 {
        lemma_edges_balance(path, path.len() as int, shape_type, x);
    }
}

/// The contributions of the segments of closed paths that cross a vertical
/// line add up to nothing.
pub proof fn lemma_paths_balance(paths: Seq<Seq<IntPoint>>, n: int, shape_type: ShapeType, x: int)
    requires
        n <= paths.len(),
    ensures
        ({
            let segments = paths_segments(paths, n, shape_type);
            counted(segments, segments.len() as int, crossing(x)) == (0int, 0int)
        }),
    decreases n,
{
    if n > 0 {
        let counts = ShapeCountBoolean::spec_with_shape_type(shape_type);
        lemma_paths_balance(paths, n - 1, shape_type, x);
        lemma_path_balance(paths[n - 1], shape_type, x);
        let last = path_segments(paths[n - 1], counts.0, counts.1);
        lemma_counted_sum(paths_segments(paths, n - 1, shape_type), last, last.len() as int, crossing(x));
    }
}

/// Winding is conserved along every vertical line: of the segments of closed
/// subject paths and closed clip paths, those that cross the line add
/// nothing to the winding state between them, so that the state is the same
/// far below all of them and far above.
pub proof fn lemma_line_balance(subject: Seq<Seq<IntPoint>>, clip: Seq<Seq<IntPoint>>, x: int)
    ensures
        ({
            let segments = overlay_segments(subject, clip);
            counted(segments, segments.len() as int, crossing(x)) == (0int, 0int)
        }),
{
    let s = paths_segments(subject, subject.len() as int, ShapeType::Subject);
    let c = paths_segments(clip, clip.len() as int, ShapeType::Clip);
    lemma_paths_balance(subject, subject.len() as int, ShapeType::Subject, x);
    lemma_paths_balance(clip, clip.len() as int, ShapeType::Clip, x);
    lemma_counted_sum(s, c, c.len() as int, crossing(x));
}

/// Winding conservation at a point: for closed subject paths and closed clip
/// paths and a point that none of their segments passes through, the
/// contributions of the segments that pass below the point and those of the
/// segments that pass above it are opposite. The winding number of the paths
/// round the point is the same whether it is counted upwards from below or
/// downwards from above.
pub proof fn lemma_winding_conservation(subject: Seq<Seq<IntPoint>>, clip: Seq<Seq<IntPoint>>, p: IntPoint)
    requires
        ({
            let segments = overlay_segments(subject, clip);
            forall|i: int| 0 <= i < segments.len() ==> !passing(p, 0)(#[trigger] segments[i].x_segment)
        }),
    ensures
        ({
            let segments = overlay_segments(subject, clip);
            let below = counted(segments, segments.len() as int, passing(p, 1));
            let above = counted(segments, segments.len() as int, passing(p, -1));
            below.0 + above.0 == 0 && below.1 + above.1 == 0
        }),
{
    let segments = overlay_segments(subject, clip);
    lemma_line_balance(subject, clip, p.x as int);
    assert forall|i: int| 0 <= i < segments.len() implies crossing(p.x as int)(segments[i].x_segment) == (passing(
        p,
        1,
    )(segments[i].x_segment) || passing(p, -1)(segments[i].x_segment)) by {
        assert(!passing(p, 0)(segments[i].x_segment));
    }
    lemma_counted_parts(segments, segments.len() as int, crossing(p.x as int), passing(p, 1), passing(p, -1));
}

} // verus!

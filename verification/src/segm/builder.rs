use vstd::prelude::*;
use crate::geom::point::IntPoint;
use crate::segm::count::WindingCount;
use crate::segm::segment::{all_wf, Segment};

verus! {

/// The segment of the edge that leaves point `i` of a closed path; none where
/// the edge has no length.
pub open spec fn closed_edge<C: WindingCount>(path: Seq<IntPoint>, i: int, direct: C, invert: C) -> Seq<
    Segment<C>,
> {
    let first = path[i];
    let second = if i + 1 < path.len() {
        path[i + 1]
    } else {
        path[0]
    };
    if first == second {
        Seq::empty()
    } else {
        seq![Segment::spec_with_ab(first, second, direct, invert)]
    }
}

/// The segments of the first `n` edges of a closed path.
pub open spec fn closed_edges<C: WindingCount>(path: Seq<IntPoint>, n: int, direct: C, invert: C) -> Seq<
    Segment<C>,
>
    decreases n,
{
    if n <= 0 {
        Seq::empty()
    } else {
        closed_edges(path, n - 1, direct, invert) + closed_edge(path, n - 1, direct, invert)
    }
}

/// The segments of a closed path: one for each edge that has a length, the
/// edge from the last point back to the first included. A path of fewer than
/// two points has none.
pub open spec fn path_segments<C: WindingCount>(path: Seq<IntPoint>, direct: C, invert: C) -> Seq<
    Segment<C>,
> {
    if path.len() < 2 {
        Seq::empty()
    } else {
        closed_edges(path, path.len() as int, direct, invert)
    }
}

/// Every segment of a path is well formed.
pub proof fn lemma_closed_edges_wf<C: WindingCount>(path: Seq<IntPoint>, n: int, direct: C, invert: C)
    requires
        n <= path.len(),
    ensures
        all_wf(closed_edges(path, n, direct, invert)),
    decreases n,
{
    if n > 0 {
        lemma_closed_edges_wf(path, n - 1, direct, invert);
    }
}

/// Appends the segments of a closed path to `segments`.
pub fn append_path<C: WindingCount>(segments: &mut Vec<Segment<C>>, path: &[IntPoint], direct: C, invert: C)
    ensures
        final(segments)@ == old(segments)@ + path_segments(path@, direct, invert),
{
    let n: usize = path.len();
    if n < 2 {
        return ;
    }
    let mut i: usize = 0;
    while i < n
        invariant
            n == path.len(),
            n >= 2,
            i <= n,
            segments@ == old(segments)@ + closed_edges(path@, i as int, direct, invert),
        decreases n - i,
    {
        let first: IntPoint = path[i];
        let second: IntPoint = if i + 1 < n {
            path[i + 1]
        } else {
            path[0]
        };
        if first != second {
            segments.push(Segment::with_ab(first, second, direct, invert));
        }
        i += 1;
    }
}

} // verus!

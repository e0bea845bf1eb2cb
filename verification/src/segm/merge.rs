use vstd::prelude::*;
use crate::segm::count::WindingCount;
use crate::segm::segment::Segment;

verus! {

/// The first `n` segments of `s` with each run of coinciding neighbours
/// replaced by one segment that carries their joint contribution. The last
/// entry is the run still open; runs whose joint contribution is empty are
/// dropped once closed.
pub open spec fn merged_prefix<C: WindingCount>(s: Seq<Segment<C>>, n: int) -> (Seq<Segment<C>>, Option<Segment<C>>)
    decreases n,
{
    if n <= 0 {
        (Seq::empty(), None)
    } else {
        let (done, open) = merged_prefix(s, n - 1);
        let next = s[n - 1];
        match open {
            None => (done, Some(next)),
            Some(cur) => if cur.x_segment == next.x_segment {
                (
                    done,
                    Some(Segment { x_segment: cur.x_segment, count: cur.count.spec_combine(next.count) }),
                )
            } else if cur.count.spec_is_not_empty() {
                (done.push(cur), Some(next))
            } else {
                (done, Some(next))
            },
        }
    }
}

/// The segments of `s` with coinciding neighbours merged and empty ones
/// dropped.
pub open spec fn merged<C: WindingCount>(s: Seq<Segment<C>>) -> Seq<Segment<C>> {
    let (done, open) = merged_prefix(s, s.len() as int);
    match open {
        Some(cur) => if cur.count.spec_is_not_empty() {
            done.push(cur)
        } else {
            done
        },
        None => done,
    }
}

/// Merges coinciding neighbours of a list of segments and drops the segments
/// whose contribution is empty.
pub fn merge_if_needed<C: WindingCount>(segments: Vec<Segment<C>>) -> (r: Vec<Segment<C>>)
    ensures
        r@ == merged(segments@),
{
    let n: usize = segments.len();
    let mut result: Vec<Segment<C>> = Vec::new();
    if n == 0 {
        return result;
    }
    let mut cur: Segment<C> = segments[0];
    let mut i: usize = 1;
    proof {
        assert(merged_prefix(segments@, 0) == (Seq::<Segment<C>>::empty(), None::<Segment<C>>));
    }
    while i < n
        invariant
            n == segments.len(),
            1 <= i <= n,
            merged_prefix(segments@, i as int) == (result@, Some(cur)),
        decreases n - i,
    {
        let next: Segment<C> = segments[i];
        if cur.x_segment == next.x_segment {
            cur = Segment { x_segment: cur.x_segment, count: cur.count.combine(next.count) };
        } else {
            if cur.count.is_not_empty() {
                result.push(cur);
            }
            cur = next;
        }
        i += 1;
    }
    if cur.count.is_not_empty() {
        result.push(cur);
    }
    result
}

} // verus!

use vstd::prelude::*;
use crate::fill::fill_rule::FillRule;
use crate::fill::segment_fill::SegmentFill;
use crate::geom::point::{area_two, area_two_of, IntPoint};
use crate::geom::x_segment::XSegment;
use crate::segm::count::WindingCount;
use crate::segm::segment::Segment;

verus! {

/// A segment that the sweep has passed the start of, with the winding state
/// above it.
#[derive(Clone, Copy, Debug)]
pub struct CountSegment<C> {
    pub count: C,
    pub x_segment: XSegment,
}

/// Whether `fill` is what the contribution `count` makes of some winding
/// state below the segment.
pub open spec fn fill_agrees<C: WindingCount>(count: C, fill: SegmentFill, fill_rule: FillRule) -> bool {
    exists|bottom: C| fill == (#[trigger] count.spec_fill(bottom, fill_rule)).1
}

/// Whether each of the first `n` fills is what the contribution of its
/// segment makes of some winding state below the segment.
pub open spec fn fills_agree<C: WindingCount>(
    segments: Seq<Segment<C>>,
    fills: Seq<SegmentFill>,
    fill_rule: FillRule,
    n: int,
) -> bool {
    forall|i: int| 0 <= i < n ==> fill_agrees(segments[i].count, #[trigger] fills[i], fill_rule)
}

/// The list without entry `i`: the last entry takes its place.
pub open spec fn swap_removed<T>(list: Seq<T>, i: int) -> Seq<T> {
    list.update(i, list.last()).drop_last()
}

/// The better of the candidate `best` and entry `i` of the scan list as the
/// nearest segment below `p`: entry `i` is taken where it passes below `p`
/// and there is no candidate yet or the candidate lies below it.
pub open spec fn nearer_under<C>(scan: Seq<CountSegment<C>>, i: int, best: Option<int>, p: IntPoint) -> Option<int> {
    if scan[i].x_segment.spec_is_under_point(p) {
        match best {
            None => Some(i),
            Some(j) => if scan[j].x_segment.spec_is_under_segment(scan[i].x_segment) {
                Some(i)
            } else {
                best
            },
        }
    } else {
        best
    }
}

/// The scan list and the nearest segment below `p` once the entries from
/// `i` on are looked through: an entry that ends at or before the first
/// coordinate of `p` is dropped.
pub open spec fn scanned<C>(scan: Seq<CountSegment<C>>, i: int, best: Option<int>, p: IntPoint) -> (
    Seq<CountSegment<C>>,
    Option<int>,
)
    decreases scan.len() - i,
{
    if i < 0 || i >= scan.len() {
        (scan, best)
    } else if scan[i].x_segment.b.x <= p.x {
        scanned(swap_removed(scan, i), i, best, p)
    } else {
        scanned(scan, i + 1, nearer_under(scan, i, best, p), p)
    }
}

/// The winding state just below `p`: that above the nearest segment below
/// `p`, or the state where no shape is.
pub open spec fn state_under<C: WindingCount>(scan: Seq<CountSegment<C>>, p: IntPoint) -> C {
    let r = scanned(scan, 0, None, p);
    match r.1 {
        Some(j) => r.0[j].count,
        None => C::spec_zero(),
    }
}

/// The order after position `j` has sunk to its place: it changes places
/// with the position before it while the segment of that position turns
/// clockwise to reach its own.
pub open spec fn sunk<C>(segments: Seq<Segment<C>>, order: Seq<usize>, j: int) -> Seq<usize>
    decreases j,
{
    if j <= 0 || j >= order.len() {
        order
    } else {
        let left = order[j - 1];
        let right = order[j];
        if area_two(
            segments[left as int].x_segment.a,
            segments[left as int].x_segment.b,
            segments[right as int].x_segment.b,
        ) >= 0 {
            order
        } else {
            sunk(segments, order.update(j - 1, right).update(j, left), j - 1)
        }
    }
}

/// The order after the positions from `i` on have sunk to their places, one
/// after the other.
pub open spec fn by_angle_from<C>(segments: Seq<Segment<C>>, order: Seq<usize>, i: int, n: int) -> Seq<usize>
    decreases n - i,
{
    if i < 1 || i >= n {
        order
    } else {
        by_angle_from(segments, sunk(segments, order, i), i + 1, n)
    }
}

/// The positions `order`, which name segments that start at one point, in
/// the order in which the segments turn counter-clockwise from one to the
/// next.
pub open spec fn by_angle<C>(segments: Seq<Segment<C>>, order: Seq<usize>) -> Seq<usize> {
    by_angle_from(segments, order, 1, order.len() as int)
}

/// The end of the run of segments from `e` on that start at `p`.
pub open spec fn group_end<C>(segments: Seq<Segment<C>>, e: int, p: IntPoint) -> int
    decreases segments.len() - e,
{
    if 0 <= e < segments.len() && segments[e].x_segment.a == p {
        group_end(segments, e + 1, p)
    } else {
        e
    }
}

/// The positions from `i` up to `e`.
pub open spec fn positions(i: int, e: int) -> Seq<usize> {
    Seq::new((e - i) as nat, |k: int| (i + k) as usize)
}

/// The fills and the scan list after the segments at the positions of `order`
/// from `t` on are filled, one above the other, above the winding state
/// `sum`. A segment that is not vertical joins the scan list.
pub open spec fn stacked<C: WindingCount>(
    fill_rule: FillRule,
    segments: Seq<Segment<C>>,
    order: Seq<usize>,
    t: int,
    sum: C,
    fills: Seq<SegmentFill>,
    scan: Seq<CountSegment<C>>,
) -> (Seq<SegmentFill>, Seq<CountSegment<C>>)
    decreases order.len() - t,
{
    if t < 0 || t >= order.len() {
        (fills, scan)
    } else {
        let segment = segments[order[t] as int];
        let r = segment.count.spec_fill(sum, fill_rule);
        stacked(
            fill_rule,
            segments,
            order,
            t + 1,
            r.0,
            fills.update(order[t] as int, r.1),
            if segment.x_segment.spec_is_vertical() {
                scan
            } else {
                scan.push(CountSegment { count: r.0, x_segment: segment.x_segment })
            },
        )
    }
}

/// The fills once the sweep has passed the segments from `i` on.
pub open spec fn swept<C: WindingCount>(
    fill_rule: FillRule,
    segments: Seq<Segment<C>>,
    i: int,
    fills: Seq<SegmentFill>,
    scan: Seq<CountSegment<C>>,
) -> Seq<SegmentFill>
    decreases segments.len() - i,
{
    if i < 0 || i >= segments.len() {
        fills
    } else {
        let p = segments[i].x_segment.a;
        let e = group_end(segments, i + 1, p);
        if e <= i || e > segments.len() {
            fills
        } else {
            let order = by_angle(segments, positions(i, e));
            let under = scanned(scan, 0, None, p);
            let r = stacked(fill_rule, segments, order, 0, state_under(scan, p), fills, under.0);
            swept(fill_rule, segments, e, r.0, r.1)
        }
    }
}

/// The fills with which the sweep starts: every segment as if it lay above
/// the state where no shape is.
pub open spec fn first_fills<C: WindingCount>(fill_rule: FillRule, segments: Seq<Segment<C>>) -> Seq<
    SegmentFill,
> {
    Seq::new(segments.len(), |i: int| segments[i].count.spec_fill(C::spec_zero(), fill_rule).1)
}

/// The fill of every segment of a working set.
///
/// The sweep takes the segments in order. The segments that start at one
/// point are taken counter-clockwise: the first lies above the winding state
/// that the sweep finds below the point, every other above the state on top
/// of the one before it.
pub open spec fn spec_fills<C: WindingCount>(fill_rule: FillRule, segments: Seq<Segment<C>>) -> Seq<
    SegmentFill,
> {
    swept(fill_rule, segments, 0, first_fills(fill_rule, segments), Seq::empty())
}

/// Computes the winding state on both sides of every segment by a sweep
/// from left to right.
pub struct FillSolver;

impl FillSolver {
    /// Drops the entries that end at or before the first coordinate of `p`,
    /// and returns the winding state above the nearest of the others that
    /// pass below `p`; the state where no shape is, if none does.
    fn find_under_and_nearest<C: WindingCount>(scan: &mut Vec<CountSegment<C>>, p: IntPoint) -> (r: C)
        ensures
            final(scan)@ == scanned(old(scan)@, 0, None, p).0,
            r == state_under(old(scan)@, p),
    {
        let mut i: usize = 0;
        let mut best: Option<usize> = None;
        let ghost mut best_int: Option<int> = None;
        while i < scan.len()
            invariant
                i <= scan.len(),
                best matches Some(j) ==> j < i,
                best_int == (match best {
                    Some(j) => Some(j as int),
                    None => None,
                }),
                scanned(scan@, i as int, best_int, p) == scanned(old(scan)@, 0, None, p),
            decreases scan.len() - i,
        {
            if scan[i].x_segment.b.x <= p.x {
                scan.swap_remove(i);
            } else {
                if scan[i].x_segment.is_under_point(p) {
                    match best {
                        None => {
                            best = Some(i);
                        },
                        Some(j) => {
                            if scan[j].x_segment.is_under_segment(&scan[i].x_segment) {
                                best = Some(i);
                            }
                        },
                    }
                }
                proof {
                    best_int = match best {
                        Some(j) => Some(j as int),
                        None => None,
                    };
                }
                i += 1;
            }
        }
        match best {
            Some(j) => scan[j].count,
            None => C::zero(),
        }
    }

    /// Sorts the positions `order`, which name segments that start at one
    /// point, so that the segments turn counter-clockwise from one to the
    /// next.
    fn sort_by_angle<C: WindingCount>(segments: &Vec<Segment<C>>, order: &mut Vec<usize>)
        requires
            forall|k: int| 0 <= k < old(order).len() ==> (#[trigger] old(order)@[k]) < segments.len(),
        ensures
            final(order)@ == by_angle(segments@, old(order)@),
            final(order).len() == old(order).len(),
            forall|k: int| 0 <= k < final(order).len() ==> (#[trigger] final(order)@[k]) < segments.len(),
    {
        let n: usize = order.len();
        let mut i: usize = 1;
        while i < n
            invariant
                n == order.len(),
                1 <= i,
                forall|k: int| 0 <= k < order.len() ==> (#[trigger] order@[k]) < segments.len(),
                by_angle_from(segments@, order@, i as int, n as int) == by_angle(segments@, old(order)@),
            decreases n - i,
        {
            let mut j: usize = i;
            let mut done: bool = false;
            while !done && j > 0
                invariant
                    n == order.len(),
                    j <= i < n,
                    forall|k: int| 0 <= k < order.len() ==> (#[trigger] order@[k]) < segments.len(),
                    done ==> by_angle_from(segments@, order@, i as int + 1, n as int) == by_angle(
                        segments@,
                        old(order)@,
                    ),
                    !done ==> by_angle_from(segments@, sunk(segments@, order@, j as int), i as int + 1, n as int)
                        == by_angle(segments@, old(order)@),
                decreases j + (if done { 0int } else { 1int }),
            {
                let left: usize = order[j - 1];
                let right: usize = order[j];
                let origin: IntPoint = segments[left].x_segment.a;
                let turn: i128 = area_two_of(origin, segments[left].x_segment.b, segments[right].x_segment.b);
                if turn >= 0 {
                    done = true;
                } else {
                    order[j - 1] = right;
                    order[j] = left;
                    j -= 1;
                }
            }
            i += 1;
        }
    }

    /// Fills the segments at the positions of `order`, one above the other,
    /// above the winding state `sum`.
    fn stack<C: WindingCount>(
        fill_rule: FillRule,
        segments: &Vec<Segment<C>>,
        order: &Vec<usize>,
        sum: C,
        fills: &mut Vec<SegmentFill>,
        scan: &mut Vec<CountSegment<C>>,
    )
        requires
            old(fills).len() == segments.len(),
            forall|k: int| 0 <= k < order.len() ==> (#[trigger] order@[k]) < segments.len(),
            fills_agree(segments@, old(fills)@, fill_rule, segments.len() as int),
        ensures
            final(fills).len() == segments.len(),
            fills_agree(segments@, final(fills)@, fill_rule, segments.len() as int),
            (final(fills)@, final(scan)@) == stacked(
                fill_rule,
                segments@,
                order@,
                0,
                sum,
                old(fills)@,
                old(scan)@,
            ),
    {
        let n: usize = segments.len();
        let count: usize = order.len();
        let mut above: C = sum;
        let mut t: usize = 0;
        while t < count
            invariant
                n == segments.len(),
                fills.len() == n,
                count == order.len(),
                t <= count,
                forall|k: int| 0 <= k < order.len() ==> (#[trigger] order@[k]) < n,
                fills_agree(segments@, fills@, fill_rule, n as int),
                stacked(fill_rule, segments@, order@, t as int, above, fills@, scan@) == stacked(
                    fill_rule,
                    segments@,
                    order@,
                    0,
                    sum,
                    old(fills)@,
                    old(scan)@,
                ),
            decreases count - t,
        {
            let index: usize = order[t];
            let segment: Segment<C> = segments[index];
            let (top, fill): (C, SegmentFill) = segment.count.fill(above, fill_rule);
            let ghost before: Seq<SegmentFill> = fills@;
            fills[index] = fill;
            proof {
                assert forall|q: int| 0 <= q < n implies fill_agrees(
                    segments@[q].count,
                    #[trigger] fills@[q],
                    fill_rule,
                ) by {
                    if q == index {
                        assert(fills@[q] == segments@[q].count.spec_fill(above, fill_rule).1);
                    } else {
                        assert(fills@[q] == before[q]);
                    }
                }
            }
            above = top;
            if !segment.x_segment.is_vertical() {
                scan.push(CountSegment { count: above, x_segment: segment.x_segment });
            }
            t += 1;
        }
    }

    /// The fill of every segment of a working set that is sorted and fully
    /// split; see `spec_fills`.
    pub fn fill<C: WindingCount>(fill_rule: FillRule, segments: &Vec<Segment<C>>) -> (fills: Vec<SegmentFill>)
        ensures
            fills@ == spec_fills(fill_rule, segments@),
            fills.len() == segments.len(),
            fills_agree(segments@, fills@, fill_rule, segments.len() as int),
    {
        let n: usize = segments.len();
        let mut fills: Vec<SegmentFill> = Vec::new();
        let mut k: usize = 0;
        while k < n
            invariant
                k <= n,
                fills.len() == k,
                n == segments.len(),
                forall|i: int|
                    0 <= i < k ==> (#[trigger] fills@[i]) == segments@[i].count.spec_fill(
                        C::spec_zero(),
                        fill_rule,
                    ).1,
            decreases n - k,
        {
            let first: (C, SegmentFill) = segments[k].count.fill(C::zero(), fill_rule);
            fills.push(first.1);
            k += 1;
        }
        assert(fills@ =~= first_fills(fill_rule, segments@));
        assert(fills_agree(segments@, fills@, fill_rule, n as int)) by {
            assert forall|i: int| 0 <= i < n implies fill_agrees(
                segments@[i].count,
                #[trigger] fills@[i],
                fill_rule,
            ) by {
                assert(fills@[i] == segments@[i].count.spec_fill(C::spec_zero(), fill_rule).1);
            }
        }
        let mut scan: Vec<CountSegment<C>> = Vec::new();
        let mut order: Vec<usize> = Vec::new();
        let mut i: usize = 0;
        while i < n
            invariant
                n == segments.len(),
                i <= n,
                fills.len() == n,
                fills_agree(segments@, fills@, fill_rule, n as int),
                swept(fill_rule, segments@, i as int, fills@, scan@) == spec_fills(fill_rule, segments@),
            decreases n - i,
        {
            let p: IntPoint = segments[i].x_segment.a;
            order.clear();
            order.push(i);
            let mut e: usize = i + 1;
            while e < n && segments[e].x_segment.a == p
                invariant
                    n == segments.len(),
                    i < e <= n,
                    order@ == positions(i as int, e as int),
                    group_end(segments@, e as int, p) == group_end(segments@, i as int + 1, p),
                decreases n - e,
            {
                order.push(e);
                e += 1;
            }
            if order.len() > 1 {
                Self::sort_by_angle(segments, &mut order);
            } else {
                assert(by_angle(segments@, order@) == order@);
            }
            let sum: C = Self::find_under_and_nearest(&mut scan, p);
            Self::stack(fill_rule, segments, &order, sum, &mut fills, &mut scan);
            i = e;
        }
        fills
    }
}

} // verus!

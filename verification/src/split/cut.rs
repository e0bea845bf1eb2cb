use vstd::prelude::*;
use crate::geom::point::IntPoint;
use crate::geom::x_segment::XSegment;
use crate::segm::count::WindingCount;
use crate::segm::segment::Segment;
use crate::sort::{KeyInts, KeyValue, Keyed};
use crate::split::line_mark::LineMark;

verus! {

/// A mark prepared for sorting: by segment, then along the segment.
#[derive(Clone, Copy, Debug, PartialEq, Eq, Structural)]
pub struct CutMark {
    pub index: usize,
    /// The second coordinate of the point, negated where the segment
    /// descends, so that marks of one segment sort from its lesser end to its
    /// greater end.
    pub along: i64,
    pub point: IntPoint,
}

impl CutMark {
    /// The cut that the mark `m` asks of the segment `s`.
    pub open spec fn spec_new(m: LineMark, s: XSegment) -> CutMark {
        CutMark {
            index: m.index,
            along: if s.a.y <= s.b.y {
                m.point.y as i64
            } else {
                (-m.point.y) as i64
            },
            point: m.point,
        }
    }

    /// The cut that the mark `m` asks of the segment `s`.
    pub fn new(m: LineMark, s: XSegment) -> (r: CutMark)
        ensures
            r == Self::spec_new(m, s),
    {
        CutMark {
            index: m.index,
            along: if s.a.y <= s.b.y {
                m.point.y as i64
            } else {
                -(m.point.y as i64)
            },
            point: m.point,
        }
    }
}

impl Keyed for CutMark {
    open spec fn spec_key(&self) -> KeyInts {
        (self.index as int, self.point.x as int, self.along as int, self.point.y as int, 0, 0, 0, 0, 0)
    }

    fn key(&self) -> (k: KeyValue) {
        (self.index as i128, self.point.x as i128, self.along as i128, self.point.y as i128, 0, 0, 0, 0, 0)
    }

    proof fn lemma_key_injective(&self, other: &Self) {
    }
}

/// The cuts of the first `k` marks; marks that name no segment are left out.
pub open spec fn cut_marks<C: WindingCount>(marks: Seq<LineMark>, segments: Seq<Segment<C>>, k: int) -> Seq<
    CutMark,
>
    decreases k,
{
    if k <= 0 {
        Seq::empty()
    } else {
        let prev = cut_marks(marks, segments, k - 1);
        let m = marks[k - 1];
        if m.index < segments.len() {
            prev.push(CutMark::spec_new(m, segments[m.index as int].x_segment))
        } else {
            prev
        }
    }
}

/// The piece from `a` to `b`; none where it has no length.
pub open spec fn piece<C: WindingCount>(a: IntPoint, b: IntPoint, count: C) -> Seq<Segment<C>> {
    if a == b {
        Seq::empty()
    } else {
        seq![Segment::spec_create_and_validate(a, b, count)]
    }
}

/// The pieces of a segment that runs from `from` to `to` and is cut at the
/// points of `cuts[k..e]`, in that order.
pub open spec fn chain<C: WindingCount>(
    from: IntPoint,
    cuts: Seq<CutMark>,
    k: int,
    e: int,
    to: IntPoint,
    count: C,
) -> Seq<Segment<C>>
    decreases e - k,
{
    if k >= e {
        piece(from, to, count)
    } else {
        piece(from, cuts[k].point, count) + chain(cuts[k].point, cuts, k + 1, e, to, count)
    }
}

/// The first position from `k` on whose cut names a segment from `index` on.
pub open spec fn skip_to(cuts: Seq<CutMark>, k: int, index: int) -> int
    decreases cuts.len() - k,
{
    if 0 <= k < cuts.len() && cuts[k].index < index {
        skip_to(cuts, k + 1, index)
    } else {
        k
    }
}

/// The end of the run of cuts that starts at `k` and names segment `index`.
pub open spec fn run_end(cuts: Seq<CutMark>, k: int, index: int) -> int
    decreases cuts.len() - k,
{
    if 0 <= k < cuts.len() && cuts[k].index == index {
        run_end(cuts, k + 1, index)
    } else {
        k
    }
}

/// The pieces of the segments from `i` on, cut at the cuts from `k` on. The
/// cuts are taken in order: those of one segment form one run.
pub open spec fn cut_from<C: WindingCount>(segments: Seq<Segment<C>>, cuts: Seq<CutMark>, i: int, k: int) -> Seq<
    Segment<C>,
>
    decreases segments.len() - i,
{
    if i < 0 || i >= segments.len() {
        Seq::empty()
    } else {
        let k0 = skip_to(cuts, k, i);
        let k1 = run_end(cuts, k0, i);
        let s = segments[i];
        chain(s.x_segment.a, cuts, k0, k1, s.x_segment.b, s.count) + cut_from(segments, cuts, i + 1, k1)
    }
}

/// The positions that `skip_to` and `run_end` give lie between the start and
/// the end of the cuts.
pub proof fn lemma_positions(cuts: Seq<CutMark>, k: int, index: int)
    requires
        0 <= k <= cuts.len(),
    ensures
        k <= skip_to(cuts, k, index) <= cuts.len(),
        k <= run_end(cuts, k, index) <= cuts.len(),
    decreases cuts.len() - k,
{
    if k < cuts.len() {
        lemma_positions(cuts, k + 1, index);
    }
}

/// Turns marks into cuts that sort along their segments.
pub fn to_cuts<C: WindingCount>(marks: &Vec<LineMark>, segments: &Vec<Segment<C>>) -> (cuts: Vec<CutMark>)
    ensures
        cuts@ == cut_marks(marks@, segments@, marks.len() as int),
{
    let mut cuts: Vec<CutMark> = Vec::new();
    let n: usize = marks.len();
    let mut k: usize = 0;
    while k < n
        invariant
            n == marks.len(),
            k <= n,
            cuts@ == cut_marks(marks@, segments@, k as int),
        decreases n - k,
    {
        let m: LineMark = marks[k];
        if m.index < segments.len() {
            cuts.push(CutMark::new(m, segments[m.index].x_segment));
        }
        k += 1;
    }
    cuts
}

/// Appends the piece from `a` to `b` to `out` unless it has no length.
fn push_piece<C: WindingCount>(out: &mut Vec<Segment<C>>, a: IntPoint, b: IntPoint, count: C)
    ensures
        final(out)@ == old(out)@ + piece(a, b, count),
{
    if a != b {
        out.push(Segment::create_and_validate(a, b, count));
    }
}

/// Cuts every segment at its cuts.
pub fn cut_segments<C: WindingCount>(segments: &Vec<Segment<C>>, cuts: &Vec<CutMark>) -> (out: Vec<Segment<C>>)
    ensures
        out@ == cut_from(segments@, cuts@, 0, 0),
{
    let mut out: Vec<Segment<C>> = Vec::new();
    let n: usize = segments.len();
    let m: usize = cuts.len();
    let mut i: usize = 0;
    let mut k: usize = 0;
    while i < n
        invariant
            n == segments.len(),
            m == cuts.len(),
            i <= n,
            k <= m,
            out@ + cut_from(segments@, cuts@, i as int, k as int) == cut_from(segments@, cuts@, 0, 0),
        decreases n - i,
    {
        let ghost k_in: int = k as int;
        while k < m && cuts[k].index < i
            invariant
                m == cuts.len(),
                k <= m,
                skip_to(cuts@, k as int, i as int) == skip_to(cuts@, k_in, i as int),
            decreases m - k,
        {
            k += 1;
        }
        let ghost k0: int = k as int;
        let s: Segment<C> = segments[i];
        let mut from: IntPoint = s.x_segment.a;
        let ghost before: Seq<Segment<C>> = out@;
        proof {
            lemma_positions(cuts@, k0, i as int);
        }
        while k < m && cuts[k].index == i
            invariant
                m == cuts.len(),
                k0 <= k <= m,
                run_end(cuts@, k as int, i as int) == run_end(cuts@, k0, i as int),
                run_end(cuts@, k0, i as int) <= m,
                out@ + chain(from, cuts@, k as int, run_end(cuts@, k0, i as int), s.x_segment.b, s.count)
                    == before + chain(
                    s.x_segment.a,
                    cuts@,
                    k0,
                    run_end(cuts@, k0, i as int),
                    s.x_segment.b,
                    s.count,
                ),
            decreases m - k,
        {
            let p: IntPoint = cuts[k].point;
            proof {
                lemma_positions(cuts@, k as int + 1, i as int);
            }
            push_piece(&mut out, from, p, s.count);
            from = p;
            k += 1;
        }
        push_piece(&mut out, from, s.x_segment.b, s.count);
        i += 1;
    }
    out
}

} // verus!

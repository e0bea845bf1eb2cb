use vstd::prelude::*;
use crate::geom::point::IntPoint;
use crate::geom::x_segment::XSegment;
use crate::segm::count::WindingCount;
use crate::sort::{KeyInts, KeyValue, Keyed};

verus! {

/// A segment together with its winding contribution.
#[derive(Clone, Copy, Debug)]
pub struct Segment<C> {
    pub x_segment: XSegment,
    pub count: C,
}

impl<C: WindingCount> Segment<C> {
    /// The segment between `first` and `second` in canonical orientation: it gets
    /// `direct` if `first` is the lesser end and `invert` otherwise.
    pub open spec fn spec_with_ab(first: IntPoint, second: IntPoint, direct: C, invert: C) -> Segment<C> {
        if first.spec_less(second) {
            Segment { x_segment: XSegment { a: first, b: second }, count: direct }
        } else {
            Segment { x_segment: XSegment { a: second, b: first }, count: invert }
        }
    }

    /// The segment between `first` and `second` in canonical orientation.
    pub fn with_ab(first: IntPoint, second: IntPoint, direct: C, invert: C) -> (s: Segment<C>)
        ensures
            s == Self::spec_with_ab(first, second, direct, invert),
            first != second ==> s.x_segment.wf(),
    {
        if first.less(&second) {
            Segment { x_segment: XSegment { a: first, b: second }, count: direct }
        } else {
            Segment { x_segment: XSegment { a: second, b: first }, count: invert }
        }
    }

    /// The piece from `a` to `b` of a segment with contribution `count`: where
    /// the ends come in the other order the piece is turned round and its
    /// contribution inverted.
    pub open spec fn spec_create_and_validate(a: IntPoint, b: IntPoint, count: C) -> Segment<C> {
        Self::spec_with_ab(a, b, count, count.spec_invert())
    }

    /// The piece from `a` to `b` of a segment with contribution `count`.
    pub fn create_and_validate(a: IntPoint, b: IntPoint, count: C) -> (s: Segment<C>)
        ensures
            s == Self::spec_create_and_validate(a, b, count),
            a != b ==> s.x_segment.wf(),
    {
        if a.less(&b) {
            Segment { x_segment: XSegment { a, b }, count }
        } else {
            Segment { x_segment: XSegment { a: b, b: a }, count: count.invert() }
        }
    }
}

impl<C: WindingCount> Keyed for Segment<C> {
    open spec fn spec_key(&self) -> KeyInts {
        (
            self.x_segment.a.x as int,
            self.x_segment.a.y as int,
            self.x_segment.b.x as int,
            self.x_segment.b.y as int,
            self.count.spec_code().0,
            self.count.spec_code().1,
            0,
            0,
            0,
        )
    }

    fn key(&self) -> (k: KeyValue) {
        let c: (i64, i64) = self.count.code();
        (
            self.x_segment.a.x as i128,
            self.x_segment.a.y as i128,
            self.x_segment.b.x as i128,
            self.x_segment.b.y as i128,
            c.0 as i128,
            c.1 as i128,
            0,
            0,
            0,
        )
    }

    proof fn lemma_key_injective(&self, other: &Self) {
        self.count.lemma_code_injective(&other.count);
    }
}

/// Whether every segment of the sequence is well formed.
pub open spec fn all_wf<C>(s: Seq<Segment<C>>) -> bool {
    forall|i: int| 0 <= i < s.len() ==> (#[trigger] s[i]).x_segment.wf()
}

} // verus!

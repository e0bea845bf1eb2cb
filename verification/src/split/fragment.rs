use vstd::prelude::*;
use crate::geom::rect::IntRect;
use crate::geom::x_segment::XSegment;
use crate::sort::{key_le, lemma_sorted_ensures, sort, sorted, KeyInts, KeyValue, Keyed};

verus! {

/// A part of a segment as the spatial indexes see it: the rectangle that
/// bounds the part, the whole segment, and the index of the segment in the
/// working set.
#[derive(Clone, Copy, Debug, PartialEq, Eq, Structural)]
pub struct Fragment {
    pub index: usize,
    pub rect: IntRect,
    pub x_segment: XSegment,
}

impl Fragment {
    /// The fragment that covers a whole segment.
    pub open spec fn spec_with_index_and_segment(index: usize, x_segment: XSegment) -> Fragment {
        Fragment { index, rect: x_segment.spec_rect(), x_segment }
    }

    /// The fragment that covers a whole segment.
    pub fn with_index_and_segment(index: usize, x_segment: XSegment) -> (f: Fragment)
        ensures
            f == Self::spec_with_index_and_segment(index, x_segment),
    {
        Fragment { index, rect: x_segment.rect(), x_segment }
    }
}

impl Keyed for Fragment {
    open spec fn spec_key(&self) -> KeyInts {
        (
            self.rect.min_y as int,
            self.x_segment.a.x as int,
            self.x_segment.a.y as int,
            self.x_segment.b.x as int,
            self.x_segment.b.y as int,
            self.index as int,
            self.rect.min_x as int,
            self.rect.max_x as int,
            self.rect.max_y as int,
        )
    }

    fn key(&self) -> (k: KeyValue) {
        (
            self.rect.min_y as i128,
            self.x_segment.a.x as i128,
            self.x_segment.a.y as i128,
            self.x_segment.b.x as i128,
            self.x_segment.b.y as i128,
            self.index as i128,
            self.rect.min_x as i128,
            self.rect.max_x as i128,
            self.rect.max_y as i128,
        )
    }

    proof fn lemma_key_injective(&self, other: &Self) {
    }
}

/// A segment with the index it has in the working set.
#[derive(Clone, Copy, Debug, PartialEq, Eq, Structural)]
pub struct IdSegment {
    pub id: usize,
    pub x_segment: XSegment,
}

/// A segment of a list with the place it has there.
#[derive(Clone, Copy, Debug, PartialEq, Eq, Structural)]
pub struct Placed {
    pub place: usize,
    pub segment: IdSegment,
}

impl Keyed for Placed {
    open spec fn spec_key(&self) -> KeyInts {
        (
            self.segment.x_segment.a.y as int,
            self.place as int,
            self.segment.x_segment.a.x as int,
            self.segment.x_segment.b.x as int,
            self.segment.x_segment.b.y as int,
            self.segment.id as int,
            0,
            0,
            0,
        )
    }

    fn key(&self) -> (k: KeyValue) {
        (
            self.segment.x_segment.a.y as i128,
            self.place as i128,
            self.segment.x_segment.a.x as i128,
            self.segment.x_segment.b.x as i128,
            self.segment.x_segment.b.y as i128,
            self.segment.id as i128,
            0,
            0,
            0,
        )
    }

    proof fn lemma_key_injective(&self, other: &Self) {
    }
}

/// The segments of a list with their places.
pub open spec fn placed(list: Seq<IdSegment>) -> Seq<Placed> {
    Seq::new(list.len(), |i: int| Placed { place: i as usize, segment: list[i] })
}

/// The place in `list` of the segment that comes at position `k` when the
/// list is taken from below.
pub open spec fn place_below(list: Seq<IdSegment>, k: int) -> int {
    sorted(placed(list))[k].place as int
}

/// The segments of a list from below: in rising order of their lower ends,
/// segments with the same lower end in the order of the list.
pub open spec fn from_below(list: Seq<IdSegment>) -> Seq<IdSegment> {
    Seq::new(list.len(), |k: int| sorted(placed(list))[k].segment)
}

/// Whether the segment at place `i` of a list comes at some position when
/// the list is taken from below.
pub open spec fn comes_below(list: Seq<IdSegment>, i: int) -> bool {
    exists|k: int| 0 <= k < list.len() && #[trigger] place_below(list, k) == i
}

/// What taking a list from below means: every position holds the segment of
/// one place of the list, every place comes at one position, the lower ends
/// never fall, and of two segments with the same lower end the one that came
/// first in the list comes first.
pub proof fn lemma_from_below(list: Seq<IdSegment>)
    requires
        list.len() <= usize::MAX,
    ensures
        from_below(list).len() == list.len(),
        sorted(placed(list)).len() == list.len(),
        forall|k: int|
            0 <= k < list.len() ==> 0 <= place_below(list, k) < list.len() && (#[trigger] from_below(list)[k])
                == list[place_below(list, k)],
        forall|i: int| 0 <= i < list.len() ==> #[trigger] comes_below(list, i),
        forall|k: int, l: int|
            0 <= k < l < list.len() ==> (#[trigger] from_below(list)[k]).x_segment.a.y <= (#[trigger] from_below(
                list,
            )[l]).x_segment.a.y,
        forall|k: int, l: int|
            0 <= k < l < list.len() && (#[trigger] from_below(list)[k]).x_segment.a.y == (#[trigger] from_below(
                list,
            )[l]).x_segment.a.y ==> place_below(list, k) < place_below(list, l),
{
    let raw = placed(list);
    let ordered = sorted(raw);
    lemma_sorted_ensures(raw);
    vstd::seq_lib::to_multiset_len(raw);
    vstd::seq_lib::to_multiset_len(ordered);
    raw.to_multiset_ensures();
    ordered.to_multiset_ensures();
    assert forall|p: int, q: int| 0 <= p < raw.len() && 0 <= q < raw.len() && p != q implies raw[p] != raw[q] by {
        assert(raw[p].place == p);
        assert(raw[q].place == q);
    }
    raw.lemma_multiset_has_no_duplicates();
    ordered.lemma_multiset_has_no_duplicates_conv();
    assert forall|k: int| 0 <= k < list.len() implies 0 <= (#[trigger] ordered[k]).place < list.len() && ordered[k]
        == raw[ordered[k].place as int] by {
        assert(ordered.contains(ordered[k]));
        assert(ordered.to_multiset().count(ordered[k]) > 0);
        assert(raw.contains(ordered[k]));
        let i = choose|i: int| 0 <= i < raw.len() && raw[i] == ordered[k];
        assert(raw[i].place == i);
    }
    assert forall|k: int| 0 <= k < list.len() implies 0 <= place_below(list, k) < list.len() && (
    #[trigger] from_below(list)[k]) == list[place_below(list, k)] by {
        assert(ordered[k] == raw[ordered[k].place as int]);
    }
    assert forall|i: int| 0 <= i < list.len() implies #[trigger] comes_below(list, i) by {
        assert(raw.contains(raw[i]));
        assert(raw.to_multiset().count(raw[i]) > 0);
        assert(ordered.contains(raw[i]));
        let k = choose|k: int| 0 <= k < ordered.len() && ordered[k] == raw[i];
        assert(place_below(list, k) == i);
    }
    assert forall|k: int, l: int| 0 <= k < l < list.len() implies (#[trigger] from_below(list)[k]).x_segment.a.y <= (
    #[trigger] from_below(list)[l]).x_segment.a.y by {
        assert(key_le(ordered[k].spec_key(), ordered[l].spec_key()));
    }
    assert forall|k: int, l: int|
        0 <= k < l < list.len() && (#[trigger] from_below(list)[k]).x_segment.a.y == (#[trigger] from_below(
            list,
        )[l]).x_segment.a.y implies place_below(list, k) < place_below(list, l) by {
        assert(key_le(ordered[k].spec_key(), ordered[l].spec_key()));
        assert(ordered[k] == raw[ordered[k].place as int]);
        assert(ordered[l] == raw[ordered[l].place as int]);
        assert(ordered[k] != ordered[l]);
    }
}

/// The segments of a list taken from below are segments of the list.
pub proof fn lemma_from_below_keeps(list: Seq<IdSegment>, p: spec_fn(IdSegment) -> bool)
    requires
        forall|i: int| 0 <= i < list.len() ==> p(#[trigger] list[i]),
    ensures
        from_below(list).len() == list.len(),
        forall|k: int| 0 <= k < list.len() ==> p(#[trigger] from_below(list)[k]),
{
    let raw = placed(list);
    let ordered = sorted(raw);
    lemma_sorted_ensures(raw);
    vstd::seq_lib::to_multiset_len(raw);
    vstd::seq_lib::to_multiset_len(ordered);
    raw.to_multiset_ensures();
    ordered.to_multiset_ensures();
    assert forall|k: int| 0 <= k < list.len() implies p(#[trigger] from_below(list)[k]) by {
        assert(ordered.contains(ordered[k]));
        assert(ordered.to_multiset().count(ordered[k]) > 0);
        assert(raw.contains(ordered[k]));
        let i = choose|i: int| 0 <= i < raw.len() && raw[i] == ordered[k];
        assert(raw[i].segment == list[i]);
        assert(p(list[i]));
    }
}

/// Puts a list of segments in the order from below; see `from_below`.
pub fn sort_from_below(list: &mut Vec<IdSegment>)
    ensures
        final(list)@ == from_below(old(list)@),
{
    let n: usize = list.len();
    let mut work: Vec<Placed> = Vec::new();
    let mut i: usize = 0;
    while i < n
        invariant
            n == list.len(),
            i <= n,
            work@ == placed(list@).subrange(0, i as int),
        decreases n - i,
    {
        work.push(Placed { place: i, segment: list[i] });
        assert(work@ =~= placed(list@).subrange(0, i + 1));
        i += 1;
    }
    assert(work@ == placed(list@)) by {
        assert(placed(list@).subrange(0, n as int) =~= placed(list@));
    }
    sort(&mut work);
    let mut k: usize = 0;
    while k < n
        invariant
            n == list.len(),
            n == work.len(),
            k <= n,
            work@ == sorted(placed(old(list)@)),
            forall|q: int| 0 <= q < k ==> (#[trigger] list@[q]) == work@[q].segment,
        decreases n - k,
    {
        list.set(k, work[k].segment);
        k += 1;
    }
    assert(list@ =~= from_below(old(list)@));
}

} // verus!

use vstd::prelude::*;
use vstd::relations::{sorted_by, total_ordering};

verus! {

/// Nine integers by which items are ordered, compared from the first on.
pub type KeyValue = (i128, i128, i128, i128, i128, i128, i128, i128, i128);

/// The mathematical value of a key.
pub type KeyInts = (int, int, int, int, int, int, int, int, int);

/// The integers of an executable key.
pub open spec fn key_ints(k: KeyValue) -> KeyInts {
    (
        k.0 as int,
        k.1 as int,
        k.2 as int,
        k.3 as int,
        k.4 as int,
        k.5 as int,
        k.6 as int,
        k.7 as int,
        k.8 as int,
    )
}

/// Lexicographic order on keys, equal keys included.
pub open spec fn key_le(a: KeyInts, b: KeyInts) -> bool {
    if a.0 != b.0 {
        a.0 < b.0
    } else if a.1 != b.1 {
        a.1 < b.1
    } else if a.2 != b.2 {
        a.2 < b.2
    } else if a.3 != b.3 {
        a.3 < b.3
    } else if a.4 != b.4 {
        a.4 < b.4
    } else if a.5 != b.5 {
        a.5 < b.5
    } else if a.6 != b.6 {
        a.6 < b.6
    } else if a.7 != b.7 {
        a.7 < b.7
    } else {
        a.8 <= b.8
    }
}

/// An item that is ordered by a key of integers which tells it apart from
/// every other item.
pub trait Keyed: Sized {
    /// The key of the item.
    spec fn spec_key(&self) -> KeyInts;

    /// The key of the item.
    fn key(&self) -> (k: KeyValue)
        ensures
            key_ints(k) == self.spec_key(),
    ;

    /// Items with equal keys are equal.
    proof fn lemma_key_injective(&self, other: &Self)
        requires
            self.spec_key() == other.spec_key(),
        ensures
            *self == *other,
    ;
}

/// Whether the keys of a sequence never decrease.
pub open spec fn sorted_by_key<T: Keyed>(s: Seq<T>) -> bool {
    forall|i: int, j: int| 0 <= i < j < s.len() ==> key_le(#[trigger] s[i].spec_key(), #[trigger] s[j].spec_key())
}

/// The order of items by their keys.
pub open spec fn leq_of<T: Keyed>() -> spec_fn(T, T) -> bool {
    |a: T, b: T| key_le(a.spec_key(), b.spec_key())
}

/// The items of a sequence in the order of their keys.
pub open spec fn sorted<T: Keyed>(s: Seq<T>) -> Seq<T> {
    s.sort_by(leq_of::<T>())
}

/// The order of items by their keys is a total order.
pub proof fn lemma_key_order_is_total<T: Keyed>()
    ensures
        total_ordering(leq_of::<T>()),
{
    let leq = leq_of::<T>();
    assert forall|a: T, b: T| #[trigger] leq(a, b) && leq(b, a) implies a == b by {
        a.lemma_key_injective(&b);
    }
    assert(vstd::relations::reflexive(leq));
    assert(vstd::relations::antisymmetric(leq));
    assert(vstd::relations::transitive(leq));
    assert(vstd::relations::strongly_connected(leq));
}

/// The sorted sequence holds the same items and its keys never decrease.
pub proof fn lemma_sorted_ensures<T: Keyed>(s: Seq<T>)
    ensures
        sorted_by_key(sorted(s)),
        sorted(s).to_multiset() == s.to_multiset(),
        sorted(s).len() == s.len(),
{
    lemma_key_order_is_total::<T>();
    s.lemma_sort_by_ensures(leq_of::<T>());
    let r = sorted(s);
    assert(sorted_by(r, leq_of::<T>()));
    assert forall|i: int, j: int| 0 <= i < j < r.len() implies key_le(
        #[trigger] r[i].spec_key(),
        #[trigger] r[j].spec_key(),
    ) by {
        assert(leq_of::<T>()(r[i], r[j]));
    }
    vstd::seq_lib::to_multiset_len(r);
    vstd::seq_lib::to_multiset_len(s);
}

/// There is one way only to put given items in the order of their keys.
pub proof fn lemma_sort_unique<T: Keyed>(before: Seq<T>, after: Seq<T>)
    requires
        sorted_by_key(after),
        after.to_multiset() == before.to_multiset(),
    ensures
        after == sorted(before),
{
    lemma_key_order_is_total::<T>();
    lemma_sorted_ensures(before);
    let leq = leq_of::<T>();
    assert(sorted_by(after, leq)) by {
        assert forall|i: int, j: int| 0 <= i < j < after.len() implies #[trigger] leq(after[i], after[j]) by {
            assert(key_le(after[i].spec_key(), after[j].spec_key()));
        }
    }
    before.lemma_sort_by_ensures(leq);
    vstd::seq_lib::lemma_sorted_unique(after, sorted(before), leq);
}

/// Sequences that hold the same items are sorted into the same sequence.
pub proof fn lemma_sorted_of_permutation<T: Keyed>(a: Seq<T>, b: Seq<T>)
    requires
        a.to_multiset() == b.to_multiset(),
    ensures
        sorted(a) == sorted(b),
{
    lemma_sorted_ensures(a);
    lemma_sort_unique(b, sorted(a));
}

/// Sorts `v` by key with `slice::sort_by_key` of the standard library: the
/// result holds the same items as before, in an order in which the keys never
/// decrease. Keys are tuples of integers, which the standard library compares
/// lexicographically.
#[verifier::external_body]
fn sort_by_key<T: Keyed>(v: &mut Vec<T>)
    ensures
        sorted_by_key(final(v)@),
        final(v)@.to_multiset() == old(v)@.to_multiset(),
{
    v.sort_by_key(|item| item.key());
}

/// Sorts `v` by key.
pub fn sort<T: Keyed>(v: &mut Vec<T>)
    ensures
        final(v)@ == sorted(old(v)@),
        sorted_by_key(final(v)@),
        final(v)@.to_multiset() == old(v)@.to_multiset(),
        final(v)@.len() == old(v)@.len(),
{
    sort_by_key(v);
    proof {
        lemma_sort_unique(old(v)@, v@);
        lemma_sorted_ensures(old(v)@);
    }
}

/// What holds of every item of a sequence holds of every item of a
/// rearrangement of it.
pub proof fn lemma_permutation_keeps<T>(before: Seq<T>, after: Seq<T>, p: spec_fn(T) -> bool)
    requires
        before.to_multiset() == after.to_multiset(),
        forall|i: int| 0 <= i < before.len() ==> p(#[trigger] before[i]),
    ensures
        forall|i: int| 0 <= i < after.len() ==> p(#[trigger] after[i]),
{
    assert forall|i: int| 0 <= i < after.len() implies p(#[trigger] after[i]) by {
        let item = after[i];
        after.to_multiset_ensures();
        before.to_multiset_ensures();
        assert(after.contains(item));
        assert(after.to_multiset().count(item) > 0);
        assert(before.contains(item));
        let k = choose|k: int| 0 <= k < before.len() && before[k] == item;
        assert(p(before[k]));
    }
}

} // verus!

//! A stable sort for short sequences.
//!
//! The sorted sequence is defined by insertion: each item in turn is put
//! behind every item that it does not have to come before. Items that the
//! order cannot tell apart therefore keep the order in which they came.

use vstd::prelude::*;
use vstd::seq_lib::to_multiset_build;

verus! {

/// A strict weak order: `before` is asymmetric, and whatever comes before `c`
/// comes before every `b`, unless `b` itself comes before `c`.
pub trait Ordered: Sized {
    /// `self` has to come before `other`.
    spec fn before(self, other: Self) -> bool;

    /// Decides [`Ordered::before`].
    fn is_before(&self, other: &Self) -> (r: bool)
        ensures
            r == self.before(*other),
    ;

    /// No two items have to come before each other.
    proof fn lemma_asymmetric(a: Self, b: Self)
        requires
            a.before(b),
        ensures
            !b.before(a),
    ;

    /// An item that comes before `c` but not before `b` leaves `b` before `c`.
    proof fn lemma_negatively_transitive(a: Self, b: Self, c: Self)
        requires
            a.before(c),
        ensures
            a.before(b) || b.before(c),
    ;
}

/// `x` put into a sorted sequence, behind every item that it need not precede.
pub open spec fn insert_sorted<T: Ordered>(sorted: Seq<T>, x: T) -> Seq<T>
    decreases sorted.len(),
{
    if sorted.len() == 0 {
        seq![x]
    } else if x.before(sorted.last()) {
        insert_sorted(sorted.drop_last(), x).push(sorted.last())
    } else {
        sorted.push(x)
    }
}

/// The items in stable sorted order.
pub open spec fn stable_sorted<T: Ordered>(items: Seq<T>) -> Seq<T>
    decreases items.len(),
{
    if items.len() == 0 {
        Seq::empty()
    } else {
        insert_sorted(stable_sorted(items.drop_last()), items.last())
    }
}

/// No item has to come before an item that stands earlier.
pub open spec fn is_ordered<T: Ordered>(s: Seq<T>) -> bool {
    forall|i: int, j: int| 0 <= i < j < s.len() ==> !(#[trigger] s[j]).before(#[trigger] s[i])
}

/// Where `x` goes: in front of the items it precedes, which form the tail of
/// the sequence, and behind an item it does not precede.
pub proof fn lemma_insert_position<T: Ordered>(sorted: Seq<T>, x: T, pos: int)
    requires
        0 <= pos <= sorted.len(),
        forall|k: int| pos <= k < sorted.len() ==> x.before(#[trigger] sorted[k]),
        pos > 0 ==> !x.before(sorted[pos - 1]),
    ensures
        insert_sorted(sorted, x) == sorted.insert(pos, x),
    decreases sorted.len(),
{
    if sorted.len() == 0 {
        assert(seq![x] =~= sorted.insert(pos, x));
    } else if pos == sorted.len() {
        assert(sorted.push(x) =~= sorted.insert(pos, x));
    } else {
        assert(x.before(sorted[sorted.len() - 1]));
        lemma_insert_position(sorted.drop_last(), x, pos);
        assert(sorted.drop_last().insert(pos, x).push(sorted.last()) =~= sorted.insert(pos, x));
    }
}

/// Inserting keeps every item and adds exactly the new one.
pub proof fn lemma_insert_sorted_permutes<T: Ordered>(sorted: Seq<T>, x: T)
    ensures
        insert_sorted(sorted, x).len() == sorted.len() + 1,
        insert_sorted(sorted, x).to_multiset() == sorted.to_multiset().insert(x),
    decreases sorted.len(),
{
    broadcast use to_multiset_build;

    if sorted.len() == 0 {
        assert(seq![x] =~= Seq::<T>::empty().push(x));
        assert(sorted =~= Seq::<T>::empty());
    } else if x.before(sorted.last()) {
        lemma_insert_sorted_permutes(sorted.drop_last(), x);
        assert(sorted.drop_last().push(sorted.last()) =~= sorted);
        assert(insert_sorted(sorted, x).to_multiset() =~= sorted.to_multiset().insert(x));
    } else {
    }
}

/// Inserting into an ordered sequence leaves it ordered.
pub proof fn lemma_insert_sorted_ordered<T: Ordered>(sorted: Seq<T>, x: T)
    requires
        is_ordered(sorted),
    ensures
        is_ordered(insert_sorted(sorted, x)),
    decreases sorted.len(),
{
    let out = insert_sorted(sorted, x);
    if sorted.len() == 0 {
    } else if x.before(sorted.last()) {
        let front = sorted.drop_last();
        let last = sorted.last();
        assert(is_ordered(front)) by {
            assert forall|i: int, j: int| 0 <= i < j < front.len() implies !(#[trigger] front[j]).before(
                #[trigger] front[i],
            ) by {
                assert(front[j] == sorted[j] && front[i] == sorted[i]);
            }
        }
        lemma_insert_sorted_ordered(front, x);
        lemma_insert_sorted_permutes(front, x);
        let inner = insert_sorted(front, x);
        assert forall|i: int, j: int| 0 <= i < j < out.len() implies !(#[trigger] out[j]).before(
            #[trigger] out[i],
        ) by {
            if j < inner.len() {
                assert(out[j] == inner[j] && out[i] == inner[i]);
            } else {
                // out[j] is `last`; out[i] is `x` or an item of `front`
                assert(out[j] == last);
                assert(out[i] == inner[i]);
                assert(inner.to_multiset().count(inner[i]) > 0) by {
                    inner.to_multiset_ensures();
                    assert(inner.contains(inner[i]));
                }
                front.to_multiset_ensures();
                if inner[i] == x {
                    T::lemma_asymmetric(x, last);
                } else {
                    assert(front.to_multiset().count(inner[i]) > 0);
                    assert(front.contains(inner[i]));
                    let k = choose|k: int| 0 <= k < front.len() && front[k] == inner[i];
                    assert(sorted[k] == inner[i]);
                    assert(!sorted[sorted.len() - 1].before(sorted[k]));
                }
            }
        }
    } else {
        assert forall|i: int, j: int| 0 <= i < j < out.len() implies !(#[trigger] out[j]).before(
            #[trigger] out[i],
        ) by {
            if j < sorted.len() {
                assert(out[j] == sorted[j] && out[i] == sorted[i]);
            } else {
                assert(out[j] == x);
                assert(out[i] == sorted[i]);
                if i < sorted.len() - 1 {
                    // x before sorted[i] would put x before last, or sorted[i] behind last
                    if x.before(sorted[i]) {
                        T::lemma_negatively_transitive(x, sorted.last(), sorted[i]);
                        assert(!sorted[sorted.len() - 1].before(sorted[i]));
                    }
                }
            }
        }
    }
}

/// The sorted sequence is ordered.
pub proof fn lemma_stable_sorted_ordered<T: Ordered>(items: Seq<T>)
    ensures
        is_ordered(stable_sorted(items)),
    decreases items.len(),
{
    if items.len() > 0 {
        lemma_stable_sorted_ordered(items.drop_last());
        lemma_insert_sorted_ordered(stable_sorted(items.drop_last()), items.last());
    }
}

/// The sorted sequence holds the same items as often as the input does.
pub proof fn lemma_stable_sorted_permutes<T: Ordered>(items: Seq<T>)
    ensures
        stable_sorted(items).len() == items.len(),
        stable_sorted(items).to_multiset() == items.to_multiset(),
    decreases items.len(),
{
    broadcast use to_multiset_build;

    if items.len() > 0 {
        lemma_stable_sorted_permutes(items.drop_last());
        lemma_insert_sorted_permutes(stable_sorted(items.drop_last()), items.last());
        assert(items.drop_last().push(items.last()) =~= items);
    } else {
        assert(items =~= Seq::<T>::empty());
    }
}

/// Every item of the sorted sequence is an item of the input.
pub proof fn lemma_stable_sorted_contains<T: Ordered>(items: Seq<T>, k: int)
    requires
        0 <= k < stable_sorted(items).len(),
    ensures
        items.contains(stable_sorted(items)[k]),
{
    let out = stable_sorted(items);
    lemma_stable_sorted_permutes(items);
    out.to_multiset_ensures();
    items.to_multiset_ensures();
    assert(out.contains(out[k]));
    assert(out.to_multiset().count(out[k]) > 0);
    assert(items.to_multiset().count(out[k]) > 0);
}

/// Sorting keeps items apart: where no two items of the input share a key,
/// no two items of the sorted sequence do.
pub proof fn lemma_stable_sorted_keeps_distinct<T: Ordered, K>(items: Seq<T>, key: spec_fn(T) -> K)
    requires
        forall|a: int, b: int| 0 <= a < b < items.len() ==> key(items[a]) != key(items[b]),
    ensures
        forall|a: int, b: int|
            0 <= a < b < stable_sorted(items).len() ==> key(stable_sorted(items)[a]) != key(
                stable_sorted(items)[b],
            ),
{
    let out = stable_sorted(items);
    assert(items.no_duplicates()) by {
        assert forall|a: int, b: int|
            0 <= a < items.len() && 0 <= b < items.len() && a != b implies items[a] != items[b] by {
            if a < b {
                assert(key(items[a]) != key(items[b]));
            } else {
                assert(key(items[b]) != key(items[a]));
            }
        }
    }
    lemma_stable_sorted_permutes(items);
    items.lemma_multiset_has_no_duplicates();
    out.lemma_multiset_has_no_duplicates_conv();
    assert forall|a: int, b: int| 0 <= a < b < out.len() implies key(out[a]) != key(out[b]) by {
        lemma_stable_sorted_contains(items, a);
        lemma_stable_sorted_contains(items, b);
        let s = choose|s: int| 0 <= s < items.len() && items[s] == out[a];
        let t = choose|t: int| 0 <= t < items.len() && items[t] == out[b];
        assert(out[a] != out[b]);
        if s < t {
            assert(key(items[s]) != key(items[t]));
        } else {
            assert(key(items[t]) != key(items[s]));
        }
    }
}

/// Sorting is stable: a sequence that is ordered already comes back as it is.
pub proof fn lemma_stable_sorted_keeps_ordered<T: Ordered>(items: Seq<T>)
    requires
        is_ordered(items),
    ensures
        stable_sorted(items) == items,
    decreases items.len(),
{
    if items.len() > 0 {
        let front = items.drop_last();
        assert(is_ordered(front)) by {
            assert forall|i: int, j: int| 0 <= i < j < front.len() implies !(#[trigger] front[j]).before(
                #[trigger] front[i],
            ) by {
                assert(front[j] == items[j] && front[i] == items[i]);
            }
        }
        lemma_stable_sorted_keeps_ordered(front);
        if front.len() > 0 {
            assert(!items[items.len() - 1].before(items[items.len() - 2]));
            assert(front.last() == items[items.len() - 2]);
        }
        assert(front.push(items.last()) =~= items);
    } else {
        assert(items =~= Seq::<T>::empty());
    }
}

/// Sorts a sequence; items that the order cannot tell apart keep their order.
pub fn stable_sort<T: Ordered + Copy>(items: &Vec<T>) -> (out: Vec<T>)
    ensures
        out@ == stable_sorted(items@),
        out@.len() == items@.len(),
{
    let mut out: Vec<T> = Vec::new();
    let mut i: usize = 0;
    while i < items.len()
        invariant
            i <= items@.len(),
            out@.len() == i,
            out@ == stable_sorted(items@.take(i as int)),
        decreases items.len() - i,
    {
        let x: T = items[i];
        let mut pos: usize = out.len();
        while pos > 0 && x.is_before(&out[pos - 1])
            invariant
                pos <= out@.len(),
                forall|k: int| pos <= k < out@.len() ==> x.before(#[trigger] out@[k]),
            decreases pos,
        {
            pos = pos - 1;
        }
        proof {
            lemma_insert_position(out@, x, pos as int);
            assert(items@.take(i + 1).drop_last() =~= items@.take(i as int));
        }
        out.insert(pos, x);
        i = i + 1;
    }
    assert(items@.take(i as int) =~= items@);
    out
}

} // verus!

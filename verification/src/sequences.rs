//! Facts about sequences and slices that the containers and the sorts share.

use vstd::prelude::*;
use vstd::seq_lib::*;

verus! {

/// The sequence with the items at `i` and `j` exchanged.
pub open spec fn swapped<T>(s: Seq<T>, i: int, j: int) -> Seq<T> {
    s.update(i, s[j]).update(j, s[i])
}

/// One sequence holds the same items as the other, each as often.
pub open spec fn permutation<T>(a: Seq<T>, b: Seq<T>) -> bool {
    a.to_multiset() == b.to_multiset()
}

/// Exchanging two items keeps what the sequence holds.
pub proof fn lemma_swapped_permutation<T>(s: Seq<T>, i: int, j: int)
    requires
        0 <= i < s.len(),
        0 <= j < s.len(),
    ensures
        permutation(swapped(s, i, j), s),
        swapped(s, i, j).len() == s.len(),
{
    broadcast use group_to_multiset_ensures;
    broadcast use vstd::multiset::group_multiset_axioms;

    let mid = s.update(i, s[j]);
    assert(mid.to_multiset() == s.to_multiset().insert(s[j]).remove(s[i]));
    assert(swapped(s, i, j).to_multiset() == mid.to_multiset().insert(s[i]).remove(mid[j]));
    assert(s.to_multiset().count(s[i]) > 0);
    assert(s.to_multiset().count(s[j]) > 0);
    assert(swapped(s, i, j).to_multiset() =~= s.to_multiset());
}

/// Exchanging two items inside a range keeps what the range holds.
pub proof fn lemma_swapped_range<T>(s: Seq<T>, lo: int, hi: int, i: int, j: int)
    requires
        0 <= lo <= i < hi <= s.len(),
        lo <= j < hi,
    ensures
        permutation(swapped(s, i, j).subrange(lo, hi), s.subrange(lo, hi)),
{
    let part = s.subrange(lo, hi);
    lemma_swapped_permutation(part, i - lo, j - lo);
    assert(swapped(s, i, j).subrange(lo, hi) =~= swapped(part, i - lo, j - lo));
}

/// An item of one sequence is an item of every permutation of it.
pub proof fn lemma_permutation_contains<T>(a: Seq<T>, b: Seq<T>, i: int) -> (j: int)
    requires
        permutation(a, b),
        0 <= i < a.len(),
    ensures
        0 <= j < b.len(),
        b[j] == a[i],
        a.len() == b.len(),
{
    broadcast use group_to_multiset_ensures;

    a.to_multiset_ensures();
    b.to_multiset_ensures();
    assert(a.contains(a[i]));
    assert(a.to_multiset().count(a[i]) > 0);
    assert(b.contains(a[i]));
    choose|j: int| 0 <= j < b.len() && b[j] == a[i]
}

/// A permutation of a range, with the rest kept, is a permutation of the whole.
pub proof fn lemma_range_permutation<T>(a: Seq<T>, b: Seq<T>, lo: int, hi: int)
    requires
        a.len() == b.len(),
        0 <= lo <= hi <= a.len(),
        permutation(a.subrange(lo, hi), b.subrange(lo, hi)),
        forall|k: int| 0 <= k < lo || hi <= k < a.len() ==> a[k] == b[k],
    ensures
        permutation(a, b),
{
    broadcast use lemma_multiset_commutative;

    let n = a.len() as int;
    assert(a =~= a.subrange(0, lo) + a.subrange(lo, hi) + a.subrange(hi, n));
    assert(b =~= b.subrange(0, lo) + b.subrange(lo, hi) + b.subrange(hi, n));
    assert(a.subrange(0, lo) =~= b.subrange(0, lo));
    assert(a.subrange(hi, n) =~= b.subrange(hi, n));
}

/// Moving the last item to place `i` and dropping the last place takes out
/// the item that stood at `i`, and nothing else.
pub proof fn lemma_swap_remove<T>(s: Seq<T>, i: int)
    requires
        0 <= i < s.len(),
    ensures
        s.update(i, s.last()).drop_last().to_multiset() == s.to_multiset().remove(s[i]),
        s.to_multiset().count(s[i]) > 0,
{
    broadcast use group_to_multiset_ensures;
    broadcast use vstd::multiset::group_multiset_axioms;

    let short = s.drop_last();
    assert(s =~= short.push(s.last()));
    assert(s.to_multiset() == short.to_multiset().insert(s.last()));
    s.to_multiset_ensures();
    assert(s.contains(s[i]));
    if i == s.len() - 1 {
        assert(s.update(i, s.last()).drop_last() =~= short);
        assert(short.to_multiset() =~= s.to_multiset().remove(s[i]));
    } else {
        assert(s.update(i, s.last()).drop_last() =~= short.update(i, s.last()));
        assert(short.update(i, s.last()).to_multiset() == short.to_multiset().insert(
            s.last(),
        ).remove(short[i]));
    }
}

/// The first `0` items of a sequence hold nothing.
pub proof fn lemma_empty_prefix<T>(s: Seq<T>)
    ensures
        s.subrange(0, 0).to_multiset() == vstd::multiset::Multiset::<T>::empty(),
{
    broadcast use group_to_multiset_ensures;
    broadcast use vstd::multiset::group_multiset_properties;

    assert(s.subrange(0, 0).to_multiset().len() == 0);
    assert(s.subrange(0, 0).to_multiset() =~= vstd::multiset::Multiset::<T>::empty());
}

/// A sequence that grew by one item holds that item once more.
pub proof fn lemma_push_multiset<T>(s: Seq<T>, item: T)
    ensures
        s.push(item).to_multiset() == s.to_multiset().insert(item),
{
    broadcast use group_to_multiset_ensures;

}

/// A sequence holds an item exactly if its multiset counts it.
pub proof fn lemma_contains_count<T>(s: Seq<T>, item: T)
    ensures
        s.contains(item) == (s.to_multiset().count(item) > 0),
        s.to_multiset().len() == s.len(),
{
    s.to_multiset_ensures();
}

/// Two sequences joined hold an item exactly if one of them holds it.
pub proof fn lemma_joined_contains<T>(a: Seq<T>, b: Seq<T>, item: T)
    ensures
        (a + b).contains(item) <==> a.contains(item) || b.contains(item),
{
    if a.contains(item) {
        let i = choose|i: int| 0 <= i < a.len() && a[i] == item;
        assert((a + b)[i] == item);
    }
    if b.contains(item) {
        let i = choose|i: int| 0 <= i < b.len() && b[i] == item;
        assert((a + b)[a.len() + i] == item);
    }
    if (a + b).contains(item) {
        let i = choose|i: int| 0 <= i < (a + b).len() && (a + b)[i] == item;
        if i < a.len() {
            assert(a[i] == item);
        } else {
            assert(b[i - a.len()] == item);
        }
    }
}

/// Exchanges two items of a slice.
pub fn swap_items<T: Copy>(array: &mut [T], i: usize, j: usize)
    requires
        i < old(array)@.len(),
        j < old(array)@.len(),
    ensures
        final(array)@ == swapped(old(array)@, i as int, j as int),
        final(array)@.len() == old(array)@.len(),
        permutation(final(array)@, old(array)@),
{
    proof {
        lemma_swapped_permutation(array@, i as int, j as int);
    }
    let first = array[i];
    let second = array[j];
    array[i] = second;
    array[j] = first;
}

} // verus!

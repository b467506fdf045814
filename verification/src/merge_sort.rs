//! Merge sort on a double-ended queue.

use crate::order::{ascending, Ordered};
use crate::sequences::{lemma_empty_prefix, lemma_push_multiset, permutation};
use std::collections::VecDeque;
use vstd::prelude::*;
use vstd::seq_lib::*;

verus! {

/// Merges two ascending queues into one ascending queue that holds the
/// items of both. Of two equal items the one of `right` comes first.
pub fn merge<T: Ordered>(left: &VecDeque<T>, right: &VecDeque<T>) -> (merged: VecDeque<T>)
    requires
        ascending(left@),
        ascending(right@),
    ensures
        ascending(merged@),
        merged@.to_multiset() == left@.to_multiset().add(right@.to_multiset()),
        merged@.len() == left@.len() + right@.len(),
{
    broadcast use vstd::multiset::group_multiset_axioms;

    let mut merged: VecDeque<T> = VecDeque::new();
    let mut i: usize = 0;
    let mut j: usize = 0;
    proof {
        lemma_empty_prefix(left@);
        lemma_empty_prefix(right@);
        assert(merged@ =~= left@.subrange(0, 0));
    }
    while i < left.len() || j < right.len()
        invariant
            i <= left@.len(),
            j <= right@.len(),
            ascending(left@),
            ascending(right@),
            ascending(merged@),
            merged@.len() == i + j,
            merged@.to_multiset() == left@.subrange(0, i as int).to_multiset().add(
                right@.subrange(0, j as int).to_multiset(),
            ),
            forall|a: int, b: int|
                0 <= a < merged@.len() && i <= b < left@.len() ==> merged@[a].rank() <= left@[b].rank(),
            forall|a: int, b: int|
                0 <= a < merged@.len() && j <= b < right@.len() ==> merged@[a].rank()
                    <= right@[b].rank(),
        decreases left@.len() - i + right@.len() - j,
    {
        let from_left: bool = if j >= right.len() {
            true
        } else if i >= left.len() {
            false
        } else {
            left[i].less(&right[j])
        };
        if from_left {
            let item = left[i];
            proof {
                lemma_push_multiset(merged@, item);
                lemma_push_multiset(left@.subrange(0, i as int), item);
                assert(left@.subrange(0, i + 1) =~= left@.subrange(0, i as int).push(item));
                assert(merged@.to_multiset().insert(item) =~= left@.subrange(
                    0,
                    i + 1,
                ).to_multiset().add(right@.subrange(0, j as int).to_multiset()));
            }
            merged.push_back(item);
            i = i + 1;
        } else {
            let item = right[j];
            proof {
                lemma_push_multiset(merged@, item);
                lemma_push_multiset(right@.subrange(0, j as int), item);
                assert(right@.subrange(0, j + 1) =~= right@.subrange(0, j as int).push(item));
                assert(merged@.to_multiset().insert(item) =~= left@.subrange(
                    0,
                    i as int,
                ).to_multiset().add(right@.subrange(0, j + 1).to_multiset()));
            }
            merged.push_back(item);
            j = j + 1;
        }
    }
    proof {
        assert(left@.subrange(0, i as int) =~= left@);
        assert(right@.subrange(0, j as int) =~= right@);
    }
    merged
}

/// Sorts the queue ascending: each half is sorted, and the two are merged.
pub fn merge_sort<T: Ordered>(list: &mut VecDeque<T>)
    ensures
        ascending(final(list)@),
        permutation(final(list)@, old(list)@),
        final(list)@.len() == old(list)@.len(),
    decreases old(list)@.len(),
{
    broadcast use lemma_multiset_commutative;

    let n = list.len();
    if n <= 1 {
        return ;
    }
    let mut right = list.split_off(n - n / 2);
    let ghost left_before = list@;
    let ghost right_before = right@;
    assert(old(list)@ =~= left_before + right_before);
    merge_sort(list);
    merge_sort(&mut right);
    let merged = merge(list, &right);
    *list = merged;
}

} // verus!

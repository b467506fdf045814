//! Bubble sort.

use crate::order::{ascending, Ordered};
use crate::sequences::{permutation, swap_items};
use vstd::prelude::*;

verus! {

/// Sorts the slice ascending: neighbours out of order are exchanged, pass
/// after pass, and each pass carries the greatest remaining item to its place.
pub fn bubble_sort<T: Ordered>(array: &mut [T])
    ensures
        ascending(final(array)@),
        permutation(final(array)@, old(array)@),
        final(array)@.len() == old(array)@.len(),
{
    let n = array.len();
    let mut done: usize = 0;
    while done < n
        invariant
            done <= n,
            n == array@.len(),
            permutation(array@, old(array)@),
            forall|i: int, j: int|
                n - done <= i <= j < n ==> array@[i].rank() <= array@[j].rank(),
            forall|i: int, j: int|
                0 <= i < n - done <= j < n ==> array@[i].rank() <= array@[j].rank(),
        decreases n - done,
    {
        let mut j: usize = 0;
        while j + 1 < n - done
            invariant
                done < n,
                j < n - done,
                n == array@.len(),
                permutation(array@, old(array)@),
                forall|i: int, k: int|
                    n - done <= i <= k < n ==> array@[i].rank() <= array@[k].rank(),
                forall|i: int, k: int|
                    0 <= i < n - done <= k < n ==> array@[i].rank() <= array@[k].rank(),
                forall|i: int| 0 <= i <= j ==> array@[i].rank() <= array@[j as int].rank(),
            decreases n - done - j,
        {
            if array[j + 1].less(&array[j]) {
                swap_items(array, j, j + 1);
            }
            j = j + 1;
        }
        done = done + 1;
    }
}

} // verus!

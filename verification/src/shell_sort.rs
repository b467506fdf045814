//! Shell sort.

use crate::order::{ascending, Ordered};
use crate::sequences::{permutation, swap_items};
use vstd::prelude::*;

verus! {

/// The gap at place `k` of the gap sequence 701, 301, 132, 57, 23, 10, 4, 1.
pub fn gap_at(k: usize) -> (gap: usize)
    requires
        k < 8,
    ensures
        gap >= 1,
        k == 7 ==> gap == 1,
        gap == seq![701usize, 301, 132, 57, 23, 10, 4, 1][k as int],
{
    if k == 0 {
        701
    } else if k == 1 {
        301
    } else if k == 2 {
        132
    } else if k == 3 {
        57
    } else if k == 4 {
        23
    } else if k == 5 {
        10
    } else if k == 6 {
        4
    } else {
        1
    }
}

/// Sorts the slice ascending by insertion over shrinking gaps: 701, 301,
/// 132, 57, 23, 10, 4, 1, of which those not smaller than the length are
/// left out. The last pass, with gap 1, leaves the slice sorted.
pub fn shell_sort<T: Ordered>(array: &mut [T])
    ensures
        ascending(final(array)@),
        permutation(final(array)@, old(array)@),
        final(array)@.len() == old(array)@.len(),
{
    let n = array.len();
    let mut k: usize = 0;
    while k < 8
        invariant
            k <= 8,
            n == array@.len(),
            n == old(array)@.len(),
            permutation(array@, old(array)@),
            k == 8 ==> ascending(array@),
        decreases 8 - k,
    {
        let gap = gap_at(k);
        if gap < n {
            let mut i: usize = gap;
            while i < n
                invariant
                    1 <= gap <= i <= n,
                    n == array@.len(),
                    n == old(array)@.len(),
                    permutation(array@, old(array)@),
                    gap == 1 ==> forall|a: int, b: int|
                        0 <= a <= b < i ==> array@[a].rank() <= array@[b].rank(),
                decreases n - i,
            {
                let mut j: usize = i;
                while j >= gap && array[j].less(&array[j - gap])
                    invariant
                        1 <= gap,
                        j <= i < n,
                        n == array@.len(),
                        n == old(array)@.len(),
                        permutation(array@, old(array)@),
                        gap == 1 ==> forall|a: int, b: int|
                            0 <= a <= b < j ==> array@[a].rank() <= array@[b].rank(),
                        gap == 1 ==> forall|a: int, b: int|
                            j <= a <= b <= i ==> array@[a].rank() <= array@[b].rank(),
                        gap == 1 ==> forall|a: int, b: int|
                            0 <= a < j < b <= i ==> array@[a].rank() <= array@[b].rank(),
                    decreases j,
                {
                    swap_items(array, j, j - gap);
                    j = j - gap;
                }
                i = i + 1;
            }
        } else {
            assert(k == 7 ==> n <= 1);
        }
        k = k + 1;
    }
}

} // verus!

//! Quick sort with a median-of-three pivot.

use crate::order::{ascending, Ordered};
use crate::sequences::{
    lemma_permutation_contains, lemma_range_permutation, lemma_swapped_range, permutation,
    swap_items, swapped,
};
use vstd::prelude::*;

verus! {

/// Exchanges the items at `first` and `second` if the one at `first` is the smaller.
fn compare_swap<T: Ordered>(
    array: &mut [T],
    first: usize,
    second: usize,
    Ghost(lo): Ghost<int>,
    Ghost(hi): Ghost<int>,
)
    requires
        0 <= lo <= first < hi <= old(array)@.len(),
        lo <= second < hi,
    ensures
        final(array)@.len() == old(array)@.len(),
        final(array)@ == old(array)@ || final(array)@ == swapped(
            old(array)@,
            first as int,
            second as int,
        ),
        final(array)@[second as int].rank() <= final(array)@[first as int].rank(),
        permutation(final(array)@.subrange(lo, hi), old(array)@.subrange(lo, hi)),
        forall|k: int| 0 <= k < lo || hi <= k < old(array)@.len() ==> final(array)@[k] == old(array)@[k],
{
    if array[first].less(&array[second]) {
        proof {
            lemma_swapped_range(array@, lo, hi, first as int, second as int);
        }
        swap_items(array, first, second);
    }
}

/// Sorts the items in `lo..hi` and keeps the others.
fn sort_range<T: Ordered>(array: &mut [T], lo: usize, hi: usize)
    requires
        lo <= hi <= old(array)@.len(),
    ensures
        final(array)@.len() == old(array)@.len(),
        permutation(final(array)@.subrange(lo as int, hi as int), old(array)@.subrange(lo as int, hi as int)),
        forall|k: int| 0 <= k < lo || hi <= k < old(array)@.len() ==> final(array)@[k] == old(array)@[k],
        forall|i: int, j: int| lo <= i <= j < hi ==> final(array)@[i].rank() <= final(array)@[j].rank(),
    decreases hi - lo,
{
    if hi - lo <= 1 {
        return;
    }
    let last: usize = hi - 1;
    let mid: usize = lo + (last - lo) / 2;
    if hi - lo > 2 {
        compare_swap(array, mid, lo, Ghost(lo as int), Ghost(hi as int));
        compare_swap(array, last, lo, Ghost(lo as int), Ghost(hi as int));
        compare_swap(array, mid, last, Ghost(lo as int), Ghost(hi as int));
    }
    let pivot = array[last];
    let mut store: usize = lo;
    let mut k: usize = lo;
    while k < last
        invariant
            lo <= store <= k <= last,
            last == hi - 1,
            hi <= array@.len(),
            array@.len() == old(array)@.len(),
            array@[last as int] == pivot,
            permutation(array@.subrange(lo as int, hi as int), old(array)@.subrange(lo as int, hi as int)),
            forall|i: int| 0 <= i < lo || hi <= i < array@.len() ==> array@[i] == old(array)@[i],
            forall|i: int| lo <= i < store ==> array@[i].rank() < pivot.rank(),
            forall|i: int| store <= i < k ==> array@[i].rank() >= pivot.rank(),
        decreases last - k,
    {
        if array[k].less(&pivot) {
            proof {
                lemma_swapped_range(array@, lo as int, hi as int, k as int, store as int);
            }
            swap_items(array, k, store);
            store = store + 1;
        }
        k = k + 1;
    }
    proof {
        lemma_swapped_range(array@, lo as int, hi as int, last as int, store as int);
    }
    swap_items(array, last, store);
    let ghost parted = array@;
    sort_range(array, lo, store);
    let ghost half = array@;
    sort_range(array, store + 1, hi);
    proof {
        let done = array@;
        assert forall|i: int| lo <= i < store implies half[i].rank() < pivot.rank() by {
            let j = lemma_permutation_contains(
                half.subrange(lo as int, store as int),
                parted.subrange(lo as int, store as int),
                i - lo,
            );
            assert(parted[lo + j].rank() < pivot.rank());
        }
        assert forall|i: int| store < i < hi implies done[i].rank() >= pivot.rank() by {
            let j = lemma_permutation_contains(
                done.subrange(store + 1, hi as int),
                half.subrange(store + 1, hi as int),
                i - (store + 1),
            );
            assert(half[store + 1 + j] == parted[store + 1 + j]);
        }
        assert(done[store as int] == pivot);
        assert(half.subrange(lo as int, hi as int).subrange(0, store - lo) =~= half.subrange(
            lo as int,
            store as int,
        ));
        assert(parted.subrange(lo as int, hi as int).subrange(0, store - lo) =~= parted.subrange(
            lo as int,
            store as int,
        ));
        lemma_range_permutation(
            half.subrange(lo as int, hi as int),
            parted.subrange(lo as int, hi as int),
            0,
            store - lo,
        );
        assert(done.subrange(lo as int, hi as int).subrange(store + 1 - lo, hi - lo)
            =~= done.subrange(store + 1, hi as int));
        assert(half.subrange(lo as int, hi as int).subrange(store + 1 - lo, hi - lo)
            =~= half.subrange(store + 1, hi as int));
        lemma_range_permutation(
            done.subrange(lo as int, hi as int),
            half.subrange(lo as int, hi as int),
            store + 1 - lo,
            hi - lo,
        );
    }
}

/// Sorts the slice ascending. From three items on, the pivot of each step is
/// the median of the first, the middle and the last item.
pub fn quick_sort<T: Ordered>(array: &mut [T])
    ensures
        ascending(final(array)@),
        permutation(final(array)@, old(array)@),
        final(array)@.len() == old(array)@.len(),
{
    let n = array.len();
    sort_range(array, 0, n);
    proof {
        assert(array@.subrange(0, n as int) =~= array@);
        assert(old(array)@.subrange(0, n as int) =~= old(array)@);
    }
}

} // verus!

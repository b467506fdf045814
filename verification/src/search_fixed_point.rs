//! Search for a fixed point: an index that holds its own number.

use crate::order::{strictly_ascending, Ordered};
use vstd::prelude::*;

verus! {

/// The item at `i` is `i`.
pub open spec fn is_fixed_point(s: Seq<u32>, i: int) -> bool {
    0 <= i < s.len() && s[i] == i
}

/// Searches by halving for an index that holds its own number. An index
/// that is returned is a fixed point; in a strictly ascending slice `None`
/// is returned only if there is no fixed point.
pub fn fixed_point(array: &[u32]) -> (found: Option<usize>)
    ensures
        found.is_some() ==> is_fixed_point(array@, found.unwrap() as int),
        strictly_ascending(array@) && found.is_none() ==> forall|i: int| !is_fixed_point(array@, i),
{
    if array.len() == 0 {
        return None;
    }
    let mut lo: usize = 0;
    let mut hi: usize = array.len() - 1;
    while hi >= lo
        invariant
            lo <= array@.len(),
            hi < array@.len(),
            strictly_ascending(array@) ==> forall|i: int|
                0 <= i < lo || hi < i < array@.len() ==> !is_fixed_point(array@, i),
        decreases hi + 1 - lo,
    {
        let mid: usize = (hi - lo) / 2 + lo;
        let value: u32 = array[mid];
        proof {
            if strictly_ascending(array@) {
                lemma_gaps_grow(array@, mid as int);
            }
        }
        if value as u64 == mid as u64 {
            return Some(mid);
        } else if mid as u64 > value as u64 {
            lo = mid + 1;
        } else {
            if mid == 0 {
                return None;
            }
            hi = mid - 1;
        }
    }
    None
}

/// In a strictly ascending sequence of integers the items move away from
/// their indices no slower than the indices grow: below an item that is
/// smaller than its index, and above one that is greater, no item is its index.
pub proof fn lemma_gaps_grow(s: Seq<u32>, mid: int)
    requires
        strictly_ascending(s),
        0 <= mid < s.len(),
    ensures
        s[mid] < mid ==> forall|i: int| 0 <= i <= mid ==> !is_fixed_point(s, i),
        s[mid] > mid ==> forall|i: int| mid <= i < s.len() ==> !is_fixed_point(s, i),
{
    assert forall|i: int| 0 <= i <= mid implies s[i] - i <= s[mid] - mid by {
        lemma_step(s, i, mid);
    }
    assert forall|i: int| mid <= i < s.len() implies s[mid] - mid <= s[i] - i by {
        lemma_step(s, mid, i);
    }
}

/// Between two places of a strictly ascending sequence of integers the
/// items grow at least as much as the indices.
pub proof fn lemma_step(s: Seq<u32>, i: int, j: int)
    requires
        strictly_ascending(s),
        0 <= i <= j < s.len(),
    ensures
        s[i] - i <= s[j] - j,
    decreases j - i,
{
    if i < j {
        lemma_step(s, i, j - 1);
        assert(s[j - 1].rank() < s[j].rank());
    }
}

} // verus!

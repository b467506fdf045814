//! Binary search in an ascending slice.

use crate::order::{ascending, Ordered};
use vstd::prelude::*;

verus! {

/// Finds a place of `key` in an ascending slice: some index whose item
/// equals `key`, or `None` exactly if no item does.
pub fn binary_search<T: Ordered>(array: &[T], key: &T) -> (found: Option<usize>)
    requires
        ascending(array@),
    ensures
        match found {
            Some(index) => index < array@.len() && array@[index as int] == *key,
            None => forall|i: int| 0 <= i < array@.len() ==> array@[i] != *key,
        },
{
    let mut lo: usize = 0;
    let mut hi: usize = array.len();
    while lo < hi
        invariant
            lo <= hi <= array@.len(),
            ascending(array@),
            forall|i: int| 0 <= i < lo ==> array@[i].rank() < key.rank(),
            forall|i: int| hi <= i < array@.len() ==> key.rank() < array@[i].rank(),
        decreases hi - lo,
    {
        let mid: usize = lo + (hi - lo) / 2;
        if array[mid].same(key) {
            return Some(mid);
        } else if array[mid].less(key) {
            lo = mid + 1;
        } else {
            hi = mid;
        }
    }
    None
}

} // verus!

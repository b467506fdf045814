//! A binary min-heap in a vector, and heap sort.

use crate::order::{ascending, Ordered};
use crate::sequences::{
    lemma_contains_count, lemma_empty_prefix, lemma_permutation_contains, lemma_push_multiset,
    lemma_range_permutation, lemma_swap_remove, lemma_swapped_range,
    permutation, swap_items,
};
use vstd::multiset::Multiset;
use vstd::prelude::*;

verus! {

/// The place of the parent of the item at `i`, for `i > 0`.
pub open spec fn parent(i: int) -> int {
    (i + 1) / 2 - 1
}

/// Among the first `n` items, no item is smaller than its parent.
pub open spec fn heap_ordered<T: Ordered>(s: Seq<T>, n: int) -> bool {
    forall|i: int| 1 <= i < n ==> s[parent(i)].rank() <= #[trigger] s[i].rank()
}

/// Among the first `n` items, no item but possibly the one at `k` is smaller
/// than its parent, and the children of `k` are not smaller than its parent.
pub open spec fn heap_ordered_but_above<T: Ordered>(s: Seq<T>, n: int, k: int) -> bool {
    &&& forall|i: int| 1 <= i < n && i != k ==> s[parent(i)].rank() <= #[trigger] s[i].rank()
    &&& forall|i: int|
        1 <= i < n && parent(i) == k && k >= 1 ==> s[parent(k)].rank() <= #[trigger] s[i].rank()
}

/// No item is smaller than its parent, except possibly the children of `k`,
/// which are not smaller than the parent of `k`.
pub open spec fn heap_ordered_but_below<T: Ordered>(s: Seq<T>, n: int, k: int) -> bool {
    &&& forall|i: int|
        1 <= i < n && parent(i) != k ==> s[parent(i)].rank() <= #[trigger] s[i].rank()
    &&& forall|i: int|
        1 <= i < n && parent(i) == k && k >= 1 ==> s[parent(k)].rank() <= #[trigger] s[i].rank()
}

/// In a heap the first item is a least one.
pub proof fn lemma_root_is_least<T: Ordered>(s: Seq<T>, n: int, i: int)
    requires
        heap_ordered(s, n),
        0 <= i < n <= s.len(),
    ensures
        s[0].rank() <= s[i].rank(),
    decreases i,
{
    if i > 0 {
        lemma_root_is_least(s, n, parent(i));
    }
}

/// After the last item of a heap has been moved to place `k` and the last
/// place dropped, the order can fail only between `k` and its parent, or
/// only between `k` and its children.
proof fn lemma_gap_closed<T: Ordered>(before: Seq<T>, k: int)
    requires
        0 <= k < before.len(),
        heap_ordered(before, before.len() as int),
    ensures
        ({
            let s = before.update(k, before.last()).drop_last();
            k < s.len() ==> if k >= 1 && s[k].rank() < s[parent(k)].rank() {
                heap_ordered_but_above(s, s.len() as int, k)
            } else {
                heap_ordered_but_below(s, s.len() as int, k)
            }
        }),
{
    let s = before.update(k, before.last()).drop_last();
    let n = s.len() as int;
    if k < n {
        assert forall|i: int| 1 <= i < n && i != k && parent(i) != k implies s[parent(i)].rank()
            <= #[trigger] s[i].rank() by {
            assert(before[parent(i)].rank() <= before[i].rank());
        }
        assert forall|i: int| 1 <= i < n && parent(i) == k && k >= 1 implies s[parent(k)].rank()
            <= #[trigger] s[i].rank() by {
            assert(before[parent(i)].rank() <= before[i].rank());
            assert(before[parent(k)].rank() <= before[k].rank());
        }
    }
}

/// Moves the item at `k` up until its parent is not greater.
fn sift_up<T: Ordered>(array: &mut [T], k: usize, n: usize)
    requires
        k < n <= old(array)@.len(),
        heap_ordered_but_above(old(array)@, n as int, k as int),
    ensures
        final(array)@.len() == old(array)@.len(),
        heap_ordered(final(array)@, n as int),
        permutation(final(array)@, old(array)@),
        permutation(final(array)@.subrange(0, n as int), old(array)@.subrange(0, n as int)),
        forall|i: int| n <= i < old(array)@.len() ==> final(array)@[i] == old(array)@[i],
{
    let mut cur: usize = k;
    while cur > 0
        invariant
            cur < n <= array@.len(),
            array@.len() == old(array)@.len(),
            heap_ordered_but_above(array@, n as int, cur as int),
            permutation(array@, old(array)@),
            permutation(array@.subrange(0, n as int), old(array)@.subrange(0, n as int)),
            forall|i: int| n <= i < old(array)@.len() ==> array@[i] == old(array)@[i],
        decreases cur,
    {
        let up: usize = (cur + 1) / 2 - 1;
        assert(parent(cur as int) == up);
        if !array[cur].less(&array[up]) {
            return ;
        }
        proof {
            lemma_swapped_range(array@, 0, n as int, cur as int, up as int);
        }
        swap_items(array, cur, up);
        cur = up;
    }
}

/// Moves the item at `k` down until no child is smaller.
fn sift_down<T: Ordered>(array: &mut [T], k: usize)
    requires
        k < old(array)@.len(),
        heap_ordered_but_below(old(array)@, old(array)@.len() as int, k as int),
    ensures
        final(array)@.len() == old(array)@.len(),
        heap_ordered(final(array)@, final(array)@.len() as int),
        permutation(final(array)@, old(array)@),
{
    let n = array.len();
    let mut cur: usize = k;
    while cur < n / 2 && 2 * cur + 1 < n
        invariant
            cur < n,
            n == array@.len(),
            array@.len() == old(array)@.len(),
            heap_ordered_but_below(array@, n as int, cur as int),
            permutation(array@, old(array)@),
        decreases n - cur,
    {
        let left: usize = 2 * cur + 1;
        let right: usize = left + 1;
        let next: usize = if right >= n {
            left
        } else if array[left].less(&array[right]) {
            left
        } else {
            right
        };
        assert(parent(left as int) == cur && parent(right as int) == cur);
        if !array[next].less(&array[cur]) {
            assert forall|i: int| 1 <= i < n implies array@[parent(i)].rank()
                <= #[trigger] array@[i].rank() by {
                if parent(i) == cur {
                    assert(i == left || i == right);
                }
            }
            return ;
        }
        swap_items(array, next, cur);
        cur = next;
    }
    assert forall|i: int| 1 <= i < n implies array@[parent(i)].rank()
        <= #[trigger] array@[i].rank() by {}
}

pub struct Heap<T> {
    array: Vec<T>,
}

impl<T: Ordered> Heap<T> {
    /// The items in storage order; the first is a least one.
    pub closed spec fn items(&self) -> Seq<T> {
        self.array@
    }

    /// What the heap holds, each item as often as it was put in.
    pub open spec fn contents(&self) -> Multiset<T> {
        self.items().to_multiset()
    }

    /// No item is smaller than its parent.
    pub open spec fn wf(&self) -> bool {
        heap_ordered(self.items(), self.items().len() as int)
    }

    /// The rank of every item that the heap holds is at least `bound`.
    pub open spec fn all_at_least(&self, bound: int) -> bool {
        forall|v: T| self.contents().count(v) > 0 ==> bound <= v.rank()
    }

    /// The first item of a heap is one of its items, and a least one.
    pub proof fn lemma_first_is_least(&self)
        requires
            self.wf(),
            self.items().len() > 0,
        ensures
            self.contents().count(self.items()[0]) > 0,
            self.all_at_least(self.items()[0].rank()),
    {
        lemma_contains_count(self.items(), self.items()[0]);
        assert(self.items().contains(self.items()[0]));
        assert forall|v: T| self.contents().count(v) > 0 implies self.items()[0].rank()
            <= v.rank() by {
            lemma_contains_count(self.items(), v);
            let i = choose|i: int| 0 <= i < self.items().len() && self.items()[i] == v;
            lemma_root_is_least(self.items(), self.items().len() as int, i);
        }
    }

    /// Reorders the slice into a heap.
    pub fn heapify(array: &mut [T])
        ensures
            final(array)@.len() == old(array)@.len(),
            heap_ordered(final(array)@, final(array)@.len() as int),
            permutation(final(array)@, old(array)@),
    {
        let n = array.len();
        let mut i: usize = 1;
        while i < n
            invariant
                n == array@.len(),
                array@.len() == old(array)@.len(),
                1 <= i,
                n >= 1 ==> i <= n,
                heap_ordered(array@, i as int),
                permutation(array@, old(array)@),
            decreases n - i,
        {
            sift_up(array, i, i + 1);
            i = i + 1;
        }
    }

    /// A heap of the given items.
    pub fn create(array: Vec<T>) -> (heap: Heap<T>)
        ensures
            heap.wf(),
            heap.contents() == array@.to_multiset(),
            heap.items().len() == array@.len(),
    {
        let mut array = array;
        Self::heapify(array.as_mut_slice());
        Heap { array }
    }

    /// Puts in every item of `another`.
    pub fn merge(&mut self, another: &Heap<T>)
        requires
            old(self).wf(),
        ensures
            final(self).wf(),
            final(self).contents() == old(self).contents().add(another.contents()),
    {
        broadcast use vstd::multiset::group_multiset_axioms;

        let count = another.array.len();
        let mut i: usize = 0;
        proof {
            lemma_empty_prefix(another.array@);
        }
        assert(self.contents() =~= old(self).contents().add(Multiset::empty()));
        while i < count
            invariant
                i <= count,
                count == another.array@.len(),
                self.wf(),
                self.contents() == old(self).contents().add(
                    another.array@.subrange(0, i as int).to_multiset(),
                ),
            decreases count - i,
        {
            self.push(another.array[i]);
            proof {
                assert(another.array@.subrange(0, i + 1) =~= another.array@.subrange(
                    0,
                    i as int,
                ).push(another.array@[i as int]));
                lemma_push_multiset(
                    another.array@.subrange(0, i as int),
                    another.array@[i as int],
                );
                assert(self.contents() =~= old(self).contents().add(
                    another.array@.subrange(0, i + 1).to_multiset(),
                ));
            }
            i = i + 1;
        }
        assert(another.array@.subrange(0, count as int) =~= another.array@);
    }

    /// Puts in one item.
    pub fn push(&mut self, data: T)
        requires
            old(self).wf(),
        ensures
            final(self).wf(),
            final(self).contents() == old(self).contents().insert(data),
            final(self).items().len() == old(self).items().len() + 1,
    {
        proof {
            lemma_push_multiset(self.array@, data);
        }
        self.array.push(data);
        let n = self.array.len();
        sift_up(self.array.as_mut_slice(), n - 1, n);
    }

    /// Whether the heap holds `data`.
    pub fn contains(&self, data: &T) -> (found: bool)
        ensures
            found == (self.contents().count(*data) > 0),
    {
        let n = self.array.len();
        let mut i: usize = 0;
        while i < n
            invariant
                i <= n,
                n == self.array@.len(),
                forall|k: int| 0 <= k < i ==> self.array@[k] != *data,
            decreases n - i,
        {
            if self.array[i].same(data) {
                proof {
                    assert(self.array@.contains(*data));
                    lemma_contains_count(self.array@, *data);
                }
                return true;
            }
            i = i + 1;
        }
        proof {
            assert(!self.array@.contains(*data));
            lemma_contains_count(self.array@, *data);
        }
        false
    }

    /// Whether the heap holds nothing.
    pub fn is_empty(&self) -> (empty: bool)
        ensures
            empty == (self.items().len() == 0),
            empty == (self.contents().len() == 0),
    {
        proof {
            self.array@.to_multiset_ensures();
        }
        self.array.len() == 0
    }

    /// Takes out a least item; `None` if the heap is empty.
    pub fn pop(&mut self) -> (least: Option<T>)
        requires
            old(self).wf(),
        ensures
            final(self).wf(),
            old(self).items().len() == 0 ==> least.is_none() && final(self).items() == old(
                self,
            ).items(),
            old(self).items().len() > 0 ==> least == Some(old(self).items()[0])
                && old(self).contents().count(least.unwrap()) > 0
                && old(self).all_at_least(least.unwrap().rank())
                && final(self).contents() == old(self).contents().remove(least.unwrap())
                && final(self).items().len() == old(self).items().len() - 1,
    {
        if self.array.len() == 0 {
            return None;
        }
        proof {
            self.lemma_first_is_least();
        }
        let least = self.remove_at(0);
        Some(least)
    }

    /// Takes out the item at `index` and restores the order.
    fn remove_at(&mut self, index: usize) -> (item: T)
        requires
            old(self).wf(),
            index < old(self).items().len(),
        ensures
            final(self).wf(),
            item == old(self).items()[index as int],
            final(self).contents() == old(self).contents().remove(item),
            final(self).items().len() == old(self).items().len() - 1,
    {
        let ghost before = self.array@;
        let item = self.array.swap_remove(index);
        proof {
            lemma_swap_remove(before, index as int);
            lemma_gap_closed(before, index as int);
        }
        let n = self.array.len();
        if index < n {
            if index > 0 && self.array[index].less(&self.array[(index + 1) / 2 - 1]) {
                sift_up(self.array.as_mut_slice(), index, n);
            } else {
                sift_down(self.array.as_mut_slice(), index);
            }
        }
        item
    }

    /// Takes out one occurrence of `data`, the first in storage order. Tells
    /// whether there was one.
    pub fn remove(&mut self, data: T) -> (found: bool)
        requires
            old(self).wf(),
        ensures
            final(self).wf(),
            found == (old(self).contents().count(data) > 0),
            found ==> final(self).contents() == old(self).contents().remove(data),
            found ==> final(self).contents().count(data) == old(self).contents().count(data) - 1,
            !found ==> final(self).items() == old(self).items(),
    {
        broadcast use vstd::multiset::group_multiset_axioms;

        let n = self.array.len();
        let mut index: usize = 0;
        while index < n && !self.array[index].same(&data)
            invariant
                index <= n,
                n == self.array@.len(),
                forall|k: int| 0 <= k < index ==> self.array@[k] != data,
            decreases n - index,
        {
            index = index + 1;
        }
        proof {
            lemma_contains_count(self.array@, data);
        }
        if index == n {
            assert(!self.array@.contains(data));
            false
        } else {
            assert(self.array@.contains(data));
            self.remove_at(index);
            true
        }
    }

    /// A least item, left in place; `None` if the heap is empty.
    pub fn top(&self) -> (least: Option<&T>)
        requires
            self.wf(),
        ensures
            self.items().len() == 0 ==> least.is_none(),
            self.items().len() > 0 ==> least == Some(&self.items()[0]) && self.contents().count(
                self.items()[0],
            ) > 0 && self.all_at_least(self.items()[0].rank()),
    {
        if self.array.len() == 0 {
            None
        } else {
            proof {
                self.lemma_first_is_least();
            }
            Some(&self.array[0])
        }
    }

    /// Successive pops ascend: the least item of what a pop leaves is not
    /// smaller than the item that the pop took.
    pub proof fn law_pops_ascend(before: &Heap<T>, after: &Heap<T>)
        requires
            before.wf(),
            after.wf(),
            before.items().len() > 0,
            after.items().len() > 0,
            after.contents() == before.contents().remove(before.items()[0]),
        ensures
            before.items()[0].rank() <= after.items()[0].rank(),
    {
        broadcast use vstd::multiset::group_multiset_axioms;

        let next = after.items()[0];
        lemma_contains_count(after.items(), next);
        lemma_contains_count(before.items(), next);
        assert(after.items().contains(next));
        assert(before.contents().count(next) > 0);
        assert(before.items().contains(next));
        let i = choose|i: int| 0 <= i < before.items().len() && before.items()[i] == next;
        lemma_root_is_least(before.items(), before.items().len() as int, i);
    }
}

/// Sorts the items ascending: the least of all is brought to the front by
/// making the whole a heap, then the least of the rest by making the rest a
/// heap, and so on.
pub fn heap_sort<T: Ordered>(values: Vec<T>) -> (sorted: Vec<T>)
    ensures
        ascending(sorted@),
        permutation(sorted@, values@),
        sorted@.len() == values@.len(),
{
    let mut sorted = values;
    let n = sorted.len();
    let mut i: usize = 0;
    while i < n
        invariant
            i <= n,
            n == sorted@.len(),
            n == values@.len(),
            permutation(sorted@, values@),
            forall|a: int, b: int| 0 <= a <= b < i ==> sorted@[a].rank() <= sorted@[b].rank(),
            forall|a: int, b: int| 0 <= a < i <= b < n ==> sorted@[a].rank() <= sorted@[b].rank(),
        decreases n - i,
    {
        let ghost before = sorted@;
        let (head, tail) = sorted.as_mut_slice().split_at_mut(i);
        Heap::<T>::heapify(tail);
        let ghost kept = head@;
        let ghost heaped = tail@;
        proof {
            let now = sorted@;
            let rest = now.subrange(i as int, n as int);
            assert(now == kept + heaped);
            assert(rest =~= heaped);
            assert(now.subrange(0, i as int) =~= before.subrange(0, i as int));
            assert forall|k: int| 0 <= k < i implies now[k] == before[k] by {
                assert(now.subrange(0, i as int)[k] == before.subrange(0, i as int)[k]);
            }
            lemma_range_permutation(now, before, i as int, n as int);
            assert forall|b: int| i <= b < n implies (exists|j: int|
                i <= j < n && before[j] == now[b]) && now[i as int].rank() <= now[b].rank() by {
                let j = lemma_permutation_contains(
                    rest,
                    before.subrange(i as int, n as int),
                    b - i,
                );
                assert(before[i + j] == now[b]);
                lemma_root_is_least(rest, rest.len() as int, b - i);
            }
            assert forall|a: int, b: int| 0 <= a < i <= b < n implies now[a].rank()
                <= now[b].rank() by {
                let j = choose|j: int| i <= j < n && before[j] == now[b];
                assert(before[a].rank() <= before[j].rank());
            }
        }
        i = i + 1;
    }
    sorted
}

} // verus!

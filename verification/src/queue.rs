//! A queue on top of the linked list: first in, first out.

use crate::linked_list::{LinkedList, Sequence};
use vstd::prelude::*;

verus! {

pub struct Queue<T> {
    list: LinkedList<T>,
}

/// Putting a value at the end of the line.
pub trait Enqueue<T>: Sequence<T> {
    /// Puts `data` behind the last value.
    fn enqueue(&mut self, data: &T)
        requires
            old(self).valid(),
            old(self).items().len() < usize::MAX,
        ensures
            final(self).valid(),
            final(self).items() == old(self).items().push(*data),
    ;
}

/// Taking the value at the head of the line.
pub trait Dequeue<T>: Sequence<T> {
    /// Takes out the first value; `None` if there is none.
    fn dequeue(&mut self) -> (head: Option<T>)
        requires
            old(self).valid(),
        ensures
            final(self).valid(),
            old(self).items().len() == 0 ==> head.is_none(),
            old(self).items().len() == 0 ==> final(self).items() == old(self).items(),
            old(self).items().len() > 0 ==> head == Some(old(self).items()[0]),
            old(self).items().len() > 0 ==> final(self).items() == old(self).items().drop_first(),
    ;
}

impl<T: Copy> Sequence<T> for Queue<T> {
    closed spec fn items(&self) -> Seq<T> {
        self.list@
    }

    closed spec fn valid(&self) -> bool {
        self.list.wf()
    }
}

impl<T: Copy> Queue<T> {
    /// The empty queue.
    pub fn new() -> (queue: Queue<T>)
        ensures
            queue.valid(),
            queue.items() == Seq::<T>::empty(),
    {
        Queue { list: LinkedList::<T>::new() }
    }

    /// Whether the queue holds no value.
    pub fn empty(&self) -> (none: bool)
        requires
            self.valid(),
        ensures
            none == (self.items().len() == 0),
    {
        self.list.empty()
    }

    /// Number of values.
    pub fn size(&self) -> (n: usize)
        requires
            self.valid(),
        ensures
            n == self.items().len(),
    {
        self.list.size()
    }
}

impl<T: Copy> Enqueue<T> for Queue<T> {
    fn enqueue(&mut self, data: &T) {
        self.list.insert_back(data);
    }
}

impl<T: Copy> Dequeue<T> for Queue<T> {
    fn dequeue(&mut self) -> (head: Option<T>) {
        self.list.pop_front()
    }
}

} // verus!

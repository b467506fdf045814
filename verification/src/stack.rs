//! A stack on top of the linked list: last in, first out.

use crate::linked_list::{LinkedList, Sequence};
use vstd::prelude::*;

verus! {

pub struct Stack<T> {
    list: LinkedList<T>,
}

/// Putting a value on top.
pub trait Push<T>: Sequence<T> {
    /// Puts `data` behind the last value.
    fn push(&mut self, data: &T)
        requires
            old(self).valid(),
            old(self).items().len() < usize::MAX,
        ensures
            final(self).valid(),
            final(self).items() == old(self).items().push(*data),
    ;
}

/// Taking the top value off.
pub trait Pop<T>: Sequence<T> {
    /// Takes out the last value; `None` if there is none.
    fn pop(&mut self) -> (top: Option<T>)
        requires
            old(self).valid(),
        ensures
            final(self).valid(),
            old(self).items().len() == 0 ==> top.is_none(),
            old(self).items().len() == 0 ==> final(self).items() == old(self).items(),
            old(self).items().len() > 0 ==> top == Some(old(self).items().last()),
            old(self).items().len() > 0 ==> final(self).items() == old(self).items().drop_last(),
    ;
}

impl<T: Copy> Sequence<T> for Stack<T> {
    closed spec fn items(&self) -> Seq<T> {
        self.list@
    }

    closed spec fn valid(&self) -> bool {
        self.list.wf()
    }
}

impl<T: Copy> Stack<T> {
    /// The empty stack.
    pub fn new() -> (stack: Stack<T>)
        ensures
            stack.valid(),
            stack.items() == Seq::<T>::empty(),
    {
        Stack { list: LinkedList::<T>::new() }
    }

    /// Number of values.
    pub fn size(&self) -> (n: usize)
        requires
            self.valid(),
        ensures
            n == self.items().len(),
    {
        self.list.size()
    }

    /// Whether the stack holds no value.
    pub fn is_empty(&self) -> (none: bool)
        requires
            self.valid(),
        ensures
            none == (self.items().len() == 0),
    {
        self.list.is_empty()
    }
}

impl<T: Copy> Push<T> for Stack<T> {
    fn push(&mut self, data: &T) {
        self.list.insert_back(data);
    }
}

impl<T: Copy> Pop<T> for Stack<T> {
    fn pop(&mut self) -> (top: Option<T>) {
        self.list.pop_back()
    }
}

} // verus!

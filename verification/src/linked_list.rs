//! A doubly linked list whose cells live in an arena and are linked by their
//! places in it, so that a cursor stays good while other cells come and go.
//! A cell that has left the list keeps its place in the arena and is never
//! used again: a cursor that was left on it is recognised and refused.

use crate::visitor::{accepted, refused, shown, Visitor, VisitorAcceptor};
use vstd::prelude::*;

verus! {

/// Why a list operation was refused.
#[derive(Clone, Copy, Debug, PartialEq, Eq, Structural)]
pub enum ListError {
    /// The list holds no value.
    Empty,
    /// The cursor stands on no cell of the list.
    NoPosition,
}

/// One cell of the arena. A cell that has left the list is not live.
pub struct Cell<T> {
    pub prev: Option<usize>,
    pub next: Option<usize>,
    pub live: bool,
    pub data: T,
}

impl<T: Copy> Clone for Cell<T> {
    fn clone(&self) -> (copy: Self)
        ensures
            copy == *self,
    {
        *self
    }
}

impl<T: Copy> Copy for Cell<T> {

}

/// A cursor: the place in the arena of the next cell to visit, or nothing
/// when it is past the end.
pub struct ListIterator {
    next_node: Option<usize>,
}

pub struct LinkedList<T> {
    cells: Vec<Cell<T>>,
    head: Option<usize>,
    tail: Option<usize>,
    size: usize,
    order: Ghost<Seq<usize>>,
}

/// The link to the cell at position `i` of `order`, or nothing outside it.
pub open spec fn link_at(order: Seq<usize>, i: int) -> Option<usize> {
    if 0 <= i < order.len() {
        Some(order[i])
    } else {
        None
    }
}

/// Sets the `next` link of the cell at `at`.
fn set_next<T: Copy>(cells: &mut Vec<Cell<T>>, at: usize, next: Option<usize>)
    requires
        at < old(cells)@.len(),
    ensures
        final(cells)@ == old(cells)@.update(
            at as int,
            (Cell { next, ..old(cells)@[at as int] }),
        ),
{
    let cell = cells[at];
    cells[at] = Cell { prev: cell.prev, next, live: cell.live, data: cell.data };
}

/// Sets the `prev` link of the cell at `at`.
fn set_prev<T: Copy>(cells: &mut Vec<Cell<T>>, at: usize, prev: Option<usize>)
    requires
        at < old(cells)@.len(),
    ensures
        final(cells)@ == old(cells)@.update(
            at as int,
            (Cell { prev, ..old(cells)@[at as int] }),
        ),
{
    let cell = cells[at];
    cells[at] = Cell { prev, next: cell.next, live: cell.live, data: cell.data };
}

/// Takes the cell at `at` out of use and clears its links.
fn retire<T: Copy>(cells: &mut Vec<Cell<T>>, at: usize)
    requires
        at < old(cells)@.len(),
    ensures
        final(cells)@ == old(cells)@.update(
            at as int,
            (Cell { prev: None, next: None, live: false, data: old(cells)@[at as int].data }),
        ),
{
    let cell = cells[at];
    cells[at] = Cell { prev: None, next: None, live: false, data: cell.data };
}

/// The values of the cells at the places `order` names, in that order.
pub open spec fn values<T>(cells: Seq<Cell<T>>, order: Seq<usize>) -> Seq<T> {
    Seq::new(order.len(), |i: int| cells[order[i] as int].data)
}

/// Every place that `order` names is a place of the arena, and none is named twice.
pub open spec fn places<T>(cells: Seq<Cell<T>>, order: Seq<usize>) -> bool {
    &&& forall|i: int| 0 <= i < order.len() ==> #[trigger] order[i] < cells.len()
    &&& forall|i: int, j: int|
        0 <= i < j < order.len() ==> #[trigger] order[i] != #[trigger] order[j]
}

/// The live cells are those that `order` names.
pub open spec fn live_cells<T>(cells: Seq<Cell<T>>, order: Seq<usize>) -> bool {
    &&& forall|c: int|
        0 <= c < cells.len() && (#[trigger] cells[c]).live ==> exists|i: int|
            0 <= i < order.len() && order[i] == c
    &&& forall|i: int| 0 <= i < order.len() ==> cells[(#[trigger] order[i]) as int].live
}

/// Each named cell's `prev` is the cell named before it.
pub open spec fn prev_links<T>(cells: Seq<Cell<T>>, order: Seq<usize>) -> bool {
    forall|i: int|
        0 <= i < order.len() ==> cells[(#[trigger] order[i]) as int].prev == link_at(order, i - 1)
}

/// Each named cell's `next` is the cell named after it.
pub open spec fn next_links<T>(cells: Seq<Cell<T>>, order: Seq<usize>) -> bool {
    forall|i: int|
        0 <= i < order.len() ==> cells[(#[trigger] order[i]) as int].next == link_at(order, i + 1)
}

/// The cells are linked in the order in which `order` names them.
#[verifier::opaque]
pub open spec fn linked<T>(cells: Seq<Cell<T>>, order: Seq<usize>) -> bool {
    &&& places(cells, order)
    &&& live_cells(cells, order)
    &&& prev_links(cells, order)
    &&& next_links(cells, order)
}

/// What being linked says of the cell at position `i`.
pub proof fn lemma_linked_at<T>(cells: Seq<Cell<T>>, order: Seq<usize>, i: int)
    requires
        linked(cells, order),
        0 <= i < order.len(),
    ensures
        order[i] < cells.len(),
        cells[order[i] as int].live,
        cells[order[i] as int].prev == link_at(order, i - 1),
        cells[order[i] as int].next == link_at(order, i + 1),
        forall|j: int| 0 <= j < order.len() && j != i ==> order[j] != order[i],
{
    reveal(linked);
}

/// A live cell has a position in the list.
pub proof fn lemma_live_is_linked<T>(cells: Seq<Cell<T>>, order: Seq<usize>, c: int) -> (i: int)
    requires
        linked(cells, order),
        0 <= c < cells.len(),
        cells[c].live,
    ensures
        0 <= i < order.len(),
        order[i] == c,
{
    reveal(linked);
    choose|i: int| 0 <= i < order.len() && order[i] == c
}

/// The arena after a new cell has been linked in at position `q`.
pub open spec fn cells_with<T>(
    cells: Seq<Cell<T>>,
    order: Seq<usize>,
    q: int,
    data: T,
    now: Seq<Cell<T>>,
) -> bool {
    let at = cells.len();
    &&& now.len() == at + 1
    &&& now[at as int] == (Cell {
        prev: link_at(order, q - 1),
        next: link_at(order, q),
        live: true,
        data,
    })
    &&& forall|c: int|
        0 <= c < at ==> #[trigger] now[c] == if q > 0 && c == order[q - 1] {
            Cell { next: Some(at as usize), ..cells[c] }
        } else if q < order.len() && c == order[q] {
            Cell { prev: Some(at as usize), ..cells[c] }
        } else {
            cells[c]
        }
}

/// Linking a new cell in at position `q` keeps the cells linked in order,
/// and puts the new value at position `q`.
#[verifier::rlimit(60)]
pub proof fn lemma_link_in<T>(
    cells: Seq<Cell<T>>,
    order: Seq<usize>,
    q: int,
    data: T,
    now: Seq<Cell<T>>,
)
    requires
        linked(cells, order),
        0 <= q <= order.len(),
        cells.len() <= usize::MAX,
        cells_with(cells, order, q, data, now),
    ensures
        linked(now, order.insert(q, cells.len() as usize)),
        values(now, order.insert(q, cells.len() as usize)) == values(cells, order).insert(q, data),
{
    reveal(linked);
    let at = cells.len() as usize;
    let grown = order.insert(q, at);
    assert forall|i: int| 0 <= i < grown.len() implies grown[i] == if i < q {
        order[i]
    } else if i == q {
        at
    } else {
        order[i - 1]
    } by {}
    assert(places(now, grown)) by {
        assert forall|i: int| 0 <= i < grown.len() implies #[trigger] grown[i] < now.len() by {
            if i < q {
                assert(order[i] < cells.len());
            } else if i > q {
                assert(order[i - 1] < cells.len());
            }
        }
        assert forall|i: int, j: int| 0 <= i < j < grown.len() implies #[trigger] grown[i]
            != #[trigger] grown[j] by {
            let a = if i < q {
                i
            } else {
                i - 1
            };
            let b = if j < q {
                j
            } else {
                j - 1
            };
            if i != q && j != q {
                assert(order[a] != order[b]);
            } else if i == q {
                assert(order[b] < cells.len());
            } else {
                assert(order[a] < cells.len());
            }
        }
    }
    assert(live_cells(now, grown)) by {
        assert forall|c: int| 0 <= c < now.len() && (#[trigger] now[c]).live implies exists|i: int|
            0 <= i < grown.len() && grown[i] == c by {
            if c == at {
                assert(grown[q] == c);
            } else {
                assert(cells[c].live);
                let i = choose|i: int| 0 <= i < order.len() && order[i] == c;
                if i < q {
                    assert(grown[i] == c);
                } else {
                    assert(grown[i + 1] == c);
                }
            }
        }
        assert forall|i: int| 0 <= i < grown.len() implies now[(#[trigger] grown[i]) as int].live by {
            if i < q {
                assert(cells[order[i] as int].live);
            } else if i > q {
                assert(cells[order[i - 1] as int].live);
            }
        }
    }
    assert(prev_links(now, grown)) by {
        assert forall|i: int| 0 <= i < grown.len() implies now[(#[trigger] grown[i]) as int].prev
            == link_at(grown, i - 1) by {
            if i < q {
                assert(cells[order[i] as int].prev == link_at(order, i - 1));
                if q < order.len() {
                    assert(order[i] != order[q]);
                }
            } else if i > q {
                assert(cells[order[i - 1] as int].prev == link_at(order, i - 2));
                if i - 1 > q {
                    assert(order[q] != order[i - 1]);
                }
                if q > 0 {
                    assert(order[q - 1] != order[i - 1]);
                }
            }
        }
    }
    assert(next_links(now, grown)) by {
        assert forall|i: int| 0 <= i < grown.len() implies now[(#[trigger] grown[i]) as int].next
            == link_at(grown, i + 1) by {
            if i < q {
                assert(cells[order[i] as int].next == link_at(order, i + 1));
                if i < q - 1 {
                    assert(order[i] != order[q - 1]);
                }
                if q < order.len() {
                    assert(order[i] != order[q]);
                }
            } else if i > q {
                assert(cells[order[i - 1] as int].next == link_at(order, i));
                if q > 0 {
                    assert(order[q - 1] != order[i - 1]);
                }
            }
        }
    }
    assert(values(now, grown) =~= values(cells, order).insert(q, data)) by {
        assert forall|i: int| 0 <= i < grown.len() implies values(now, grown)[i] == values(
            cells,
            order,
        ).insert(q, data)[i] by {
            if i < q {
                assert(order[i] < cells.len());
            } else if i > q {
                assert(order[i - 1] < cells.len());
            }
        }
    }
}

/// The arena after the cell at position `q`, an end of the list, has been unlinked.
pub open spec fn cells_without<T>(
    cells: Seq<Cell<T>>,
    order: Seq<usize>,
    q: int,
    now: Seq<Cell<T>>,
) -> bool {
    &&& now.len() == cells.len()
    &&& forall|c: int|
        0 <= c < cells.len() ==> #[trigger] now[c] == if c == order[q] {
            Cell { prev: None, next: None, live: false, data: cells[c].data }
        } else if q == 0 && order.len() > 1 && c == order[1] {
            Cell { prev: None, ..cells[c] }
        } else if q > 0 && c == order[q - 1] {
            Cell { next: None, ..cells[c] }
        } else {
            cells[c]
        }
}

/// Unlinking the first or the last cell keeps the others linked in order.
#[verifier::rlimit(60)]
pub proof fn lemma_unlink<T>(cells: Seq<Cell<T>>, order: Seq<usize>, q: int, now: Seq<Cell<T>>)
    requires
        linked(cells, order),
        order.len() > 0,
        q == 0 || q == order.len() - 1,
        cells_without(cells, order, q, now),
    ensures
        linked(now, order.remove(q)),
        values(now, order.remove(q)) == values(cells, order).remove(q),
{
    reveal(linked);
    let rest = order.remove(q);
    assert forall|i: int| 0 <= i < rest.len() implies rest[i] == if i < q {
        order[i]
    } else {
        order[i + 1]
    } by {}
    assert(places(now, rest)) by {
        assert forall|i: int| 0 <= i < rest.len() implies #[trigger] rest[i] < now.len() by {
            if i < q {
                assert(order[i] < cells.len());
            } else {
                assert(order[i + 1] < cells.len());
            }
        }
        assert forall|i: int, j: int| 0 <= i < j < rest.len() implies #[trigger] rest[i]
            != #[trigger] rest[j] by {
            let a = if i < q {
                i
            } else {
                i + 1
            };
            let b = if j < q {
                j
            } else {
                j + 1
            };
            assert(order[a] != order[b]);
        }
    }
    assert(live_cells(now, rest)) by {
        assert forall|c: int| 0 <= c < now.len() && (#[trigger] now[c]).live implies exists|i: int|
            0 <= i < rest.len() && rest[i] == c by {
            assert(cells[c].live);
            let i = choose|i: int| 0 <= i < order.len() && order[i] == c;
            if i < q {
                assert(rest[i] == c);
            } else {
                assert(rest[i - 1] == c);
            }
        }
        assert forall|i: int| 0 <= i < rest.len() implies now[(#[trigger] rest[i]) as int].live by {
            if i < q {
                assert(cells[order[i] as int].live);
                assert(order[i] != order[q]);
            } else {
                assert(cells[order[i + 1] as int].live);
                assert(order[i + 1] != order[q]);
            }
        }
    }
    assert(prev_links(now, rest)) by {
        assert forall|i: int| 0 <= i < rest.len() implies now[(#[trigger] rest[i]) as int].prev
            == link_at(rest, i - 1) by {
            if q == 0 {
                assert(cells[order[i + 1] as int].prev == link_at(order, i));
                assert(order[i + 1] != order[0]);
                if i > 0 {
                    assert(order[i + 1] != order[1]);
                }
            } else {
                assert(cells[order[i] as int].prev == link_at(order, i - 1));
                assert(order[i] != order[q]);
                if i < q - 1 {
                    assert(order[i] != order[q - 1]);
                }
            }
        }
    }
    assert(next_links(now, rest)) by {
        assert forall|i: int| 0 <= i < rest.len() implies now[(#[trigger] rest[i]) as int].next
            == link_at(rest, i + 1) by {
            if q == 0 {
                assert(cells[order[i + 1] as int].next == link_at(order, i + 2));
                assert(order[i + 1] != order[0]);
                if i > 0 {
                    assert(order[i + 1] != order[1]);
                }
            } else {
                assert(cells[order[i] as int].next == link_at(order, i + 1));
                assert(order[i] != order[q]);
                if i < q - 1 {
                    assert(order[i] != order[q - 1]);
                }
            }
        }
    }
    assert(values(now, rest) =~= values(cells, order).remove(q)) by {
        assert forall|i: int| 0 <= i < rest.len() implies values(now, rest)[i] == values(
            cells,
            order,
        ).remove(q)[i] by {
            if i < q {
                assert(order[i] != order[q]);
            } else {
                assert(order[i + 1] != order[q]);
            }
        }
    }
}

impl ListIterator {
    /// The arena place this cursor points to, if any.
    pub closed spec fn target(&self) -> Option<usize> {
        self.next_node
    }
}

impl<T: Copy> LinkedList<T> {
    /// The arena places of the cells of the list, from head to tail.
    pub closed spec fn order(&self) -> Seq<usize> {
        self.order@
    }

    /// The values from head to tail.
    pub closed spec fn view(&self) -> Seq<T> {
        values(self.cells@, self.order@)
    }

    /// The links of the cells agree with the order of the list: head and
    /// tail are its ends, each cell's `next` is its successor and `prev` its
    /// predecessor, and the live cells are those of the list.
    pub closed spec fn wf(&self) -> bool {
        &&& self.size == self.order@.len()
        &&& self.head == link_at(self.order@, 0)
        &&& self.tail == link_at(self.order@, self.order@.len() - 1)
        &&& linked(self.cells@, self.order@)
    }

    /// The position in the list of the cell a cursor points to; the length
    /// of the list for a cursor past the end or on a cell that left the list.
    pub closed spec fn position(&self, cursor: &ListIterator) -> int {
        match cursor.next_node {
            Some(c) => if exists|i: int| 0 <= i < self.order@.len() && self.order@[i] == c {
                choose|i: int| 0 <= i < self.order@.len() && self.order@[i] == c
            } else {
                self.order@.len() as int
            },
            None => self.order@.len() as int,
        }
    }

    /// The cursor points to the cell at position `i`, or past the end if `i`
    /// is the length of the list.
    pub closed spec fn cursor_at(&self, cursor: &ListIterator, i: int) -> bool {
        cursor.next_node == link_at(self.order@, i) && 0 <= i <= self.order@.len()
    }

    /// A cursor that stands at `i` has position `i`.
    pub proof fn lemma_cursor_position(&self, cursor: &ListIterator, i: int)
        requires
            self.wf(),
            self.cursor_at(cursor, i),
        ensures
            self.position(cursor) == i,
            0 <= i <= self@.len(),
    {
        if i < self.order@.len() {
            let p = self.position(cursor);
            assert(self.order@[i] == cursor.next_node.unwrap());
            assert(self.order@[p] == self.order@[i]);
            lemma_linked_at(self.cells@, self.order@, i);
        }
    }

    /// A cursor outlives the insertion of other cells: when a value is put in
    /// at position `q`, a cursor that stood on a cell still stands on that
    /// cell, one position further on if the new cell came before it, and
    /// will yield the same value.
    pub proof fn law_cursor_survives_insert(
        before: &LinkedList<T>,
        after: &LinkedList<T>,
        cursor: &ListIterator,
        q: int,
        value: T,
    )
        requires
            before.wf(),
            after.wf(),
            0 <= q <= before@.len(),
            after.order().len() == before.order().len() + 1,
            after.order().remove(q) == before.order(),
            after@ == before@.insert(q, value),
            before.position(cursor) < before@.len(),
        ensures
            after.position(cursor) == if before.position(cursor) < q {
                before.position(cursor)
            } else {
                before.position(cursor) + 1
            },
            after.position(cursor) < after@.len(),
            after@[after.position(cursor)] == before@[before.position(cursor)],
    {
        let p = before.position(cursor);
        let moved = if p < q {
            p
        } else {
            p + 1
        };
        let cell = cursor.next_node.unwrap();
        assert(before.order@[p] == cell);
        assert(after.order@.remove(q)[p] == after.order@[moved]);
        assert(after.order@[moved] == cell);
        lemma_linked_at(after.cells@, after.order@, moved);
        assert(after.order@[after.position(cursor)] == cell);
    }

    /// The empty list.
    pub fn new() -> (list: LinkedList<T>)
        ensures
            list.wf(),
            list@ == Seq::<T>::empty(),
    {
        let list = LinkedList {
            cells: Vec::new(),
            head: None,
            tail: None,
            size: 0,
            order: Ghost(Seq::empty()),
        };
        proof {
            reveal(linked);
            assert(list@ =~= Seq::<T>::empty());
        }
        list
    }

    /// Number of values.
    pub fn size(&self) -> (n: usize)
        requires
            self.wf(),
        ensures
            n == self@.len(),
    {
        self.size
    }

    /// A cursor on the first cell; past the end if the list is empty.
    pub fn iter(&self) -> (cursor: ListIterator)
        requires
            self.wf(),
        ensures
            self.cursor_at(&cursor, 0),
            self.position(&cursor) == 0,
    {
        let cursor = ListIterator { next_node: self.head };
        proof {
            self.lemma_cursor_position(&cursor, 0);
        }
        cursor
    }

    /// Whether the list holds no value.
    pub fn empty(&self) -> (none: bool)
        requires
            self.wf(),
        ensures
            none == (self@.len() == 0),
    {
        self.head.is_none()
    }

    /// Whether the list holds no value.
    pub fn is_empty(&self) -> (none: bool)
        requires
            self.wf(),
        ensures
            none == (self@.len() == 0),
    {
        self.empty()
    }

    /// Number of cells met on the way from the head along `next`.
    pub fn count_front(&self) -> (n: usize)
        requires
            self.wf(),
        ensures
            n == self@.len(),
    {
        let mut node = self.head;
        let mut n: usize = 0;
        while node.is_some()
            invariant
                self.wf(),
                0 <= n <= self.order@.len(),
                node == link_at(self.order@, n as int),
            decreases self.order@.len() - n,
        {
            let at = node.unwrap();
            proof {
                lemma_linked_at(self.cells@, self.order@, n as int);
            }
            node = self.cells[at].next;
            n = n + 1;
        }
        n
    }

    /// Number of cells met on the way from the tail along `prev`.
    pub fn count_back(&self) -> (n: usize)
        requires
            self.wf(),
        ensures
            n == self@.len(),
    {
        let mut node = self.tail;
        let mut n: usize = 0;
        while node.is_some()
            invariant
                self.wf(),
                0 <= n <= self.order@.len(),
                node == link_at(self.order@, self.order@.len() - 1 - n),
            decreases self.order@.len() - n,
        {
            let at = node.unwrap();
            proof {
                lemma_linked_at(self.cells@, self.order@, self.order@.len() - 1 - n);
            }
            node = self.cells[at].prev;
            n = n + 1;
        }
        n
    }

    /// The first value, left in place.
    pub fn front(&self) -> (value: Result<T, ListError>)
        requires
            self.wf(),
        ensures
            self@.len() == 0 ==> value == Err::<T, ListError>(ListError::Empty),
            self@.len() > 0 ==> value == Ok::<T, ListError>(self@[0]),
    {
        match self.head {
            Some(at) => {
                proof {
                    lemma_linked_at(self.cells@, self.order@, 0);
                }
                Ok(self.cells[at].data)
            },
            None => Err(ListError::Empty),
        }
    }

    /// The last value, left in place.
    pub fn back(&self) -> (value: Result<T, ListError>)
        requires
            self.wf(),
        ensures
            self@.len() == 0 ==> value == Err::<T, ListError>(ListError::Empty),
            self@.len() > 0 ==> value == Ok::<T, ListError>(self@.last()),
    {
        match self.tail {
            Some(at) => {
                proof {
                    lemma_linked_at(self.cells@, self.order@, self.order@.len() - 1);
                }
                Ok(self.cells[at].data)
            },
            None => Err(ListError::Empty),
        }
    }

    /// Links a new cell in at position `q`, between the cells `prev` and `next`.
    #[verifier::rlimit(60)]
    fn link_in(&mut self, Ghost(q): Ghost<int>, prev: Option<usize>, next: Option<usize>, data: T)
        requires
            old(self).wf(),
            old(self)@.len() < usize::MAX,
            0 <= q <= old(self)@.len(),
            prev == link_at(old(self).order(), q - 1),
            next == link_at(old(self).order(), q),
        ensures
            final(self).wf(),
            final(self)@ == old(self)@.insert(q, data),
            final(self).order().len() == old(self).order().len() + 1,
            final(self).order().remove(q) == old(self).order(),
    {
        let ghost order = self.order@;
        let ghost cells = self.cells@;
        let at = self.cells.len();
        self.cells.push(Cell { prev, next, live: true, data });
        match prev {
            Some(before) => {
                proof {
                    lemma_linked_at(cells, order, q - 1);
                }
                set_next(&mut self.cells, before, Some(at));
            },
            None => {
                self.head = Some(at);
            },
        }
        match next {
            Some(after) => {
                proof {
                    lemma_linked_at(cells, order, q);
                }
                set_prev(&mut self.cells, after, Some(at));
            },
            None => {
                self.tail = Some(at);
            },
        }
        self.size = self.size + 1;
        self.order = Ghost(order.insert(q, at));
        proof {
            if q > 0 {
                lemma_linked_at(cells, order, q - 1);
            }
            if q < order.len() {
                lemma_linked_at(cells, order, q);
            }
            assert(cells_with(cells, order, q, data, self.cells@));
            lemma_link_in(cells, order, q, data, self.cells@);
            assert(self.order@.remove(q) =~= order);
            if q > 0 {
                assert(self.order@[0] == order[0]);
            }
            if q < order.len() {
                assert(self.order@[self.order@.len() - 1] == order[order.len() - 1]);
            }
        }
    }

    /// Unlinks the cell at position `q`, the first or the last of the list.
    #[verifier::rlimit(60)]
    fn unlink(&mut self, front: bool, at: usize) -> (data: T)
        requires
            old(self).wf(),
            old(self)@.len() > 0,
            Some(at) == link_at(
                old(self).order(),
                if front {
                    0
                } else {
                    old(self)@.len() - 1
                },
            ),
        ensures
            final(self).wf(),
            front ==> data == old(self)@[0],
            front ==> final(self)@ == old(self)@.remove(0),
            front ==> final(self).order() == old(self).order().remove(0),
            !front ==> data == old(self)@.last() && final(self)@ == old(self)@.remove(
                old(self)@.len() - 1,
            ) && final(self).order() == old(self).order().remove(old(self)@.len() - 1),
    {
        let ghost order = self.order@;
        let ghost q: int = if front {
            0
        } else {
            order.len() - 1
        };
        let ghost cells = self.cells@;
        proof {
            lemma_linked_at(cells, order, q);
            if order.len() > 1 {
                lemma_linked_at(
                    cells,
                    order,
                    if front {
                        1
                    } else {
                        q - 1
                    },
                );
            }
        }
        let cell = self.cells[at];
        if front {
            match cell.next {
                Some(second) => {
                    set_prev(&mut self.cells, second, None);
                },
                None => {
                    self.tail = None;
                },
            }
            self.head = cell.next;
        } else {
            match cell.prev {
                Some(second) => {
                    set_next(&mut self.cells, second, None);
                },
                None => {
                    self.head = None;
                },
            }
            self.tail = cell.prev;
        }
        retire(&mut self.cells, at);
        self.size = self.size - 1;
        self.order = Ghost(order.remove(q));
        proof {
            assert(cells_without(cells, order, q, self.cells@));
            lemma_unlink(cells, order, q, self.cells@);
            if q == 0 {
                if order.len() > 1 {
                    assert(self.order@[0] == order[1]);
                    assert(self.order@[self.order@.len() - 1] == order[order.len() - 1]);
                }
            } else {
                assert(self.order@[0] == order[0]);
                assert(self.order@[self.order@.len() - 1] == order[q - 1]);
            }
        }
        cell.data
    }

    /// Puts `data` behind the last value.
    pub fn insert_back(&mut self, data: &T)
        requires
            old(self).wf(),
            old(self)@.len() < usize::MAX,
        ensures
            final(self).wf(),
            final(self)@ == old(self)@.push(*data),
            final(self).order().len() == old(self).order().len() + 1,
            final(self).order().drop_last() == old(self).order(),
    {
        let ghost n = self.order@.len() as int;
        self.link_in(Ghost(n), self.tail, None, *data);
        proof {
            assert(old(self)@.insert(n, *data) =~= old(self)@.push(*data));
            assert(self.order().drop_last() =~= self.order().remove(n));
        }
    }

    /// Puts `data` before the first value.
    pub fn insert_front(&mut self, data: &T)
        requires
            old(self).wf(),
            old(self)@.len() < usize::MAX,
        ensures
            final(self).wf(),
            final(self)@ == seq![*data] + old(self)@,
            final(self).order().len() == old(self).order().len() + 1,
            final(self).order().drop_first() == old(self).order(),
    {
        self.link_in(Ghost(0), None, self.head, *data);
        proof {
            assert(old(self)@.insert(0, *data) =~= seq![*data] + old(self)@);
            assert(self.order().drop_first() =~= self.order().remove(0));
        }
    }

    /// Takes out the first value; `None` if the list is empty.
    pub fn pop_front(&mut self) -> (value: Option<T>)
        requires
            old(self).wf(),
        ensures
            final(self).wf(),
            old(self)@.len() == 0 ==> value.is_none() && final(self)@ == old(self)@,
            old(self)@.len() > 0 ==> value == Some(old(self)@[0]),
            old(self)@.len() > 0 ==> final(self)@ == old(self)@.drop_first(),
            old(self)@.len() > 0 ==> final(self).order() == old(self).order().drop_first(),
    {
        match self.head {
            None => None,
            Some(first) => {
                let data = self.unlink(true, first);
                proof {
                    assert(old(self)@.remove(0) =~= old(self)@.drop_first());
                    assert(old(self).order().remove(0) =~= old(self).order().drop_first());
                }
                Some(data)
            },
        }
    }

    /// Takes out the last value; `None` if the list is empty.
    pub fn pop_back(&mut self) -> (value: Option<T>)
        requires
            old(self).wf(),
        ensures
            final(self).wf(),
            old(self)@.len() == 0 ==> value.is_none() && final(self)@ == old(self)@,
            old(self)@.len() > 0 ==> value == Some(old(self)@.last()),
            old(self)@.len() > 0 ==> final(self)@ == old(self)@.drop_last(),
            old(self)@.len() > 0 ==> final(self).order() == old(self).order().drop_last(),
    {
        match self.tail {
            None => None,
            Some(last) => {
                let ghost q = self.order@.len() - 1;
                let data = self.unlink(false, last);
                proof {
                    assert(old(self)@.remove(q) =~= old(self)@.drop_last());
                    assert(old(self).order().remove(q) =~= old(self).order().drop_last());
                }
                Some(data)
            },
        }
    }

    /// Whether the cursor points to a cell of the list.
    fn on_cell(&self, cursor: &ListIterator) -> (on: bool)
        requires
            self.wf(),
        ensures
            on == (self.position(cursor) < self@.len()),
            on ==> cursor.target().is_some() && self.cursor_at(cursor, self.position(cursor)),
    {
        match cursor.next_node {
            None => false,
            Some(at) => {
                if at < self.cells.len() {
                    proof {
                        if self.cells@[at as int].live {
                            let i = lemma_live_is_linked(self.cells@, self.order@, at as int);
                        } else if self.position(cursor) < self.order@.len() {
                            lemma_linked_at(self.cells@, self.order@, self.position(cursor));
                        }
                    }
                    self.cells[at].live
                } else {
                    proof {
                        if self.position(cursor) < self.order@.len() {
                            lemma_linked_at(self.cells@, self.order@, self.position(cursor));
                        }
                    }
                    false
                }
            },
        }
    }

    /// Puts `data` behind the cell the cursor points to. A cursor that
    /// points to no cell of the list is refused and the list stays as it is.
    pub fn insert_after(&mut self, iterator: &ListIterator, data: &T) -> (done: Result<
        (),
        ListError,
    >)
        requires
            old(self).wf(),
            old(self)@.len() < usize::MAX,
        ensures
            final(self).wf(),
            old(self).position(iterator) < old(self)@.len() ==> done.is_ok(),
            old(self).position(iterator) < old(self)@.len() ==> final(self)@ == old(self)@.insert(
                old(self).position(iterator) + 1,
                *data,
            ),
            old(self).position(iterator) < old(self)@.len() ==> final(self).order().len() == old(self).order().len() + 1,
            old(self).position(iterator) < old(self)@.len() ==> final(self).order().remove(
                old(self).position(iterator) + 1,
            ) == old(self).order(),
            old(self).position(iterator) >= old(self)@.len() ==> done == Err::<(), ListError>(
                ListError::NoPosition,
            ),
            old(self).position(iterator) >= old(self)@.len() ==> final(self)@ == old(self)@,
            old(self).position(iterator) >= old(self)@.len() ==> final(self).order() == old(self).order(),
    {
        if !self.on_cell(iterator) {
            return Err(ListError::NoPosition);
        }
        let ghost p = self.position(iterator);
        let cursor = iterator.next_node.unwrap();
        proof {
            lemma_linked_at(self.cells@, self.order@, p);
        }
        let after = self.cells[cursor].next;
        self.link_in(Ghost(p + 1), Some(cursor), after, *data);
        Ok(())
    }

    /// Puts `data` before the cell the cursor points to. A cursor that
    /// points to no cell of the list is refused and the list stays as it is.
    pub fn insert_before(&mut self, iterator: &ListIterator, data: &T) -> (done: Result<
        (),
        ListError,
    >)
        requires
            old(self).wf(),
            old(self)@.len() < usize::MAX,
        ensures
            final(self).wf(),
            old(self).position(iterator) < old(self)@.len() ==> done.is_ok(),
            old(self).position(iterator) < old(self)@.len() ==> final(self)@ == old(self)@.insert(
                old(self).position(iterator),
                *data,
            ),
            old(self).position(iterator) < old(self)@.len() ==> final(self).order().len() == old(self).order().len() + 1,
            old(self).position(iterator) < old(self)@.len() ==> final(self).order().remove(
                old(self).position(iterator),
            ) == old(self).order(),
            old(self).position(iterator) >= old(self)@.len() ==> done == Err::<(), ListError>(
                ListError::NoPosition,
            ),
            old(self).position(iterator) >= old(self)@.len() ==> final(self)@ == old(self)@,
            old(self).position(iterator) >= old(self)@.len() ==> final(self).order() == old(self).order(),
    {
        if !self.on_cell(iterator) {
            return Err(ListError::NoPosition);
        }
        let ghost p = self.position(iterator);
        let cursor = iterator.next_node.unwrap();
        proof {
            lemma_linked_at(self.cells@, self.order@, p);
        }
        let ahead = self.cells[cursor].prev;
        self.link_in(Ghost(p), ahead, Some(cursor), *data);
        Ok(())
    }
}

impl ListIterator {
    /// Yields the value of the cell the cursor points to and moves the
    /// cursor to the next cell; yields nothing when the cursor points to no
    /// cell of the list, and leaves it past the end.
    pub fn next<T: Copy>(&mut self, list: &LinkedList<T>) -> (value: Option<T>)
        requires
            list.wf(),
        ensures
            list.position(old(self)) < list@.len() ==> value == Some(
                list@[list.position(old(self))],
            ),
            list.position(old(self)) < list@.len() ==> list.cursor_at(
                final(self),
                list.position(old(self)) + 1,
            ),
            list.position(old(self)) < list@.len() ==> list.position(final(self)) == list.position(
                old(self),
            ) + 1,
            list.position(old(self)) >= list@.len() ==> value.is_none(),
            list.position(old(self)) >= list@.len() ==> final(self).target().is_none(),
            list.position(old(self)) >= list@.len() ==> list.position(final(self)) == list@.len(),
    {
        if list.on_cell(self) {
            let ghost p = list.position(self);
            let at = self.next_node.unwrap();
            proof {
                lemma_linked_at(list.cells@, list.order@, p);
            }
            let cell = list.cells[at];
            self.next_node = cell.next;
            proof {
                list.lemma_cursor_position(self, p + 1);
            }
            Some(cell.data)
        } else {
            self.next_node = None;
            None
        }
    }
}

/// Putting another value into a cell leaves the cells linked as they were.
pub proof fn lemma_data_is_free<T>(cells: Seq<Cell<T>>, order: Seq<usize>, at: int, data: T)
    requires
        linked(cells, order),
        0 <= at < cells.len(),
    ensures
        linked(cells.update(at, (Cell { data, ..cells[at] })), order),
{
    reveal(linked);
    let now = cells.update(at, (Cell { data, ..cells[at] }));
    assert forall|c: int| 0 <= c < now.len() && (#[trigger] now[c]).live implies exists|i: int|
        0 <= i < order.len() && order[i] == c by {
        assert(cells[c].live);
    }
}

impl<T: Copy, E> VisitorAcceptor<T, E> for LinkedList<T> {
    open spec fn ready(&self) -> bool {
        self.wf()
    }

    open spec fn values(&self) -> Seq<T> {
        self@
    }

    open spec fn took(&self, before: &Self, answers: Seq<T>) -> bool {
        self@ == answers && self.order() == before.order()
    }

    /// Shows every value to the visitor, from head to tail, and puts the
    /// visitor's answers in their places; cursors stay where they are. At
    /// the first error the visit ends and the list stays as it was.
    #[verifier::rlimit(60)]
    fn accept<V: Visitor<T, E>>(&mut self, visitor: &mut V) -> (done: Result<(), E>)
        ensures
            final(self).order() == old(self).order(),
            final(self)@.len() == old(self)@.len(),
            done.is_err() ==> final(self)@ == old(self)@,
    {
        let mut answers: Vec<T> = Vec::new();
        let ghost mut states: Seq<V> = seq![*visitor];
        let mut node = self.head;
        while node.is_some()
            invariant
                self.wf(),
                *self == *old(self),
                answers@.len() <= self.order@.len(),
                node == link_at(self.order@, answers@.len() as int),
                shown::<T, E, V>(states, self@.take(answers@.len() as int), answers@),
                states.first() == *old(visitor),
                states.last() == *visitor,
            decreases self.order@.len() - answers@.len(),
        {
            let at = node.unwrap();
            let ghost n = answers@.len() as int;
            let ghost so_far = states;
            let ghost given = answers@;
            proof {
                lemma_linked_at(self.cells@, self.order@, n);
                assert(self@[n] == self.cells@[at as int].data);
            }
            match visitor.visit(&self.cells[at].data) {
                Ok(answer) => {
                    answers.push(answer);
                    proof {
                        states = so_far.push(*visitor);
                        assert forall|i: int| 0 <= i < n + 1 implies states[i].may_answer(
                            self@.take(n + 1)[i],
                            &states[i + 1],
                            Ok::<T, E>(#[trigger] answers@[i]),
                        ) by {
                            if i < n {
                                assert(given[i] == answers@[i]);
                                assert(self@.take(n)[i] == self@.take(n + 1)[i]);
                            }
                        }
                    }
                },
                Err(error) => {
                    proof {
                        assert(shown::<T, E, V>(so_far, self@.take(given.len() as int), given));
                        assert(refused::<T, E, V>(*old(visitor), self@, *visitor, error));
                    }
                    return Err(error);
                },
            }
            node = self.cells[at].next;
        }
        proof {
            assert(self@.take(answers@.len() as int) =~= self@);
            reveal(linked);
        }
        let mut k: usize = 0;
        let mut node = self.head;
        while node.is_some()
            invariant
                self.wf(),
                self.order@ == old(self).order@,
                answers@.len() == self.order@.len(),
                k <= answers@.len(),
                node == link_at(self.order@, k as int),
                places(self.cells@, self.order@),
                forall|j: int|
                    0 <= j < k ==> self.cells@[(#[trigger] self.order@[j]) as int].data
                        == answers@[j],
                shown::<T, E, V>(states, old(self)@, answers@),
                states.first() == *old(visitor),
                states.last() == *visitor,
            decreases self.order@.len() - k,
        {
            let at = node.unwrap();
            proof {
                lemma_linked_at(self.cells@, self.order@, k as int);
                lemma_data_is_free(self.cells@, self.order@, at as int, answers@[k as int]);
            }
            let cell = self.cells[at];
            self.cells[at] = Cell { prev: cell.prev, next: cell.next, live: cell.live, data: answers[k] };
            node = cell.next;
            k = k + 1;
        }
        proof {
            assert(self@ =~= answers@);
            assert(accepted::<T, E, V>(
                *old(visitor),
                <LinkedList<T> as VisitorAcceptor<T, E>>::values(old(self)),
                *visitor,
                answers@,
            ));
            assert(<LinkedList<T> as VisitorAcceptor<T, E>>::took(self, old(self), answers@));
        }
        Ok(())
    }
}

/// A container that holds values in a row.
pub trait Sequence<T> {
    /// The values, first to last.
    spec fn items(&self) -> Seq<T>;

    /// What the container must satisfy before and after every operation.
    spec fn valid(&self) -> bool;
}

} // verus!

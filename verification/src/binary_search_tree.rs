//! An unbalanced binary search tree over ordered keys.

use crate::order::{lemma_strictly_ascending_unique, strictly_ascending, Ordered};
use crate::sequences::lemma_joined_contains;
use vstd::prelude::*;

verus! {

pub struct Node<T> {
    pub left: Option<Box<Node<T>>>,
    pub right: Option<Box<Node<T>>>,
    pub data: T,
}

/// The keys of a subtree.
pub open spec fn keys<T>(link: Option<Box<Node<T>>>) -> Set<T>
    decreases link,
{
    match link {
        None => Set::empty(),
        Some(node) => keys(node.left).union(keys(node.right)).insert(node.data),
    }
}

/// Number of nodes of a subtree.
pub open spec fn count<T>(link: Option<Box<Node<T>>>) -> nat
    decreases link,
{
    match link {
        None => 0,
        Some(node) => 1 + count(node.left) + count(node.right),
    }
}

/// Number of nodes on the longest way down; 0 for the empty subtree.
pub open spec fn height<T>(link: Option<Box<Node<T>>>) -> nat
    decreases link,
{
    match link {
        None => 0,
        Some(node) => 1 + if height(node.left) >= height(node.right) {
            height(node.left)
        } else {
            height(node.right)
        },
    }
}

/// Every key on the left of a node is smaller than the node's key, every key
/// on the right greater, at every node.
pub open spec fn ordered<T: Ordered>(link: Option<Box<Node<T>>>) -> bool
    decreases link,
{
    match link {
        None => true,
        Some(node) => {
            &&& ordered(node.left)
            &&& ordered(node.right)
            &&& forall|k: T| keys(node.left).contains(k) ==> k.rank() < node.data.rank()
            &&& forall|k: T| keys(node.right).contains(k) ==> node.data.rank() < k.rank()
        },
    }
}

/// The keys of a subtree from left to right.
pub open spec fn in_order<T>(link: Option<Box<Node<T>>>) -> Seq<T>
    decreases link,
{
    match link {
        None => Seq::empty(),
        Some(node) => in_order(node.left).push(node.data) + in_order(node.right),
    }
}

/// A subtree as a node with its two subtrees.
pub open spec fn join<T>(left: Option<Box<Node<T>>>, data: T, right: Option<Box<Node<T>>>) -> Option<
    Box<Node<T>>,
> {
    Some(Box::new(Node { left, right, data }))
}

/// The subtree after `k` has been inserted: a key that is there changes
/// nothing; a new key becomes a leaf at the place where the search for it ends.
pub open spec fn inserted<T: Ordered>(link: Option<Box<Node<T>>>, k: T) -> Option<Box<Node<T>>>
    decreases link,
{
    match link {
        None => join(None, k, None),
        Some(node) => if k == node.data {
            link
        } else if k.rank() < node.data.rank() {
            join(inserted(node.left, k), node.data, node.right)
        } else {
            join(node.left, node.data, inserted(node.right, k))
        },
    }
}

/// The key of the rightmost node of a subtree, its greatest key.
pub open spec fn max_key<T>(node: Node<T>) -> T
    decreases node,
{
    match node.right {
        None => node.data,
        Some(right) => max_key(*right),
    }
}

/// The subtree without its rightmost node, whose left subtree takes its place.
pub open spec fn without_max<T>(node: Node<T>) -> Option<Box<Node<T>>>
    decreases node,
{
    match node.right {
        None => node.left,
        Some(right) => join(node.left, node.data, without_max(*right)),
    }
}

/// The subtree after `k` has been removed. A node without children goes; a
/// node with one child gives way to that child; a node with two children
/// gets the greatest key of its left subtree, which leaves that subtree.
pub open spec fn removed<T: Ordered>(link: Option<Box<Node<T>>>, k: T) -> Option<Box<Node<T>>>
    decreases link,
{
    match link {
        None => None,
        Some(node) => if k == node.data {
            match node.left {
                None => node.right,
                Some(left) => if node.right.is_none() {
                    node.left
                } else {
                    join(without_max(*left), max_key(*left), node.right)
                },
            }
        } else if node.data.rank() < k.rank() {
            join(node.left, node.data, removed(node.right, k))
        } else {
            join(removed(node.left, k), node.data, node.right)
        },
    }
}

/// The nodes that stand `depth` steps below the top of a subtree, from left to right.
pub open spec fn nodes_at_depth<T>(link: Option<Box<Node<T>>>, depth: nat) -> Seq<Node<T>>
    decreases link,
{
    match link {
        None => Seq::empty(),
        Some(node) => if depth == 0 {
            seq![*node]
        } else {
            nodes_at_depth(node.left, (depth - 1) as nat) + nodes_at_depth(
                node.right,
                (depth - 1) as nat,
            )
        },
    }
}

/// The keys of a row of nodes.
pub open spec fn keys_of<T>(nodes: Seq<Node<T>>) -> Seq<T> {
    nodes.map_values(|node: Node<T>| node.data)
}

/// The keys that stand `depth` steps below the top of a subtree, from left to right.
pub open spec fn keys_at_depth<T>(link: Option<Box<Node<T>>>, depth: nat) -> Seq<T> {
    keys_of(nodes_at_depth(link, depth))
}

/// The children of one node, the left one first.
pub open spec fn kids<T>(node: Node<T>) -> Seq<Node<T>> {
    nodes_at_depth(node.left, 0) + nodes_at_depth(node.right, 0)
}

/// The children of a row of nodes, in the order of their parents.
pub open spec fn children<T>(nodes: Seq<Node<T>>) -> Seq<Node<T>>
    decreases nodes.len(),
{
    if nodes.len() == 0 {
        Seq::empty()
    } else {
        children(nodes.drop_last()) + kids(nodes.last())
    }
}

/// Number of nodes that stand fewer than `depth` steps below the top.
pub open spec fn count_above<T>(link: Option<Box<Node<T>>>, depth: nat) -> nat
    decreases link,
{
    match link {
        None => 0,
        Some(node) => if depth == 0 {
            0
        } else {
            1 + count_above(node.left, (depth - 1) as nat) + count_above(
                node.right,
                (depth - 1) as nat,
            )
        },
    }
}

/// The keys level by level down to `depth` levels, each level from left to right.
pub open spec fn level_order_upto<T>(link: Option<Box<Node<T>>>, depth: nat) -> Seq<T>
    decreases depth,
{
    if depth == 0 {
        Seq::empty()
    } else {
        level_order_upto(link, (depth - 1) as nat) + keys_at_depth(link, (depth - 1) as nat)
    }
}

/// The keys in breadth-first order.
pub open spec fn level_order<T>(link: Option<Box<Node<T>>>) -> Seq<T> {
    level_order_upto(link, height(link))
}

/// The subtree holds finitely many keys, at most one per node, and is no
/// higher than it has nodes.
pub proof fn lemma_keys_finite<T>(link: Option<Box<Node<T>>>)
    ensures
        keys(link).finite(),
        keys(link).len() <= count(link),
        height(link) <= count(link),
    decreases link,
{
    if let Some(node) = link {
        lemma_keys_finite(node.left);
        lemma_keys_finite(node.right);
        vstd::set_lib::lemma_set_union_finite_iff(keys(node.left), keys(node.right));
        vstd::set_lib::lemma_len_union(keys(node.left), keys(node.right));
    }
}

/// An ordered subtree holds no key twice: it has as many keys as nodes.
pub proof fn lemma_ordered_count<T: Ordered>(link: Option<Box<Node<T>>>)
    requires
        ordered(link),
    ensures
        keys(link).finite(),
        keys(link).len() == count(link),
    decreases link,
{
    if let Some(node) = link {
        lemma_ordered_count(node.left);
        lemma_ordered_count(node.right);
        lemma_keys_finite(node.left);
        lemma_keys_finite(node.right);
        let l = keys(node.left);
        let r = keys(node.right);
        assert(l.disjoint(r)) by {
            assert forall|k: T| !(l.contains(k) && r.contains(k)) by {}
        }
        vstd::set_lib::lemma_set_disjoint_lens(l, r);
        vstd::set_lib::lemma_set_union_finite_iff(l, r);
        assert(!(l + r).contains(node.data));
        vstd::set::axiom_set_insert_len(l + r, node.data);
        assert(l + r == l.union(r));
    }
}

/// The in-order sequence of an ordered subtree is strictly ascending and
/// holds exactly the keys of the subtree, one place per node.
pub proof fn lemma_in_order<T: Ordered>(link: Option<Box<Node<T>>>)
    requires
        ordered(link),
    ensures
        strictly_ascending(in_order(link)),
        in_order(link).len() == count(link),
        forall|k: T| in_order(link).contains(k) <==> keys(link).contains(k),
    decreases link,
{
    if let Some(node) = link {
        lemma_in_order(node.left);
        lemma_in_order(node.right);
        let l = in_order(node.left);
        let r = in_order(node.right);
        let s = in_order(link);
        assert(s == l.push(node.data) + r);
        assert forall|k: T| s.contains(k) <==> keys(link).contains(k) by {
            if s.contains(k) {
                let i = choose|i: int| 0 <= i < s.len() && s[i] == k;
                if i < l.len() {
                    assert(l[i] == k);
                    assert(l.contains(k));
                } else if i > l.len() {
                    assert(r[i - l.len() - 1] == k);
                    assert(r.contains(k));
                }
            }
            if keys(node.left).contains(k) {
                assert(l.contains(k));
                let i = choose|i: int| 0 <= i < l.len() && l[i] == k;
                assert(s[i] == k);
            }
            if keys(node.right).contains(k) {
                assert(r.contains(k));
                let i = choose|i: int| 0 <= i < r.len() && r[i] == k;
                assert(s[l.len() + 1 + i] == k);
            }
            if k == node.data {
                assert(s[l.len() as int] == k);
            }
        }
        assert forall|i: int, j: int| 0 <= i < j < s.len() implies s[i].rank() < s[j].rank() by {
            if i < l.len() {
                assert(l.contains(s[i]));
            } else if i > l.len() {
                assert(r[i - l.len() - 1] == s[i]);
                assert(r.contains(s[i]));
            }
            if j < l.len() {
                assert(l.contains(s[j]));
            } else if j > l.len() {
                assert(r[j - l.len() - 1] == s[j]);
                assert(r.contains(s[j]));
            }
        }
    }
}

/// The children of two rows put together are the children of the first
/// followed by those of the second.
pub proof fn lemma_children_of_joined<T>(a: Seq<Node<T>>, b: Seq<Node<T>>)
    ensures
        children(a + b) == children(a) + children(b),
    decreases b.len(),
{
    if b.len() == 0 {
        assert(a + b =~= a);
        assert(children(a) + children(b) =~= children(a));
    } else {
        lemma_children_of_joined(a, b.drop_last());
        assert((a + b).drop_last() =~= a + b.drop_last());
        assert((a + b).last() == b.last());
        assert(children(a) + (children(b.drop_last()) + kids(b.last())) =~= (children(a)
            + children(b.drop_last())) + kids(b.last()));
    }
}

/// The children of the nodes of one level are the nodes of the next level.
pub proof fn lemma_next_level<T>(link: Option<Box<Node<T>>>, depth: nat)
    ensures
        children(nodes_at_depth(link, depth)) == nodes_at_depth(link, depth + 1),
    decreases link,
{
    match link {
        None => {},
        Some(node) => {
            if depth == 0 {
                let row = seq![*node];
                assert(row.drop_last() =~= Seq::<Node<T>>::empty());
                assert(children(row.drop_last()) =~= Seq::<Node<T>>::empty());
                assert(children(row) =~= kids(*node));
            } else {
                let d = (depth - 1) as nat;
                lemma_next_level(node.left, d);
                lemma_next_level(node.right, d);
                lemma_children_of_joined(nodes_at_depth(node.left, d), nodes_at_depth(node.right, d));
            }
        },
    }
}

/// A level holds no node exactly from the height of the subtree on.
pub proof fn lemma_level_empty<T>(link: Option<Box<Node<T>>>, depth: nat)
    ensures
        (nodes_at_depth(link, depth).len() == 0) == (depth >= height(link)),
    decreases link,
{
    if let Some(node) = link {
        if depth > 0 {
            lemma_level_empty(node.left, (depth - 1) as nat);
            lemma_level_empty(node.right, (depth - 1) as nat);
        }
    }
}

/// The nodes above a depth are those above the depth before and those at it;
/// from the height on they are all the nodes.
pub proof fn lemma_count_above<T>(link: Option<Box<Node<T>>>, depth: nat)
    ensures
        count_above(link, depth + 1) == count_above(link, depth) + nodes_at_depth(link, depth).len(),
        depth >= height(link) ==> count_above(link, depth) == count(link),
    decreases link,
{
    if let Some(node) = link {
        if depth > 0 {
            lemma_count_above(node.left, (depth - 1) as nat);
            lemma_count_above(node.right, (depth - 1) as nat);
        } else {
            assert(count_above(node.left, 0) == 0);
            assert(count_above(node.right, 0) == 0);
        }
    }
}

/// The first `depth` levels hold as many keys as there are nodes above `depth`.
pub proof fn lemma_level_order_upto_len<T>(link: Option<Box<Node<T>>>, depth: nat)
    ensures
        level_order_upto(link, depth).len() == count_above(link, depth),
    decreases depth,
{
    if depth > 0 {
        lemma_level_order_upto_len(link, (depth - 1) as nat);
        lemma_count_above(link, (depth - 1) as nat);
    }
}

/// A key of a subtree stands at some depth below its height.
pub proof fn lemma_key_has_depth<T>(link: Option<Box<Node<T>>>, k: T) -> (depth: nat)
    requires
        keys(link).contains(k),
    ensures
        depth < height(link),
        keys_at_depth(link, depth).contains(k),
    decreases link,
{
    let node = link.unwrap();
    if k == node.data {
        assert(keys_at_depth(link, 0)[0] == k);
        0
    } else {
        let inner = if keys(node.left).contains(k) {
            lemma_key_has_depth(node.left, k)
        } else {
            lemma_key_has_depth(node.right, k)
        };
        let l = nodes_at_depth(node.left, inner);
        let r = nodes_at_depth(node.right, inner);
        assert(keys_of(l + r) =~= keys_of(l) + keys_of(r));
        lemma_joined_contains(keys_of(l), keys_of(r), k);
        inner + 1
    }
}

/// What stands at some depth of a subtree is one of its keys.
pub proof fn lemma_depth_holds_keys<T>(link: Option<Box<Node<T>>>, depth: nat, k: T)
    requires
        keys_at_depth(link, depth).contains(k),
    ensures
        keys(link).contains(k),
    decreases link,
{
    match link {
        None => {},
        Some(node) => {
            if depth == 0 {
                assert(keys_at_depth(link, 0)[0] == node.data);
            } else {
                let inner = (depth - 1) as nat;
                let l = nodes_at_depth(node.left, inner);
                let r = nodes_at_depth(node.right, inner);
                assert(keys_of(l + r) =~= keys_of(l) + keys_of(r));
                lemma_joined_contains(keys_of(l), keys_of(r), k);
                if keys_of(l).contains(k) {
                    lemma_depth_holds_keys(node.left, inner, k);
                } else {
                    lemma_depth_holds_keys(node.right, inner, k);
                }
            }
        },
    }
}

/// The first `depth` levels hold what stands at a depth below `depth`.
pub proof fn lemma_level_order_upto_holds<T>(link: Option<Box<Node<T>>>, depth: nat, k: T)
    ensures
        level_order_upto(link, depth).contains(k) <==> exists|d: nat|
            d < depth && #[trigger] keys_at_depth(link, d).contains(k),
    decreases depth,
{
    if depth > 0 {
        let above = (depth - 1) as nat;
        lemma_level_order_upto_holds(link, above, k);
        lemma_joined_contains(level_order_upto(link, above), keys_at_depth(link, above), k);
        if level_order_upto(link, depth).contains(k) {
            if keys_at_depth(link, above).contains(k) {
                assert(above < depth && keys_at_depth(link, above).contains(k));
            } else {
                let d = choose|d: nat| d < above && #[trigger] keys_at_depth(link, d).contains(k);
                assert(d < depth && keys_at_depth(link, d).contains(k));
            }
        }
        if exists|d: nat| d < depth && #[trigger] keys_at_depth(link, d).contains(k) {
            let d = choose|d: nat| d < depth && #[trigger] keys_at_depth(link, d).contains(k);
            if d < above {
                assert(level_order_upto(link, above).contains(k));
            }
        }
    }
}

/// The breadth-first order holds exactly the keys of the subtree.
pub proof fn lemma_level_order_keys<T>(link: Option<Box<Node<T>>>)
    ensures
        forall|k: T| level_order(link).contains(k) <==> keys(link).contains(k),
{
    assert forall|k: T| level_order(link).contains(k) <==> keys(link).contains(k) by {
        lemma_level_order_upto_holds(link, height(link), k);
        if level_order(link).contains(k) {
            let d = choose|d: nat|
                d < height(link) && #[trigger] keys_at_depth(link, d).contains(k);
            lemma_depth_holds_keys(link, d, k);
        }
        if keys(link).contains(k) {
            let d = lemma_key_has_depth(link, k);
            assert(d < height(link) && keys_at_depth(link, d).contains(k));
        }
    }
}

/// The breadth-first order names every node once: it is as long as the
/// subtree has nodes, and so as long as the in-order sequence.
pub proof fn lemma_level_order_len<T>(link: Option<Box<Node<T>>>)
    ensures
        level_order(link).len() == count(link),
{
    lemma_level_order_upto_len(link, height(link));
    lemma_count_above(link, height(link));
}

/// The keys in ascending order depend on the keys alone, not on the shape
/// of the tree that holds them.
pub proof fn law_keys_determine_order<T: Ordered>(
    a: Option<Box<Node<T>>>,
    b: Option<Box<Node<T>>>,
)
    requires
        ordered(a),
        ordered(b),
        keys(a) == keys(b),
    ensures
        in_order(a) == in_order(b),
{
    lemma_in_order(a);
    lemma_in_order(b);
    lemma_strictly_ascending_unique(in_order(a), in_order(b));
}

/// The breadth-first order and the ascending order of a search tree have
/// the same length: each names every key once.
pub proof fn law_orders_have_same_length<T: Ordered>(link: Option<Box<Node<T>>>)
    requires
        ordered(link),
    ensures
        level_order(link).len() == in_order(link).len(),
        level_order(link).len() == keys(link).len(),
{
    lemma_level_order_len(link);
    lemma_in_order(link);
    lemma_ordered_count(link);
}

/// The set that holds the keys of `start` and every key of `added`.
pub open spec fn with_all<T>(start: Set<T>, added: Seq<T>) -> Set<T>
    decreases added.len(),
{
    if added.len() == 0 {
        start
    } else {
        with_all(start, added.drop_last()).insert(added.last())
    }
}

/// After the keys of a sequence have been inserted one by one into the
/// empty set, the set holds a key exactly if the sequence does.
pub proof fn law_inserted_are_contained<T>(added: Seq<T>, k: T)
    ensures
        with_all(Set::<T>::empty(), added).contains(k) <==> added.contains(k),
    decreases added.len(),
{
    if added.len() > 0 {
        law_inserted_are_contained(added.drop_last(), k);
        if added.drop_last().contains(k) {
            let i = choose|i: int| 0 <= i < added.drop_last().len() && added.drop_last()[i] == k;
            assert(added[i] == k);
        }
        if added.contains(k) {
            let i = choose|i: int| 0 <= i < added.len() && added[i] == k;
            if i < added.len() - 1 {
                assert(added.drop_last()[i] == k);
            }
        }
    }
}

/// Inserting a key a second time changes neither the keys nor their
/// ascending order.
pub proof fn law_insert_is_idempotent<T: Ordered>(
    once: Option<Box<Node<T>>>,
    twice: Option<Box<Node<T>>>,
    k: T,
)
    requires
        ordered(once),
        ordered(twice),
        keys(once).contains(k),
        keys(twice) == keys(once).insert(k),
    ensures
        keys(twice) == keys(once),
        in_order(twice) == in_order(once),
{
    assert(keys(once).insert(k) =~= keys(once));
    law_keys_determine_order(once, twice);
}

/// Removing a key that was absent before it was inserted gives back the
/// set as it was.
pub proof fn law_remove_undoes_insert<T: Ordered>(
    before: Option<Box<Node<T>>>,
    between: Option<Box<Node<T>>>,
    after: Option<Box<Node<T>>>,
    k: T,
)
    requires
        ordered(before),
        ordered(after),
        !keys(before).contains(k),
        keys(between) == keys(before).insert(k),
        keys(after) == keys(between).remove(k),
    ensures
        keys(after) == keys(before),
        in_order(after) == in_order(before),
{
    assert(keys(before).insert(k).remove(k) =~= keys(before));
    law_keys_determine_order(before, after);
}

impl<T: Ordered> Node<T> {
    /// This node as a subtree.
    pub open spec fn keys(self) -> Set<T> {
        keys(self.left).union(keys(self.right)).insert(self.data)
    }

    /// Number of nodes of this node's subtree.
    pub open spec fn count(self) -> nat {
        1 + count(self.left) + count(self.right)
    }

    /// The search-tree order holds at this node and below.
    pub open spec fn ordered(self) -> bool {
        &&& ordered(self.left)
        &&& ordered(self.right)
        &&& forall|k: T| keys(self.left).contains(k) ==> k.rank() < self.data.rank()
        &&& forall|k: T| keys(self.right).contains(k) ==> self.data.rank() < k.rank()
    }

    /// The keys of this node's subtree from left to right.
    pub open spec fn in_order(self) -> Seq<T> {
        in_order(self.left).push(self.data) + in_order(self.right)
    }

    /// Whether `data` is a key of this node's subtree.
    pub fn contains(&self, data: &T) -> (found: bool)
        requires
            self.ordered(),
        ensures
            found == self.keys().contains(*data),
        decreases self,
    {
        if self.data.same(data) {
            true
        } else if self.data.less(data) {
            match &self.right {
                Some(node) => node.contains(data),
                None => false,
            }
        } else {
            match &self.left {
                Some(node) => node.contains(data),
                None => false,
            }
        }
    }

    /// Puts `data` into this node's subtree, unless it is there.
    pub fn insert(&mut self, data: &T)
        requires
            old(self).ordered(),
        ensures
            final(self).ordered(),
            final(self).keys() == old(self).keys().insert(*data),
            final(self).count() == if old(self).keys().contains(*data) {
                old(self).count()
            } else {
                old(self).count() + 1
            },
            Some(Box::new(*final(self))) == inserted(Some(Box::new(*old(self))), *data),
        decreases *old(self),
    {
        if data.same(&self.data) {
            return ;
        }
        if data.less(&self.data) {
            match &mut self.left {
                Some(node) => {
                    node.insert(data);
                },
                None => {
                    self.left = Some(Box::new(Node { left: None, right: None, data: *data }));
                },
            }
            assert(self.keys() =~= old(self).keys().insert(*data));
            assert(self.left == inserted(old(self).left, *data));
            assert(*self == (Node { left: self.left, right: self.right, data: self.data }));
        } else {
            match &mut self.right {
                Some(node) => {
                    node.insert(data);
                },
                None => {
                    self.right = Some(Box::new(Node { left: None, right: None, data: *data }));
                },
            }
            assert(self.keys() =~= old(self).keys().insert(*data));
        }
    }

    /// Takes the greatest key out of this node's subtree: writes it to
    /// `data` and returns what is left of the subtree. This node is left
    /// without children.
    pub fn take_max_value(&mut self, data: &mut T) -> (rest: Option<Box<Node<T>>>)
        requires
            old(self).ordered(),
        ensures
            old(self).keys().contains(*final(data)),
            forall|k: T| old(self).keys().contains(k) ==> k.rank() <= final(data).rank(),
            ordered(rest),
            keys(rest) == old(self).keys().remove(*final(data)),
            count(rest) + 1 == old(self).count(),
            *final(data) == max_key(*old(self)),
            rest == without_max(*old(self)),
        decreases *old(self),
    {
        let left = self.left.take();
        let right = self.right.take();
        match right {
            None => {
                *data = self.data;
                assert(keys(left) =~= old(self).keys().remove(self.data));
                left
            },
            Some(mut node) => {
                let lifted = node.take_max_value(data);
                let rest = Some(Box::new(Node { left, right: lifted, data: self.data }));
                assert(keys(rest) =~= old(self).keys().remove(*data));
                rest
            },
        }
    }

    /// Takes `data` out of this node's subtree and returns what is left of
    /// it. A node with two children gets the greatest key of its left
    /// subtree in place of its own. This node is left without children.
    pub fn remove(&mut self, data: &T) -> (rest: Option<Box<Node<T>>>)
        requires
            old(self).ordered(),
        ensures
            ordered(rest),
            keys(rest) == old(self).keys().remove(*data),
            count(rest) == if old(self).keys().contains(*data) {
                old(self).count() - 1
            } else {
                old(self).count() as int
            },
            rest == removed(Some(Box::new(*old(self))), *data),
        decreases *old(self),
    {
        reveal_with_fuel(removed, 2);
        let left = self.left.take();
        let right = self.right.take();
        if self.data.same(data) {
            match left {
                None => {
                    assert(keys(right) =~= old(self).keys().remove(*data));
                    right
                },
                Some(mut node) => {
                    if right.is_none() {
                        let rest = Some(node);
                        assert(keys(rest) =~= old(self).keys().remove(*data));
                        rest
                    } else {
                        let mut top = self.data;
                        let lifted = node.take_max_value(&mut top);
                        let rest = Some(Box::new(Node { left: lifted, right, data: top }));
                        proof {
                            assert forall|k: T| keys(lifted).contains(k) implies k.rank()
                                < top.rank() by {
                                if k.rank() == top.rank() {
                                    T::rank_is_injective(k, top);
                                }
                            }
                            assert(keys(rest) =~= old(self).keys().remove(*data));
                        }
                        rest
                    }
                },
            }
        } else if self.data.less(data) {
            let pruned = match right {
                None => None,
                Some(mut node) => node.remove(data),
            };
            let rest = Some(Box::new(Node { left, right: pruned, data: self.data }));
            assert(keys(rest) =~= old(self).keys().remove(*data));
            rest
        } else {
            let pruned = match left {
                None => None,
                Some(mut node) => node.remove(data),
            };
            let rest = Some(Box::new(Node { left: pruned, right, data: self.data }));
            assert(keys(rest) =~= old(self).keys().remove(*data));
            rest
        }
    }

    /// The keys of this node's subtree in ascending order.
    pub fn get_all_sorted(&self) -> (all: Vec<T>)
        ensures
            all@ == self.in_order(),
        decreases self,
    {
        let mut all: Vec<T> = match &self.left {
            Some(node) => node.get_all_sorted(),
            None => Vec::new(),
        };
        all.push(self.data);
        let mut right: Vec<T> = match &self.right {
            Some(node) => node.get_all_sorted(),
            None => Vec::new(),
        };
        all.append(&mut right);
        all
    }
}

/// The keys of a subtree in breadth-first order: the nodes of one level are
/// visited in turn, and their children queued for the next.
pub fn breadth_first<T: Ordered>(root: &Option<Box<Node<T>>>) -> (all: Vec<T>)
    ensures
        all@ == level_order(*root),
        all@.len() == count(*root),
        forall|k: T| all@.contains(k) <==> keys(*root).contains(k),
{
    let mut all: Vec<T> = Vec::new();
    let mut level: Vec<&Node<T>> = Vec::new();
    if let Some(node) = root {
        level.push(&**node);
    }
    let ghost mut depth: nat = 0;
    while level.len() > 0
        invariant
            all@ == level_order_upto(*root, depth),
            level@.len() == nodes_at_depth(*root, depth).len(),
            forall|i: int| 0 <= i < level@.len() ==> *level@[i] == nodes_at_depth(*root, depth)[i],
            depth <= height(*root),
        decreases height(*root) - depth,
    {
        let ghost row = nodes_at_depth(*root, depth);
        let ghost before = all@;
        let mut next: Vec<&Node<T>> = Vec::new();
        let mut i: usize = 0;
        while i < level.len()
            invariant
                i <= level@.len(),
                level@.len() == row.len(),
                forall|k: int| 0 <= k < level@.len() ==> *level@[k] == row[k],
                all@ == before + keys_of(row.subrange(0, i as int)),
                next@.len() == children(row.subrange(0, i as int)).len(),
                forall|k: int|
                    0 <= k < next@.len() ==> *next@[k] == children(row.subrange(0, i as int))[k],
            decreases level@.len() - i,
        {
            let node: &Node<T> = level[i];
            let ghost done = row.subrange(0, i as int);
            let ghost grown = row.subrange(0, i + 1);
            proof {
                assert(grown.drop_last() =~= done);
                assert(grown.last() == *node);
                assert(children(grown) == children(done) + kids(*node));
                assert(keys_of(grown) =~= keys_of(done).push(node.data));
            }
            all.push(node.data);
            if let Some(child) = &node.left {
                next.push(&**child);
            }
            if let Some(child) = &node.right {
                next.push(&**child);
            }
            i = i + 1;
        }
        proof {
            assert(row.subrange(0, i as int) =~= row);
            lemma_next_level(*root, depth);
            lemma_level_empty(*root, depth);
            depth = depth + 1;
        }
        level = next;
    }
    proof {
        lemma_level_empty(*root, depth);
        lemma_level_order_len(*root);
        lemma_level_order_keys(*root);
    }
    all
}

/// The keys of a subtree in ascending order.
pub fn sorted<T: Ordered>(root: &Option<Box<Node<T>>>) -> (all: Vec<T>)
    requires
        ordered(*root),
    ensures
        all@ == in_order(*root),
        strictly_ascending(all@),
        all@.len() == count(*root),
        forall|k: T| all@.contains(k) <==> keys(*root).contains(k),
{
    proof {
        lemma_in_order(*root);
    }
    match root {
        Some(node) => node.get_all_sorted(),
        None => Vec::new(),
    }
}

/// The operations of an ordered set of keys.
pub trait BSTOps<T: Ordered> {
    /// The subtree under the root.
    spec fn tree(&self) -> Option<Box<Node<T>>>;

    /// What the set must satisfy before and after every operation.
    spec fn valid(&self) -> bool;

    /// Whether `data` is in the set.
    fn contains(&self, data: &T) -> (found: bool)
        requires
            self.valid(),
        ensures
            found == keys(self.tree()).contains(*data),
    ;

    /// Puts `data` into the set; nothing changes if it is there.
    fn insert(&mut self, data: &T)
        requires
            old(self).valid(),
            count(old(self).tree()) < usize::MAX,
        ensures
            final(self).valid(),
            keys(final(self).tree()) == keys(old(self).tree()).insert(*data),
            count(final(self).tree()) == if keys(old(self).tree()).contains(*data) {
                count(old(self).tree())
            } else {
                count(old(self).tree()) + 1
            },
    ;

    /// Takes `data` out of the set; nothing changes if it is not there.
    fn remove(&mut self, data: &T)
        requires
            old(self).valid(),
        ensures
            final(self).valid(),
            keys(final(self).tree()) == keys(old(self).tree()).remove(*data),
            count(final(self).tree()) == if keys(old(self).tree()).contains(*data) {
                count(old(self).tree()) - 1
            } else {
                count(old(self).tree()) as int
            },
    ;

    /// The keys level by level from the root, each level from left to right.
    fn get_breadth_first(&self) -> (all: Vec<T>)
        requires
            self.valid(),
        ensures
            all@ == level_order(self.tree()),
            all@.len() == count(self.tree()),
            forall|k: T| all@.contains(k) <==> keys(self.tree()).contains(k),
    ;

    /// The keys in ascending order.
    fn get_all_sorted(&self) -> (all: Vec<T>)
        requires
            self.valid(),
        ensures
            all@ == in_order(self.tree()),
            strictly_ascending(all@),
            all@.len() == count(self.tree()),
            forall|k: T| all@.contains(k) <==> keys(self.tree()).contains(k),
    ;
}

pub struct BinarySearchTree<T> {
    root: Option<Box<Node<T>>>,
}

impl<T: Ordered> BinarySearchTree<T> {
    /// The keys of the set.
    pub open spec fn view(&self) -> Set<T> {
        keys(self.tree())
    }

    /// The empty set.
    pub fn new() -> (set: BinarySearchTree<T>)
        ensures
            set.valid(),
            set.tree() == None::<Box<Node<T>>>,
            set@ == Set::<T>::empty(),
    {
        BinarySearchTree { root: None }
    }

    /// The set that holds `data` alone.
    pub fn create(data: &T) -> (set: BinarySearchTree<T>)
        ensures
            set.valid(),
            set.tree() == Some(Box::new(Node { left: None, right: None, data: *data })),
            set@ == Set::<T>::empty().insert(*data),
    {
        let set = BinarySearchTree {
            root: Some(Box::new(Node { left: None, right: None, data: *data })),
        };
        proof {
            assert(keys::<T>(None) =~= Set::<T>::empty());
            assert(ordered::<T>(None));
            assert(keys(set.root) =~= Set::<T>::empty().insert(*data));
        }
        set
    }

    /// The keys level by level from the root, each level from left to right.
    pub fn get_all(&self) -> (all: Vec<T>)
        ensures
            all@ == level_order(self.tree()),
            all@.len() == count(self.tree()),
            forall|k: T| all@.contains(k) <==> keys(self.tree()).contains(k),
    {
        breadth_first(&self.root)
    }
}

impl<T: Ordered> BSTOps<T> for BinarySearchTree<T> {
    closed spec fn tree(&self) -> Option<Box<Node<T>>> {
        self.root
    }

    open spec fn valid(&self) -> bool {
        ordered(self.tree())
    }

    fn contains(&self, data: &T) -> (found: bool) {
        match &self.root {
            Some(node) => node.contains(data),
            None => false,
        }
    }

    fn insert(&mut self, data: &T)
        ensures
            final(self).tree() == inserted(old(self).tree(), *data),
    {
        match &mut self.root {
            Some(node) => {
                node.insert(data);
            },
            None => {
                self.root = Some(Box::new(Node { left: None, right: None, data: *data }));
                assert(keys(self.root) =~= keys(old(self).root).insert(*data));
            },
        }
    }

    fn remove(&mut self, data: &T)
        ensures
            final(self).tree() == removed(old(self).tree(), *data),
    {
        let root = self.root.take();
        match root {
            Some(mut node) => {
                self.root = node.remove(data);
            },
            None => {
                assert(keys(self.root) =~= keys(old(self).root).remove(*data));
            },
        }
    }

    fn get_breadth_first(&self) -> (all: Vec<T>) {
        breadth_first(&self.root)
    }

    fn get_all_sorted(&self) -> (all: Vec<T>) {
        sorted(&self.root)
    }
}

} // verus!

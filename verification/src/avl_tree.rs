//! A binary search tree that rebalances itself after every change, so that
//! at no node the two subtrees differ in height by more than one.

use crate::binary_search_tree::{
    breadth_first, count, height, in_order, join, keys, lemma_keys_finite, level_order, max_key,
    ordered, sorted, BSTOps, Node,
};
use crate::order::{strictly_ascending, Ordered};
use crate::visitor::{accepted, refused, shown, Visitor, VisitorAcceptor};
use vstd::prelude::*;

verus! {

/// At every node the heights of the two subtrees differ by at most one.
pub open spec fn balanced<T>(link: Option<Box<Node<T>>>) -> bool
    decreases link,
{
    match link {
        None => true,
        Some(node) => {
            &&& balanced(node.left)
            &&& balanced(node.right)
            &&& height(node.left) <= height(node.right) + 1
            &&& height(node.right) <= height(node.left) + 1
        },
    }
}

/// Height of the right subtree less height of the left one; 0 for the empty tree.
pub open spec fn height_difference<T>(link: Option<Box<Node<T>>>) -> int {
    match link {
        None => 0,
        Some(node) => height(node.right) - height(node.left),
    }
}

/// By how much the root of a subtree is out of balance: its height
/// difference where that is beyond -1, 0 and 1, else 0.
pub open spec fn imbalance<T>(link: Option<Box<Node<T>>>) -> int {
    if -1 <= height_difference(link) <= 1 {
        0
    } else {
        height_difference(link)
    }
}

/// The subtree after a left rotation at its top: the right child comes to
/// the top, the old top becomes its left child and takes over the child's
/// former left subtree as its right one. Without a right child nothing moves.
pub open spec fn rotated_left<T>(link: Option<Box<Node<T>>>) -> Option<Box<Node<T>>> {
    match link {
        None => link,
        Some(node) => match node.right {
            None => link,
            Some(child) => join(join(node.left, node.data, child.left), child.data, child.right),
        },
    }
}

/// The subtree after a right rotation at its top, the mirror of the left one.
pub open spec fn rotated_right<T>(link: Option<Box<Node<T>>>) -> Option<Box<Node<T>>> {
    match link {
        None => link,
        Some(node) => match node.left {
            None => link,
            Some(child) => join(child.left, child.data, join(child.right, node.data, node.right)),
        },
    }
}

/// The subtree after its top has been rebalanced. A top whose right subtree
/// is higher by more than one is rotated left, after its right child has
/// been rotated right if that child leans left; the mirror holds for a top
/// whose left subtree is higher. Any other top stays.
pub open spec fn rebalanced<T>(link: Option<Box<Node<T>>>) -> Option<Box<Node<T>>> {
    match link {
        None => link,
        Some(node) => if height(node.right) > height(node.left) + 1 {
            let child = node.right.unwrap();
            let right = if height(child.left) > height(child.right) {
                rotated_right(node.right)
            } else {
                node.right
            };
            rotated_left(join(node.left, node.data, right))
        } else if height(node.left) > height(node.right) + 1 {
            let child = node.left.unwrap();
            let left = if height(child.right) > height(child.left) {
                rotated_left(node.left)
            } else {
                node.left
            };
            rotated_right(join(left, node.data, node.right))
        } else {
            link
        },
    }
}

/// The balanced subtree after `k` has been inserted: as in the plain search
/// tree, and every node on the way back to the top is rebalanced.
pub open spec fn avl_inserted<T: Ordered>(link: Option<Box<Node<T>>>, k: T) -> Option<Box<Node<T>>>
    decreases link,
{
    match link {
        None => join(None, k, None),
        Some(node) => if k == node.data {
            link
        } else if k.rank() < node.data.rank() {
            rebalanced(join(avl_inserted(node.left, k), node.data, node.right))
        } else {
            rebalanced(join(node.left, node.data, avl_inserted(node.right, k)))
        },
    }
}

/// The balanced subtree without its rightmost node, every node on the way
/// back to the top rebalanced.
pub open spec fn avl_without_max<T>(node: Node<T>) -> Option<Box<Node<T>>>
    decreases node,
{
    match node.right {
        None => node.left,
        Some(right) => rebalanced(join(node.left, node.data, avl_without_max(*right))),
    }
}

/// The balanced subtree without the key at its top. A top with two children
/// gets the greatest key of its left subtree, which leaves that subtree, and
/// is rebalanced; otherwise the child of the top, if any, takes its place.
pub open spec fn avl_without_top<T>(node: Node<T>) -> Option<Box<Node<T>>> {
    match node.left {
        None => node.right,
        Some(left) => if node.right.is_none() {
            node.left
        } else {
            rebalanced(join(avl_without_max(*left), max_key(*left), node.right))
        },
    }
}

/// The balanced subtree after `k` has been removed, every node on the way
/// back to the top rebalanced.
pub open spec fn avl_removed<T: Ordered>(link: Option<Box<Node<T>>>, k: T) -> Option<Box<Node<T>>>
    decreases link,
{
    match link {
        None => None,
        Some(node) => if k == node.data {
            avl_without_top(*node)
        } else if node.data.rank() < k.rank() {
            rebalanced(join(node.left, node.data, avl_removed(node.right, k)))
        } else {
            rebalanced(join(avl_removed(node.left, k), node.data, node.right))
        },
    }
}

/// The number `d` where an `i32` holds it, else the nearest number that an
/// `i32` holds.
pub open spec fn within_i32(d: int) -> int {
    if d > i32::MAX {
        i32::MAX as int
    } else if d < i32::MIN {
        i32::MIN as int
    } else {
        d
    }
}

/// The height of a subtree.
pub fn level_of<T>(link: &Option<Box<Node<T>>>) -> (level: usize)
    requires
        count(*link) <= usize::MAX,
    ensures
        level == height(*link),
    decreases *link,
{
    match link {
        None => 0,
        Some(node) => {
            proof {
                lemma_keys_finite(*link);
            }
            let left = level_of(&node.left);
            let right = level_of(&node.right);
            if left >= right {
                left + 1
            } else {
                right + 1
            }
        },
    }
}

/// What the definitions say of a node with its two subtrees.
pub proof fn lemma_join<T: Ordered>(left: Option<Box<Node<T>>>, data: T, right: Option<Box<Node<T>>>)
    ensures
        height(join(left, data, right)) == 1 + if height(left) >= height(right) {
            height(left)
        } else {
            height(right)
        },
        count(join(left, data, right)) == 1 + count(left) + count(right),
        keys(join(left, data, right)) == keys(left).union(keys(right)).insert(data),
        balanced(join(left, data, right)) == (balanced(left) && balanced(right) && height(left)
            <= height(right) + 1 && height(right) <= height(left) + 1),
        ordered(join(left, data, right)) == (ordered(left) && ordered(right) && (forall|k: T|
            keys(left).contains(k) ==> k.rank() < data.rank()) && (forall|k: T|
            keys(right).contains(k) ==> data.rank() < k.rank())),
{
}

/// The least number of nodes of a balanced subtree of the given height.
pub open spec fn least_count(h: nat) -> nat
    decreases h,
{
    if h == 0 {
        0
    } else if h == 1 {
        1
    } else {
        1 + least_count((h - 1) as nat) + least_count((h - 2) as nat)
    }
}

/// Two to the power `n`.
pub open spec fn two_to(n: nat) -> nat
    decreases n,
{
    if n == 0 {
        1
    } else {
        2 * two_to((n - 1) as nat)
    }
}

/// A higher balanced subtree needs no fewer nodes.
pub proof fn lemma_least_count_grows(a: nat, b: nat)
    requires
        a <= b,
    ensures
        least_count(a) <= least_count(b),
    decreases b,
{
    if a < b {
        lemma_least_count_grows(a, (b - 1) as nat);
    }
}

/// A balanced subtree of height `h` has at least `2^(h/2) - 1` nodes.
pub proof fn lemma_least_count_doubles(h: nat)
    ensures
        two_to(h / 2) <= least_count(h) + 1,
    decreases h,
{
    if h >= 2 {
        lemma_least_count_doubles((h - 2) as nat);
        lemma_least_count_grows((h - 2) as nat, (h - 1) as nat);
        assert(h / 2 == (h - 2) / 2 + 1);
    }
}

/// A balanced subtree has at least as many nodes as its height demands.
pub proof fn lemma_balanced_count<T: Ordered>(link: Option<Box<Node<T>>>)
    requires
        balanced(link),
    ensures
        least_count(height(link)) <= count(link),
    decreases link,
{
    if let Some(node) = link {
        lemma_balanced_count(node.left);
        lemma_balanced_count(node.right);
        let h = height(link);
        if h >= 2 {
            if height(node.left) >= height(node.right) {
                lemma_least_count_grows((h - 2) as nat, height(node.right));
            } else {
                lemma_least_count_grows((h - 2) as nat, height(node.left));
            }
        }
    }
}

/// The height of a balanced subtree is logarithmic in its number of nodes:
/// with `n` nodes and height `h`, `2^(h/2) <= n + 1`, so `h <= 2 * log2(n + 1) + 1`.
pub proof fn law_height_is_logarithmic<T: Ordered>(link: Option<Box<Node<T>>>)
    requires
        balanced(link),
    ensures
        two_to(height(link) / 2) <= count(link) + 1,
{
    lemma_balanced_count(link);
    lemma_least_count_doubles(height(link));
}

/// A balanced subtree: a node of the tree with all that hangs below it, or
/// the empty subtree.
pub struct AVLNode<T> {
    pub link: Option<Box<Node<T>>>,
}

impl<T: Ordered> AVLNode<T> {
    /// The subtree is a search tree, balanced at every node, and small
    /// enough for its height to be counted.
    pub open spec fn valid(&self) -> bool {
        &&& ordered(self.link)
        &&& balanced(self.link)
        &&& count(self.link) <= usize::MAX
    }

    /// The subtree of one node that holds `data`.
    pub fn new(data: &T) -> (node: AVLNode<T>)
        ensures
            node.link == join(None, *data, None),
            node.valid(),
            keys(node.link) == Set::<T>::empty().insert(*data),
    {
        let node = AVLNode { link: Some(Box::new(Node { left: None, right: None, data: *data })) };
        proof {
            lemma_join(None, *data, None);
            assert(keys(node.link) =~= Set::<T>::empty().insert(*data));
        }
        node
    }

    /// Puts `data` into the subtree and restores the balance.
    pub fn insert(&mut self, data: &T)
        requires
            old(self).valid(),
            count(old(self).link) < usize::MAX,
        ensures
            final(self).valid(),
            keys(final(self).link) == keys(old(self).link).insert(*data),
            count(final(self).link) == if keys(old(self).link).contains(*data) {
                count(old(self).link)
            } else {
                count(old(self).link) + 1
            },
            height(final(self).link) == height(old(self).link) || height(final(self).link)
                == height(old(self).link) + 1,
            final(self).link == avl_inserted(old(self).link, *data),
    {
        let link = self.link.take();
        self.link = insert_into(link, data);
    }

    /// Takes `data` out of the subtree and restores the balance.
    pub fn remove(&mut self, data: &T)
        requires
            old(self).valid(),
        ensures
            final(self).valid(),
            keys(final(self).link) == keys(old(self).link).remove(*data),
            count(final(self).link) == if keys(old(self).link).contains(*data) {
                count(old(self).link) - 1
            } else {
                count(old(self).link) as int
            },
            height(final(self).link) == height(old(self).link) || height(final(self).link) + 1
                == height(old(self).link),
            final(self).link == avl_removed(old(self).link, *data),
    {
        let link = self.link.take();
        self.link = remove_from(link, data);
    }

    /// Takes the key at the top out of the subtree: the top gets the
    /// greatest key of its left subtree in place of its own, and the balance
    /// is restored. Where the top has fewer than two children, its child, if
    /// any, takes its place.
    pub fn take_median_value(&mut self)
        requires
            old(self).valid(),
            old(self).link.is_some(),
        ensures
            final(self).valid(),
            keys(final(self).link) == keys(old(self).link).remove(old(self).link.unwrap().data),
            count(final(self).link) + 1 == count(old(self).link),
            height(final(self).link) == height(old(self).link) || height(final(self).link) + 1
                == height(old(self).link),
            final(self).link == avl_without_top(*old(self).link.unwrap()),
    {
        let link = self.link.take();
        self.link = take_top(link.unwrap());
    }

    /// The height of the subtree.
    pub fn level(&self) -> (level: usize)
        requires
            count(self.link) <= usize::MAX,
        ensures
            level == height(self.link),
    {
        level_of(&self.link)
    }

    /// Whether `data` is a key of the subtree.
    pub fn contains(&self, data: &T) -> (found: bool)
        requires
            ordered(self.link),
        ensures
            found == keys(self.link).contains(*data),
    {
        match &self.link {
            Some(node) => node.contains(data),
            None => false,
        }
    }

    /// The keys of the subtree in ascending order.
    pub fn get_all_sorted(&self) -> (all: Vec<T>)
        requires
            ordered(self.link),
        ensures
            all@ == in_order(self.link),
            strictly_ascending(all@),
            all@.len() == count(self.link),
            forall|k: T| all@.contains(k) <==> keys(self.link).contains(k),
    {
        sorted(&self.link)
    }

    /// By how much the top of the subtree is out of balance: the height of
    /// its right subtree less that of its left one where the two differ by
    /// more than one, else 0; a difference that no `i32` holds is given as
    /// the nearest one that it holds. A valid subtree is never out of balance.
    pub fn level_diff(&self) -> (diff: i32)
        requires
            count(self.link) <= usize::MAX,
        ensures
            diff == within_i32(imbalance(self.link)),
            self.valid() ==> diff == 0,
    {
        match &self.link {
            None => 0,
            Some(node) => {
                proof {
                    lemma_join(node.left, node.data, node.right);
                    assert(self.link == join(node.left, node.data, node.right));
                }
                let left = level_of(&node.left);
                let right = level_of(&node.right);
                let limit: usize = 2147483647;
                if right >= left {
                    let more: usize = right - left;
                    if more <= 1 {
                        0
                    } else if more > limit {
                        i32::MAX
                    } else {
                        more as i32
                    }
                } else {
                    let more: usize = left - right;
                    if more <= 1 {
                        0
                    } else if more > limit {
                        i32::MIN
                    } else {
                        -(more as i32)
                    }
                }
            },
        }
    }

    /// Left rotation: the right child comes to the top, the old top becomes its
    /// left child and takes over the child's former left subtree as its right one.
    fn rotate_left(node: Box<Node<T>>) -> (top: Box<Node<T>>)
        requires
            node.right.is_some(),
            ordered(Some(node)),
        ensures
            Some(top) == rotated_left(Some(node)),
            Some(top) == join(
                join(node.left, node.data, node.right.unwrap().left),
                node.right.unwrap().data,
                node.right.unwrap().right,
            ),
            ordered(Some(top)),
            keys(Some(top)) == keys(Some(node)),
            count(Some(top)) == count(Some(node)),
    {
        let ghost l = node.left;
        let ghost d = node.data;
        let ghost r = node.right.unwrap();
        let mut low = node;
        let mut top = low.right.take().unwrap();
        low.right = top.left.take();
        top.left = Some(low);
        proof {
            let a = join(l, d, r.left);
            assert(Some(top) == join(a, r.data, r.right));
            lemma_join(l, d, Some(r));
            lemma_join(r.left, r.data, r.right);
            lemma_join(l, d, r.left);
            lemma_join(a, r.data, r.right);
            assert(Some(node) == join(l, d, Some(r)));
            assert(Some(r) == join(r.left, r.data, r.right));
            assert(keys(Some(r)).contains(r.data));
            assert forall|k: T| keys(r.left).contains(k) implies d.rank() < k.rank() by {
                assert(keys(Some(r)).contains(k));
            }
            assert forall|k: T| keys(a).contains(k) implies k.rank() < r.data.rank() by {
                if keys(l).contains(k) {
                    assert(k.rank() < d.rank());
                }
            }
            assert(keys(Some(top)) =~= keys(Some(node)));
        }
        top
    }

    /// Right rotation, the mirror of the left one.
    fn rotate_right(node: Box<Node<T>>) -> (top: Box<Node<T>>)
        requires
            node.left.is_some(),
            ordered(Some(node)),
        ensures
            Some(top) == rotated_right(Some(node)),
            Some(top) == join(
                node.left.unwrap().left,
                node.left.unwrap().data,
                join(node.left.unwrap().right, node.data, node.right),
            ),
            ordered(Some(top)),
            keys(Some(top)) == keys(Some(node)),
            count(Some(top)) == count(Some(node)),
    {
        let ghost l = node.left.unwrap();
        let ghost d = node.data;
        let ghost r = node.right;
        let mut low = node;
        let mut top = low.left.take().unwrap();
        low.left = top.right.take();
        top.right = Some(low);
        proof {
            let a = join(l.right, d, r);
            assert(Some(top) == join(l.left, l.data, a));
            lemma_join(Some(l), d, r);
            lemma_join(l.left, l.data, l.right);
            lemma_join(l.right, d, r);
            lemma_join(l.left, l.data, a);
            assert(Some(node) == join(Some(l), d, r));
            assert(Some(l) == join(l.left, l.data, l.right));
            assert(keys(Some(l)).contains(l.data));
            assert forall|k: T| keys(l.right).contains(k) implies k.rank() < d.rank() by {
                assert(keys(Some(l)).contains(k));
            }
            assert forall|k: T| keys(a).contains(k) implies l.data.rank() < k.rank() by {
                if keys(r).contains(k) {
                    assert(d.rank() < k.rank());
                }
            }
            assert(keys(Some(top)) =~= keys(Some(node)));
        }
        top
    }

    /// Restores the balance at a node whose subtrees are balanced and differ in
    /// height by at most two. A balanced node is returned as it is.
    fn balance(node: Box<Node<T>>) -> (top: Box<Node<T>>)
        requires
            ordered(Some(node)),
            balanced(node.left),
            balanced(node.right),
            height(node.left) <= height(node.right) + 2,
            height(node.right) <= height(node.left) + 2,
            count(Some(node)) <= usize::MAX,
        ensures
            ordered(Some(top)),
            balanced(Some(top)),
            keys(Some(top)) == keys(Some(node)),
            count(Some(top)) == count(Some(node)),
            balanced(Some(node)) ==> top == node,
            height(Some(top)) == height(Some(node)) || height(Some(top)) + 1 == height(Some(node)),
            Some(top) == rebalanced(Some(node)),
    {
        let ghost l = node.left;
        let ghost d = node.data;
        let ghost r = node.right;
        proof {
            lemma_keys_finite(Some(node));
            lemma_join(l, d, r);
            assert(Some(node) == join(l, d, r));
        }
        let left = level_of(&node.left);
        let right = level_of(&node.right);
        if right > left + 1 {
            let mut node = node;
            let child = node.right.take().unwrap();
            let ghost c = child;
            proof {
                lemma_join(c.left, c.data, c.right);
                assert(r == join(c.left, c.data, c.right));
            }
            let inner = level_of(&child.left);
            let outer = level_of(&child.right);
            if inner > outer {
                let ghost m = c.left.unwrap();
                proof {
                    lemma_join(m.left, m.data, m.right);
                    assert(c.left == join(m.left, m.data, m.right));
                }
                let turned = Self::rotate_right(child);
                node.right = Some(turned);
                proof {
                    assert(Some(node) == join(l, d, Some(turned)));
                    lemma_join(l, d, Some(turned));
                }
                let top = Self::rotate_left(node);
                proof {
                    lemma_join(m.right, c.data, c.right);
                    lemma_join(l, d, m.left);
                    lemma_join(join(l, d, m.left), m.data, join(m.right, c.data, c.right));
                }
                top
            } else {
                node.right = Some(child);
                let top = Self::rotate_left(node);
                proof {
                    lemma_join(l, d, c.left);
                    lemma_join(join(l, d, c.left), c.data, c.right);
                }
                top
            }
        } else if left > right + 1 {
            let mut node = node;
            let child = node.left.take().unwrap();
            let ghost c = child;
            proof {
                lemma_join(c.left, c.data, c.right);
                assert(l == join(c.left, c.data, c.right));
            }
            let inner = level_of(&child.right);
            let outer = level_of(&child.left);
            if inner > outer {
                let ghost m = c.right.unwrap();
                proof {
                    lemma_join(m.left, m.data, m.right);
                    assert(c.right == join(m.left, m.data, m.right));
                }
                let turned = Self::rotate_left(child);
                node.left = Some(turned);
                proof {
                    assert(Some(node) == join(Some(turned), d, r));
                    lemma_join(Some(turned), d, r);
                }
                let top = Self::rotate_right(node);
                proof {
                    lemma_join(c.left, c.data, m.left);
                    lemma_join(m.right, d, r);
                    lemma_join(join(c.left, c.data, m.left), m.data, join(m.right, d, r));
                }
                top
            } else {
                node.left = Some(child);
                let top = Self::rotate_right(node);
                proof {
                    lemma_join(c.right, d, r);
                    lemma_join(c.left, c.data, join(c.right, d, r));
                }
                top
            }
        } else {
            node
        }
    }
}

/// Puts `data` into a balanced subtree and rebalances every node on the way
/// back to the root.
pub fn insert_into<T: Ordered>(link: Option<Box<Node<T>>>, data: &T) -> (out: Option<Box<Node<T>>>)
    requires
        ordered(link),
        balanced(link),
        count(link) < usize::MAX,
    ensures
        out.is_some(),
        ordered(out),
        balanced(out),
        keys(out) == keys(link).insert(*data),
        count(out) == if keys(link).contains(*data) {
            count(link)
        } else {
            count(link) + 1
        },
        height(out) == height(link) || height(out) == height(link) + 1,
        out == avl_inserted(link, *data),
    decreases link,
{
    match link {
        None => {
            let out = Some(Box::new(Node { left: None, right: None, data: *data }));
            proof {
                lemma_join(None, *data, None);
                assert(keys(out) =~= keys(link).insert(*data));
            }
            out
        },
        Some(node) => {
            let mut node = node;
            let ghost l = node.left;
            let ghost d = node.data;
            let ghost r = node.right;
            proof {
                lemma_join(l, d, r);
                assert(link == join(l, d, r));
            }
            if data.same(&node.data) {
                assert(keys(link).insert(*data) =~= keys(link));
                Some(node)
            } else if data.less(&node.data) {
                let left = node.left.take();
                let grown = insert_into(left, data);
                node.left = grown;
                proof {
                    lemma_join(grown, d, r);
                    assert(Some(node) == join(grown, d, r));
                    assert(keys(Some(node)) =~= keys(link).insert(*data));
                }
                Some(AVLNode::<T>::balance(node))
            } else {
                let right = node.right.take();
                let grown = insert_into(right, data);
                node.right = grown;
                proof {
                    lemma_join(l, d, grown);
                    assert(Some(node) == join(l, d, grown));
                    assert(keys(Some(node)) =~= keys(link).insert(*data));
                }
                Some(AVLNode::<T>::balance(node))
            }
        },
    }
}

/// Takes the greatest key out of a balanced subtree and rebalances every
/// node on the way back. Returns what is left, and the key.
pub fn take_max<T: Ordered>(node: Box<Node<T>>) -> (out: (Option<Box<Node<T>>>, T))
    requires
        ordered(Some(node)),
        balanced(Some(node)),
        count(Some(node)) <= usize::MAX,
    ensures
        keys(Some(node)).contains(out.1),
        forall|k: T| keys(Some(node)).contains(k) ==> k.rank() <= out.1.rank(),
        ordered(out.0),
        balanced(out.0),
        keys(out.0) == keys(Some(node)).remove(out.1),
        count(out.0) + 1 == count(Some(node)),
        height(out.0) == height(Some(node)) || height(out.0) + 1 == height(Some(node)),
        out.0 == avl_without_max(*node),
        out.1 == max_key(*node),
    decreases node,
{
    let ghost l = node.left;
    let ghost d = node.data;
    let ghost r = node.right;
    proof {
        lemma_join(l, d, r);
        assert(Some(node) == join(l, d, r));
    }
    let mut node = node;
    let right = node.right.take();
    match right {
        None => {
            let rest = node.left.take();
            proof {
                assert(keys(rest) =~= keys(join(l, d, r)).remove(d));
            }
            (rest, node.data)
        },
        Some(child) => {
            let (rest, max) = take_max(child);
            node.right = rest;
            proof {
                lemma_join(l, d, rest);
                assert(Some(node) == join(l, d, rest));
                assert(keys(Some(node)) =~= keys(join(l, d, r)).remove(max));
            }
            (Some(AVLNode::<T>::balance(node)), max)
        },
    }
}

/// Takes the key at the top out of a balanced subtree. A top with two
/// children gets the greatest key of its left subtree in place of its own,
/// and the balance is restored; otherwise its child, if any, takes its place.
pub fn take_top<T: Ordered>(node: Box<Node<T>>) -> (out: Option<Box<Node<T>>>)
    requires
        ordered(Some(node)),
        balanced(Some(node)),
        count(Some(node)) <= usize::MAX,
    ensures
        ordered(out),
        balanced(out),
        keys(out) == keys(Some(node)).remove(node.data),
        count(out) + 1 == count(Some(node)),
        height(out) == height(Some(node)) || height(out) + 1 == height(Some(node)),
        out == avl_without_top(*node),
{
    let ghost link = Some(node);
    let ghost r = node.right;
    let ghost d = node.data;
    proof {
        lemma_join(node.left, d, r);
        assert(link == join(node.left, d, r));
    }
    let mut node = node;
    let left = node.left.take();
    let right = node.right.take();
    match left {
        None => {
            assert(keys(right) =~= keys(link).remove(d));
            right
        },
        Some(child) => {
            if right.is_none() {
                let out = Some(child);
                assert(keys(out) =~= keys(link).remove(d));
                out
            } else {
                let (rest, top) = take_max(child);
                let lifted = Box::new(Node { left: rest, right, data: top });
                proof {
                    lemma_join(rest, top, r);
                    assert(Some(lifted) == join(rest, top, r));
                    assert forall|k: T| keys(rest).contains(k) implies k.rank() < top.rank() by {
                        if k.rank() == top.rank() {
                            T::rank_is_injective(k, top);
                        }
                    }
                    assert(keys(Some(lifted)) =~= keys(link).remove(d));
                }
                Some(AVLNode::<T>::balance(lifted))
            }
        },
    }
}

/// Takes `data` out of a balanced subtree and rebalances every node on the
/// way back. A node with two children gets the greatest key of its left
/// subtree in place of its own.
pub fn remove_from<T: Ordered>(link: Option<Box<Node<T>>>, data: &T) -> (out: Option<Box<Node<T>>>)
    requires
        ordered(link),
        balanced(link),
        count(link) <= usize::MAX,
    ensures
        ordered(out),
        balanced(out),
        keys(out) == keys(link).remove(*data),
        count(out) == if keys(link).contains(*data) {
            count(link) - 1
        } else {
            count(link) as int
        },
        height(out) == height(link) || height(out) + 1 == height(link),
        out == avl_removed(link, *data),
    decreases link,
{
    match link {
        None => {
            assert(keys(link).remove(*data) =~= keys(link));
            None
        },
        Some(node) => {
            let mut node = node;
            let ghost l = node.left;
            let ghost d = node.data;
            let ghost r = node.right;
            proof {
                lemma_join(l, d, r);
                assert(link == join(l, d, r));
            }
            if node.data.same(data) {
                proof {
                    T::rank_is_injective(node.data, *data);
                }
                take_top(node)
            } else if node.data.less(data) {
                let right = node.right.take();
                let pruned = remove_from(right, data);
                node.right = pruned;
                proof {
                    lemma_join(l, d, pruned);
                    assert(Some(node) == join(l, d, pruned));
                    assert(keys(Some(node)) =~= keys(link).remove(*data));
                }
                Some(AVLNode::<T>::balance(node))
            } else {
                let left = node.left.take();
                let pruned = remove_from(left, data);
                node.left = pruned;
                proof {
                    lemma_join(pruned, d, r);
                    assert(Some(node) == join(pruned, d, r));
                    assert(keys(Some(node)) =~= keys(link).remove(*data));
                }
                Some(AVLNode::<T>::balance(node))
            }
        },
    }
}

/// The keys of a subtree, each with its depth: a node first, then its left
/// subtree, then its right one. The top of the subtree has depth `depth`.
pub open spec fn pre_order<T>(link: Option<Box<Node<T>>>, depth: nat) -> Seq<(usize, T)>
    decreases link,
{
    match link {
        None => Seq::empty(),
        Some(node) => seq![(depth as usize, node.data)] + pre_order(node.left, depth + 1)
            + pre_order(node.right, depth + 1),
    }
}

/// Appends the keys of a subtree with their depths, a node before its subtrees.
fn rows_of<T: Ordered>(link: &Option<Box<Node<T>>>, depth: usize, rows: &mut Vec<(usize, T)>)
    requires
        depth + height(*link) <= usize::MAX,
    ensures
        final(rows)@ == old(rows)@ + pre_order(*link, depth as nat),
    decreases *link,
{
    match link {
        None => {
            assert(rows@ =~= old(rows)@ + pre_order(*link, depth as nat));
        },
        Some(node) => {
            rows.push((depth, node.data));
            rows_of(&node.left, depth + 1, rows);
            rows_of(&node.right, depth + 1, rows);
            assert(rows@ =~= old(rows)@ + pre_order(*link, depth as nat));
        },
    }
}

pub struct AVLTree<T> {
    root: AVLNode<T>,
}

impl<T: Ordered> AVLTree<T> {
    /// The keys of the set.
    pub open spec fn view(&self) -> Set<T> {
        keys(self.tree())
    }

    /// The empty set.
    pub fn new() -> (set: AVLTree<T>)
        ensures
            set.valid(),
            set.tree() == None::<Box<Node<T>>>,
            set@ == Set::<T>::empty(),
    {
        AVLTree { root: AVLNode { link: None } }
    }

    /// Whether the set holds no key.
    pub fn is_empty(&self) -> (none: bool)
        ensures
            none == self.tree().is_none(),
            none == (self@ == Set::<T>::empty()),
    {
        proof {
            if self.root.link.is_some() {
                assert(keys(self.root.link).contains(self.root.link.unwrap().data));
            } else {
                assert(keys(self.root.link) =~= Set::<T>::empty());
            }
        }
        self.root.link.is_none()
    }

    /// The height of the tree: 0 if it is empty, 1 if it holds one key.
    pub fn level(&self) -> (level: usize)
        requires
            self.valid(),
        ensures
            level == height(self.tree()),
    {
        self.root.level()
    }

    /// By how much the root is out of balance: the height of its right
    /// subtree less that of its left one where the two differ by more than
    /// one, else 0; a difference that no `i32` holds is given as the nearest
    /// one that it holds. A valid tree is never out of balance.
    pub fn level_diff(&self) -> (diff: i32)
        requires
            count(self.tree()) <= usize::MAX,
        ensures
            diff == within_i32(imbalance(self.tree())),
            self.valid() ==> diff == 0,
    {
        self.root.level_diff()
    }

    /// The keys with their depths, as an outline of the tree: a node first,
    /// then its left subtree, then its right one; the root has depth 0.
    pub fn traverse(&self) -> (rows: Vec<(usize, T)>)
        requires
            self.valid(),
        ensures
            rows@ == pre_order(self.tree(), 0),
    {
        proof {
            lemma_keys_finite(self.root.link);
        }
        let mut rows: Vec<(usize, T)> = Vec::new();
        rows_of(&self.root.link, 0, &mut rows);
        rows
    }
}

impl<T: Ordered> BSTOps<T> for AVLTree<T> {
    closed spec fn tree(&self) -> Option<Box<Node<T>>> {
        self.root.link
    }

    open spec fn valid(&self) -> bool {
        &&& ordered(self.tree())
        &&& balanced(self.tree())
        &&& count(self.tree()) <= usize::MAX
    }

    fn contains(&self, data: &T) -> (found: bool) {
        self.root.contains(data)
    }

    fn insert(&mut self, data: &T)
        ensures
            final(self).tree() == avl_inserted(old(self).tree(), *data),
    {
        self.root.insert(data);
    }

    fn remove(&mut self, data: &T)
        ensures
            final(self).tree() == avl_removed(old(self).tree(), *data),
    {
        self.root.remove(data);
    }

    fn get_breadth_first(&self) -> (all: Vec<T>) {
        breadth_first(&self.root.link)
    }

    fn get_all_sorted(&self) -> (all: Vec<T>) {
        self.root.get_all_sorted()
    }
}

/// The balanced tree that holds the keys of `added`, inserted one by one
/// into the empty tree.
pub open spec fn avl_of<T: Ordered>(added: Seq<T>) -> Option<Box<Node<T>>>
    decreases added.len(),
{
    if added.len() == 0 {
        None
    } else {
        avl_inserted(avl_of(added.drop_last()), added.last())
    }
}

impl<T: Ordered, E> VisitorAcceptor<T, E> for AVLTree<T> {
    open spec fn ready(&self) -> bool {
        self.valid()
    }

    open spec fn values(&self) -> Seq<T> {
        level_order(self.tree())
    }

    open spec fn took(&self, before: &Self, answers: Seq<T>) -> bool {
        self.tree() == avl_of(answers)
    }

    /// Shows every key to the visitor, in breadth-first order, and makes the
    /// set hold the keys that the visitor answered with, inserted in that
    /// order into the empty set. At the first error the visit ends and the
    /// set stays as it was.
    #[verifier::rlimit(60)]
    fn accept<V: Visitor<T, E>>(&mut self, visitor: &mut V) -> (done: Result<(), E>)
        ensures
            done.is_err() ==> final(self).tree() == old(self).tree(),
    {
        let all = breadth_first(&self.root.link);
        let mut fresh: AVLTree<T> = AVLTree::new();
        let ghost mut states: Seq<V> = seq![*visitor];
        let ghost mut answers: Seq<T> = Seq::empty();
        let mut i: usize = 0;
        while i < all.len()
            invariant
                i <= all@.len(),
                fresh.valid(),
                count(fresh.tree()) <= i,
                *self == *old(self),
                self.valid(),
                all@ == level_order(self.tree()),
                answers.len() == i,
                fresh.tree() == avl_of(answers),
                shown::<T, E, V>(states, all@.take(i as int), answers),
                states.first() == *old(visitor),
                states.last() == *visitor,
            decreases all@.len() - i,
        {
            let ghost so_far = states;
            let ghost given = answers;
            match visitor.visit(&all[i]) {
                Ok(answer) => {
                    fresh.insert(&answer);
                    proof {
                        states = so_far.push(*visitor);
                        answers = given.push(answer);
                        assert(answers.drop_last() =~= given);
                        assert forall|j: int| 0 <= j < i + 1 implies states[j].may_answer(
                            all@.take(i + 1)[j],
                            &states[j + 1],
                            Ok::<T, E>(#[trigger] answers[j]),
                        ) by {
                            if j < i {
                                assert(given[j] == answers[j]);
                                assert(all@.take(i as int)[j] == all@.take(i + 1)[j]);
                            }
                        }
                    }
                },
                Err(error) => {
                    proof {
                        assert(shown::<T, E, V>(so_far, all@.take(given.len() as int), given));
                        assert(refused::<T, E, V>(*old(visitor), all@, *visitor, error));
                    }
                    return Err(error);
                },
            }
            i = i + 1;
        }
        proof {
            assert(all@.take(i as int) =~= all@);
            assert(accepted::<T, E, V>(
                *old(visitor),
                <AVLTree<T> as VisitorAcceptor<T, E>>::values(old(self)),
                *visitor,
                answers,
            ));
        }
        *self = fresh;
        proof {
            assert(<AVLTree<T> as VisitorAcceptor<T, E>>::took(self, old(self), answers));
        }
        Ok(())
    }
}

} // verus!

use classic_structures::avl_tree::{AVLNode, AVLTree};
use classic_structures::binary_search::binary_search;
use classic_structures::binary_search_tree::{BSTOps, BinarySearchTree, Node};
use classic_structures::bubble_sort::bubble_sort;
use classic_structures::heap::{heap_sort, Heap};
use classic_structures::linked_list::{LinkedList, ListError};
use classic_structures::merge_sort::merge_sort;
use classic_structures::merkle_tree::{tree_length_for_input, MerkleTree};
use classic_structures::quick_sort::quick_sort;
use classic_structures::radix_sort::{distribute, radix_sort};
use classic_structures::search_fixed_point::fixed_point;
use classic_structures::shell_sort::{gap_at, shell_sort};
use classic_structures::visitor::{Visitor, VisitorAcceptor};
use std::collections::VecDeque;

fn mix(left: &u64, right: &u64) -> u64 {
    left.wrapping_mul(31).wrapping_add(right.wrapping_mul(17)).wrapping_add(7)
}

fn values_of(list: &LinkedList<i32>) -> Vec<i32> {
    let mut all = Vec::new();
    let mut cursor = list.iter();
    while let Some(value) = cursor.next(list) {
        all.push(value);
    }
    all
}

#[test]
fn avl_of_seven_ascending_keys_is_perfect() {
    let mut tree = AVLTree::new();
    for key in 0..7 {
        tree.insert(&key);
    }
    assert_eq!(tree.level(), 3);
    assert_eq!(tree.get_breadth_first(), vec![3, 1, 5, 0, 2, 4, 6]);
    assert_eq!(tree.get_all_sorted(), vec![0, 1, 2, 3, 4, 5, 6]);
}

#[test]
fn avl_stays_balanced_and_low() {
    let mut tree = AVLTree::new();
    for key in 0..1000 {
        tree.insert(&key);
        assert_eq!(tree.level_diff(), 0);
    }
    assert!(tree.level() <= 20);
    assert_eq!(tree.level(), 10);
    for key in 0..1000 {
        if key % 3 != 0 {
            tree.remove(&key);
            assert_eq!(tree.level_diff(), 0);
        }
    }
    assert_eq!(tree.get_all_sorted().len(), 334);
    assert_eq!(tree.get_breadth_first().len(), 334);
    assert!(tree.level() <= 18);
    for key in 0..1000 {
        assert_eq!(tree.contains(&key), key % 3 == 0);
    }
}

#[test]
fn avl_double_rotations() {
    let mut tree = AVLTree::new();
    tree.insert(&1);
    tree.insert(&3);
    tree.insert(&2);
    assert_eq!(tree.get_breadth_first(), vec![2, 1, 3]);
    let mut mirror = AVLTree::new();
    mirror.insert(&3);
    mirror.insert(&1);
    mirror.insert(&2);
    assert_eq!(mirror.get_breadth_first(), vec![2, 1, 3]);
}

#[test]
fn avl_remove_takes_the_predecessor() {
    let mut tree = AVLTree::new();
    for key in [4, 2, 6, 1, 3, 5, 7] {
        tree.insert(&key);
    }
    tree.remove(&4);
    assert_eq!(tree.get_breadth_first(), vec![3, 2, 6, 1, 5, 7]);
    tree.remove(&13);
    assert_eq!(tree.get_all_sorted(), vec![1, 2, 3, 5, 6, 7]);
}

#[test]
fn avl_node_operations() {
    let mut node = AVLNode::new(&5);
    assert_eq!(node.level(), 1);
    node.insert(&3);
    node.insert(&8);
    node.insert(&3);
    assert_eq!(node.get_all_sorted(), vec![3, 5, 8]);
    assert!(node.contains(&8));
    assert_eq!(node.level_diff(), 0);
    node.take_median_value();
    assert_eq!(node.get_all_sorted(), vec![3, 8]);
    assert!(!node.contains(&5));
    node.remove(&3);
    assert_eq!(node.get_all_sorted(), vec![8]);
    node.take_median_value();
    assert_eq!(node.level(), 0);
}

struct Doubler {
    seen: Vec<u32>,
    refuse: Option<u32>,
}

impl Visitor<u32, String> for Doubler {
    fn visit(&mut self, data: &u32) -> Result<u32, String> {
        if self.refuse == Some(*data) {
            return Err(String::from("refused"));
        }
        self.seen.push(*data);
        Ok(*data * 2)
    }
}

#[test]
fn avl_accepts_a_visitor_breadth_first() {
    let mut tree = AVLTree::new();
    for key in 0..7u32 {
        tree.insert(&key);
    }
    let mut visitor = Doubler { seen: Vec::new(), refuse: None };
    assert!(tree.accept(&mut visitor).is_ok());
    assert_eq!(visitor.seen, vec![3, 1, 5, 0, 2, 4, 6]);
    assert_eq!(tree.get_all_sorted(), vec![0, 2, 4, 6, 8, 10, 12]);
    let mut stubborn = Doubler { seen: Vec::new(), refuse: Some(4) };
    assert_eq!(tree.accept(&mut stubborn), Err(String::from("refused")));
    assert_eq!(tree.get_all_sorted(), vec![0, 2, 4, 6, 8, 10, 12]);
}

#[test]
fn bst_remove_of_a_node_with_two_children() {
    let mut tree = BinarySearchTree::new();
    for key in [5, 3, 7, 2, 4, 6, 8] {
        tree.insert(&key);
    }
    tree.remove(&3);
    assert_eq!(tree.get_all_sorted(), vec![2, 4, 5, 6, 7, 8]);
    assert_eq!(tree.get_breadth_first()[0], 5);
    assert_eq!(tree.get_breadth_first(), vec![5, 2, 7, 4, 6, 8]);
    assert_eq!(tree.get_all(), vec![5, 2, 7, 4, 6, 8]);
}

#[test]
fn ordered_sets_hold_what_was_inserted() {
    let keys = [9, 1, 8, 2, 7, 3, 7, 1];
    let mut plain = BinarySearchTree::new();
    let mut balanced = AVLTree::new();
    for key in keys {
        plain.insert(&key);
        balanced.insert(&key);
    }
    for key in 0..12 {
        assert_eq!(plain.contains(&key), keys.contains(&key));
        assert_eq!(balanced.contains(&key), keys.contains(&key));
    }
    assert_eq!(plain.get_all_sorted(), vec![1, 2, 3, 7, 8, 9]);
    assert_eq!(balanced.get_all_sorted(), vec![1, 2, 3, 7, 8, 9]);
    assert_eq!(plain.get_breadth_first().len(), plain.get_all_sorted().len());
    assert_eq!(balanced.get_breadth_first().len(), balanced.get_all_sorted().len());
}

#[test]
fn insert_twice_and_insert_then_remove() {
    let mut tree = BinarySearchTree::create(&10);
    tree.insert(&4);
    let once = tree.get_all_sorted();
    tree.insert(&4);
    assert_eq!(tree.get_all_sorted(), once);
    tree.insert(&6);
    tree.remove(&6);
    assert_eq!(tree.get_all_sorted(), once);
    tree.remove(&6);
    assert_eq!(tree.get_all_sorted(), once);
}

#[test]
fn list_insert_after_the_cursor() {
    let mut list = LinkedList::new();
    list.insert_back(&1);
    list.insert_back(&2);
    let mut cursor = list.iter();
    assert_eq!(cursor.next(&list), Some(1));
    assert_eq!(list.insert_after(&cursor, &3), Ok(()));
    assert_eq!(values_of(&list), vec![1, 2, 3]);
    assert_eq!(list.size(), 3);
    assert_eq!(list.back(), Ok(3));
    assert_eq!(cursor.next(&list), Some(2));
    assert_eq!(cursor.next(&list), Some(3));
    assert_eq!(cursor.next(&list), None);
}

#[test]
fn list_insert_before_the_cursor() {
    let mut list = LinkedList::new();
    list.insert_back(&1);
    list.insert_back(&2);
    let mut cursor = list.iter();
    assert_eq!(list.insert_before(&cursor, &0), Ok(()));
    assert_eq!(list.front(), Ok(0));
    cursor.next(&list);
    assert_eq!(list.insert_before(&cursor, &5), Ok(()));
    assert_eq!(values_of(&list), vec![0, 1, 5, 2]);
    assert_eq!(list.count_front(), 4);
    assert_eq!(list.count_back(), 4);
}

#[test]
fn list_refuses_a_cursor_past_the_end() {
    let mut list = LinkedList::new();
    list.insert_back(&1);
    let mut cursor = list.iter();
    cursor.next(&list);
    assert_eq!(list.insert_after(&cursor, &2), Err(ListError::NoPosition));
    assert_eq!(list.insert_before(&cursor, &2), Err(ListError::NoPosition));
    assert_eq!(list.size(), 1);
    assert_eq!(values_of(&list), vec![1]);
}

#[test]
fn list_refuses_a_cursor_on_a_popped_cell() {
    let mut list = LinkedList::new();
    list.insert_back(&1);
    list.insert_back(&2);
    let cursor = list.iter();
    assert_eq!(list.pop_front(), Some(1));
    assert_eq!(list.insert_after(&cursor, &9), Err(ListError::NoPosition));
    assert_eq!(values_of(&list), vec![2]);
}

#[test]
fn empty_list_has_no_ends() {
    let mut list: LinkedList<i32> = LinkedList::new();
    assert_eq!(list.front(), Err(ListError::Empty));
    assert_eq!(list.back(), Err(ListError::Empty));
    assert_eq!(list.pop_front(), None);
    assert_eq!(list.pop_back(), None);
    assert!(list.empty());
    assert_eq!(list.size(), 0);
}

#[test]
fn list_counts_agree_after_every_operation() {
    let mut list = LinkedList::new();
    for value in 0..20 {
        if value % 2 == 0 {
            list.insert_back(&value);
        } else {
            list.insert_front(&value);
        }
        assert_eq!(list.size(), list.count_front());
        assert_eq!(list.size(), list.count_back());
    }
    assert_eq!(list.pop_front(), Some(19));
    assert_eq!(list.pop_back(), Some(18));
    while !list.is_empty() {
        list.pop_back();
        list.pop_front();
        assert_eq!(list.size(), list.count_front());
        assert_eq!(list.size(), list.count_back());
    }
}

#[test]
fn merkle_root_of_three_leaves() {
    let (a, b, c) = (11u64, 22u64, 33u64);
    let expected = mix(&mix(&a, &b), &mix(&c, &c));
    let built = MerkleTree::create(mix, &vec![a, b, c]);
    assert_eq!(built.root(), expected);
    assert_eq!(built.size(), 6);
    let mut grown = MerkleTree::create(mix, &vec![a, b]);
    assert_eq!(grown.size(), 3);
    assert_eq!(grown.append_hash(c), expected);
    assert_eq!(grown.root(), expected);
    assert_eq!(grown.size(), 6);
}

#[test]
fn merkle_grown_equals_built() {
    let mut grown = MerkleTree::empty_tree(mix);
    assert_eq!(grown.size(), 0);
    let mut leaves = Vec::new();
    for leaf in 0..40u64 {
        leaves.push(leaf * leaf + 3);
        let root = grown.append_hash(leaf * leaf + 3);
        let built = MerkleTree::create(mix, &leaves);
        assert_eq!(root, built.root());
        assert_eq!(grown.size(), built.size());
        assert_eq!(grown.size(), tree_length_for_input(leaves.len()));
    }
}

#[test]
fn merkle_tree_lengths() {
    assert_eq!(tree_length_for_input(0), 0);
    assert_eq!(tree_length_for_input(1), 1);
    assert_eq!(tree_length_for_input(4), 7);
    assert_eq!(tree_length_for_input(5), 11);
}

#[test]
fn heap_pops_ascend() {
    let mut heap = Heap::create(vec![1, 6, 4, 5, 6, 3, 3]);
    assert_eq!(heap.top(), Some(&1));
    let mut popped = Vec::new();
    while let Some(top) = heap.top().copied() {
        assert_eq!(heap.pop(), Some(top));
        popped.push(top);
    }
    assert_eq!(popped, vec![1, 3, 3, 4, 5, 6, 6]);
    assert_eq!(heap.pop(), None);
    assert!(heap.is_empty());
}

#[test]
fn heap_remove_takes_one_occurrence() {
    let mut heap = Heap::create(vec![1, 6, 4, 5, 6, 3, 3]);
    assert!(heap.remove(3));
    assert!(heap.contains(&3));
    assert!(heap.remove(3));
    assert!(!heap.contains(&3));
    assert!(!heap.remove(3));
    assert!(!heap.remove(17));
    let mut popped = Vec::new();
    while let Some(top) = heap.pop() {
        popped.push(top);
    }
    assert_eq!(popped, vec![1, 4, 5, 6, 6]);
}

#[test]
fn heap_remove_keeps_the_order_when_the_moved_item_is_small() {
    let mut heap = Heap::create(Vec::new());
    for value in [1, 10, 2, 11, 12, 3] {
        heap.push(value);
    }
    assert!(heap.remove(11));
    let mut popped = Vec::new();
    while let Some(top) = heap.pop() {
        popped.push(top);
    }
    assert_eq!(popped, vec![1, 2, 3, 10, 12]);
}

#[test]
fn heap_merge_holds_both() {
    let mut heap = Heap::create(vec![5, 1]);
    let other = Heap::create(vec![4, 1, 9]);
    heap.merge(&other);
    assert_eq!(heap_sort(vec![5, 1, 4, 1, 9]), vec![1, 1, 4, 5, 9]);
    let mut popped = Vec::new();
    while let Some(top) = heap.pop() {
        popped.push(top);
    }
    assert_eq!(popped, vec![1, 1, 4, 5, 9]);
}

#[test]
fn sorts_on_given_values() {
    let mut shell = [5, 2, 8, 3, 1, 4];
    shell_sort(&mut shell);
    assert_eq!(shell, [1, 2, 3, 4, 5, 8]);
    let mut radix = vec![170u64, 45, 75, 90, 802, 24, 2, 66];
    radix_sort(&mut radix);
    assert_eq!(radix, vec![2, 24, 45, 66, 75, 90, 170, 802]);
    let mut quick = [3, 1, 1, 3, 2, 2, 1];
    quick_sort(&mut quick);
    assert_eq!(quick, [1, 1, 1, 2, 2, 3, 3]);
    let mut bubble = [9, -1, 4, 4, 0];
    bubble_sort(&mut bubble);
    assert_eq!(bubble, [-1, 0, 4, 4, 9]);
    let mut deque: VecDeque<i32> = VecDeque::from(vec![4, 1, 3, 1, 2]);
    merge_sort(&mut deque);
    assert_eq!(deque, VecDeque::from(vec![1, 1, 2, 3, 4]));
    let mut empty: VecDeque<i32> = VecDeque::new();
    merge_sort(&mut empty);
    assert!(empty.is_empty());
}

#[test]
fn shell_sort_uses_every_gap() {
    let mut values: Vec<u32> = (0..2000u32).map(|i| (i * 7919) % 2003).collect();
    let mut expected = values.clone();
    expected.sort();
    shell_sort(&mut values);
    assert_eq!(values, expected);
    assert_eq!(gap_at(0), 701);
    assert_eq!(gap_at(3), 57);
    assert_eq!(gap_at(7), 1);
}

#[test]
fn radix_sort_reaches_the_top_digit() {
    let mut values = vec![u64::MAX, 0, 10_000_000_000_000_000_000, 9_999_999_999_999_999_999, 7];
    radix_sort(&mut values);
    assert_eq!(
        values,
        vec![0, 7, 9_999_999_999_999_999_999, 10_000_000_000_000_000_000, u64::MAX]
    );
    assert_eq!(distribute(&vec![21, 10, 32, 11, 20], 1), vec![10, 20, 21, 11, 32]);
}

#[test]
fn searches_that_find_nothing() {
    assert_eq!(binary_search(&[1, 3, 5, 7], &4), None);
    assert_eq!(binary_search(&[1, 3, 5, 7], &7), Some(3));
    let nothing: [i32; 0] = [];
    assert_eq!(binary_search(&nothing, &4), None);
    assert_eq!(fixed_point(&[1, 2, 3, 4]), None);
    assert_eq!(fixed_point(&[0, 5, 6]), Some(0));
    assert_eq!(fixed_point(&[]), None);
    assert_eq!(fixed_point(&[0, 1, 2, 3, 4]), Some(2));
    assert_eq!(fixed_point(&[2, 3, 4, 5, 6, 7, 8, 9, 10]), None);
}

struct Recorder {
    history: Vec<i32>,
    limit: i32,
}

impl Visitor<i32, String> for Recorder {
    fn visit(&mut self, data: &i32) -> Result<i32, String> {
        if *data >= self.limit {
            return Err(format!("{} is too much", data));
        }
        self.history.push(*data);
        Ok(*data + 100)
    }
}

#[test]
fn list_accepts_a_visitor_head_to_tail() {
    let mut list = LinkedList::new();
    for value in 0..5 {
        list.insert_back(&value);
    }
    let cursor = list.iter();
    let mut recorder = Recorder { history: Vec::new(), limit: 10 };
    assert_eq!(list.accept(&mut recorder), Ok(()));
    assert_eq!(recorder.history, vec![0, 1, 2, 3, 4]);
    assert_eq!(values_of(&list), vec![100, 101, 102, 103, 104]);
    assert_eq!(list.insert_after(&cursor, &7), Ok(()));
    assert_eq!(values_of(&list), vec![100, 7, 101, 102, 103, 104]);
    let mut strict = Recorder { history: Vec::new(), limit: 102 };
    assert_eq!(list.accept(&mut strict), Err(String::from("102 is too much")));
    assert_eq!(values_of(&list), vec![100, 7, 101, 102, 103, 104]);
}

#[test]
fn avl_outline_lists_a_node_before_its_subtrees() {
    let mut tree = AVLTree::new();
    for key in 0..7 {
        tree.insert(&key);
    }
    assert_eq!(
        tree.traverse(),
        vec![(0, 3), (1, 1), (2, 0), (2, 2), (1, 5), (2, 4), (2, 6)]
    );
    let empty: AVLTree<i32> = AVLTree::new();
    assert_eq!(empty.traverse(), vec![]);
    assert_eq!(empty.level(), 0);
}

#[test]
fn heap_remove_counts_down() {
    let mut heap = Heap::create(vec![2, 2, 2, 1]);
    assert!(heap.remove(2));
    assert!(heap.remove(2));
    assert!(heap.contains(&2));
    assert!(heap.remove(2));
    assert!(!heap.contains(&2));
    assert_eq!(heap.top(), Some(&1));
    assert_eq!(heap.pop(), Some(1));
    assert_eq!(heap.top(), None);
}

#[test]
fn keys_of_several_integer_types() {
    let mut bytes = [200u8, 3, 255, 0];
    quick_sort(&mut bytes);
    assert_eq!(bytes, [0, 3, 200, 255]);
    let mut wide = [i64::MAX, -5, i64::MIN, 0];
    shell_sort(&mut wide);
    assert_eq!(wide, [i64::MIN, -5, 0, i64::MAX]);
    let mut sizes = vec![9usize, 1, 5];
    sizes = heap_sort(sizes);
    assert_eq!(sizes, vec![1, 5, 9]);
    let mut small = [3i8, -128, 127, -1];
    bubble_sort(&mut small);
    assert_eq!(small, [-128, -1, 3, 127]);
    let mut tree = BinarySearchTree::new();
    for key in [70000u32, 5, 4_000_000_000] {
        tree.insert(&key);
    }
    assert_eq!(tree.get_all_sorted(), vec![5, 70000, 4_000_000_000]);
    assert_eq!(binary_search(&[-3i16, 0, 8], &8), Some(2));
}

fn chain(keys: &[i32], to_the_right: bool) -> Option<Box<Node<i32>>> {
    let mut link = None;
    for key in keys.iter().rev() {
        link = if to_the_right {
            Some(Box::new(Node { left: None, right: link, data: *key }))
        } else {
            Some(Box::new(Node { left: link, right: None, data: *key }))
        };
    }
    link
}

#[test]
fn level_diff_tells_how_far_out_of_balance() {
    let right_heavy = AVLNode { link: chain(&[1, 2, 3], true) };
    assert_eq!(right_heavy.level(), 3);
    assert_eq!(right_heavy.level_diff(), 2);
    let left_heavy = AVLNode { link: chain(&[9, 8, 7, 6], false) };
    assert_eq!(left_heavy.level_diff(), -3);
    let leaning = AVLNode { link: chain(&[1, 2], true) };
    assert_eq!(leaning.level_diff(), 0);
    let empty: AVLNode<i32> = AVLNode { link: None };
    assert_eq!(empty.level_diff(), 0);
    let mut grown = AVLNode::new(&1);
    grown.insert(&2);
    grown.insert(&3);
    assert_eq!(grown.level_diff(), 0);
    assert_eq!(grown.level(), 2);
}

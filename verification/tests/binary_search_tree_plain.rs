use classic_structures::binary_search_tree::{BSTOps, BinarySearchTree};

#[test]
fn it_contains_one_element_inserted() {
    let bst=BinarySearchTree::create(&0);
    assert!(bst.contains(&0));
}

#[test]
fn it_contains_two_element_inserted() {
    let mut bst=BinarySearchTree::create(&0);
    bst.insert(&1);
    assert!(bst.contains(&0));
    assert!(bst.contains(&1));
}

#[test]
fn it_contains_three_element_inserted() {
    let mut bst=BinarySearchTree::create(&0);
    bst.insert(&1);
    bst.insert(&2);
    assert!(bst.contains(&0));
    assert!(bst.contains(&1));
    assert!(bst.contains(&2));
}

#[test]
fn it_contain_no_not_inserted_element_one_element_inserted() {
    let bst=BinarySearchTree::create(&0);
    assert!(bst.contains(&0));
    assert!(!bst.contains(&13));
}

#[test]
fn it_contain_no_not_inserted_element_two_element_inserted() {
    let mut bst=BinarySearchTree::create(&0);
    bst.insert(&1);
    assert!(bst.contains(&0));
    assert!(bst.contains(&1));
    assert!(!bst.contains(&2));
}

#[test]
fn it_contain_no_not_inserted_element_three_element_inserted() {
    let mut bst=BinarySearchTree::create(&0);
    bst.insert(&1);
    bst.insert(&2);
    assert!(bst.contains(&0));
    assert!(bst.contains(&1));
    assert!(bst.contains(&2));
    assert!(!bst.contains(&3));
}

#[test]
fn it_contain_no_removed_element_one_element_inserted() {
    let mut bst=BinarySearchTree::new();
    bst.insert(&0);
    assert!(bst.contains(&0));
    bst.remove(&0);
    assert!(!bst.contains(&0));
    assert!(!bst.contains(&3));
}

#[test]
fn it_contain_no_removed_element_two_element_inserted() {
    let mut bst=BinarySearchTree::new();
    bst.insert(&0);
    bst.insert(&1);
    assert!(bst.contains(&1));
    bst.remove(&1);
    assert!(bst.contains(&0));
    assert!(!bst.contains(&1));
    assert!(!bst.contains(&2));
    assert!(!bst.contains(&3));
}

#[test]
fn it_contain_no_removed_element_three_element_inserted() {
    let mut bst=BinarySearchTree::new();
    bst.insert(&0);
    bst.insert(&1);
    bst.insert(&2);
    assert!(bst.contains(&2));
    bst.remove(&2);
    assert!(bst.contains(&0));
    assert!(bst.contains(&1));
    assert!(!bst.contains(&2));
    assert!(!bst.contains(&3));
}

#[test]
fn it_contain_no_removed_element_four_element_inserted() {
    let mut bst=BinarySearchTree::new();
    bst.insert(&0);
    bst.insert(&1);
    bst.insert(&2);
    bst.insert(&3);
    assert!(bst.contains(&3));
    bst.remove(&3);
    assert!(bst.contains(&0));
    assert!(bst.contains(&1));
    assert!(bst.contains(&2));
    assert!(!bst.contains(&3));
    assert!(!bst.contains(&4));
}

#[test]
fn it_contain_no_removed_element_five_element_inserted() {
    let mut bst=BinarySearchTree::new();
    bst.insert(&0);
    bst.insert(&1);
    bst.insert(&2);
    bst.insert(&3);
    bst.insert(&4);
    assert!(bst.contains(&4));
    bst.remove(&4);
    assert!(bst.contains(&0));
    assert!(bst.contains(&1));
    assert!(bst.contains(&2));
    assert!(bst.contains(&3));
    assert!(!bst.contains(&4));
    assert!(!bst.contains(&5));
}

#[test]
fn it_contain_no_removed_internal_element() {
    let mut bst=BinarySearchTree::new();
    bst.insert(&0);
    bst.insert(&1);
    bst.insert(&2);
    bst.insert(&3);
    bst.insert(&4);
    bst.insert(&5);
    bst.insert(&6);
    bst.insert(&7);
    bst.insert(&8);
    bst.insert(&9);
    assert!(bst.contains(&4));
    bst.remove(&4);
    assert!(bst.contains(&0));
    assert!(bst.contains(&1));
    assert!(bst.contains(&2));
    assert!(bst.contains(&3));
    assert!(!bst.contains(&4));
    assert!(bst.contains(&5));
    assert!(bst.contains(&6));
    assert!(bst.contains(&7));
    assert!(bst.contains(&8));
    assert!(bst.contains(&9));
    assert!(!bst.contains(&10));
}

#[test]
fn it_contain_no_removed_internal_element_2() {
    let mut bst=BinarySearchTree::new();

    for i in 0..10 {
        bst.insert(&i);
    }

    for i in 0..10 {
        assert!(bst.contains(&i));
    }

    for _ in 0..10000 {
        let number= rand::random::<u32>() % 10;

        assert!(bst.contains(&number));
        bst.remove(&number);
        assert!(!bst.contains(&number));
        bst.insert(&number);
        assert!(bst.contains(&number));
    }

    for i in 0..10 {
        assert!(bst.contains(&i));
    }
}

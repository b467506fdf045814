use classic_structures::avl_tree::AVLTree;
use classic_structures::binary_search_tree::BSTOps;

fn tree_with(data: &i32) -> AVLTree<i32> {
    let mut tree = AVLTree::new();
    tree.insert(data);
    tree
}

#[test]
fn it_has_level_one_for_one_element(){
    let avl_tree=tree_with(&0);
    assert_eq!(avl_tree.level(),1);
}

#[test]
fn it_has_level_two_for_two_elements(){
    let mut avl_tree=tree_with(&0);
    avl_tree.insert(&3);
    assert_eq!(avl_tree.level(),2);
}

#[test]
fn it_has_level_two_for_three_elements(){
    let mut avl_tree=tree_with(&0);
    avl_tree.insert(&1);
    avl_tree.insert(&3);
    assert_eq!(avl_tree.level(),2);
}

#[test]
fn it_has_level_three_for_four_elements(){
    let mut avl_tree=tree_with(&0);
    avl_tree.insert(&1);
    avl_tree.insert(&2);
    avl_tree.insert(&3);

    assert_eq!(avl_tree.level(),3);
}

#[test]
fn it_contains_one_element() {
    let avl_tree=tree_with(&1);
    assert!(avl_tree.contains(&1));
}

#[test]
fn it_contains_two_elements(){
    let mut avl_tree=tree_with(&0);
    avl_tree.insert(&3);
    assert!(avl_tree.contains(&0));
    assert!(avl_tree.contains(&3));
}

#[test]
fn it_contains_three_elements(){
    let mut avl_tree=tree_with(&0);
    avl_tree.insert(&1);
    avl_tree.insert(&3);
    assert!(avl_tree.contains(&0));
    assert!(avl_tree.contains(&1));
    assert!(avl_tree.contains(&3));
}

#[test]
fn it_contains_four_elements(){
    let mut avl_tree=tree_with(&0);
    avl_tree.insert(&1);
    avl_tree.insert(&2);
    avl_tree.insert(&3);
    assert!(avl_tree.contains(&0));
    assert!(avl_tree.contains(&1));
    assert!(avl_tree.contains(&2));
    assert!(avl_tree.contains(&3));
}

#[test]
fn it_contains_no_not_included_element() {
    let avl_tree=tree_with(&0);
    assert!(!avl_tree.contains(&13));
}

#[test]
fn it_works() {
    let mut avl_tree=tree_with(&0);
    for i in 1..10 {
        avl_tree.insert(&i);
        assert!(avl_tree.contains(&i));
        assert_eq!(avl_tree.level_diff(), 0);
    }
    for i in -10..0 {
        avl_tree.insert(&i);
        assert!(avl_tree.contains(&i));
        assert_eq!(avl_tree.level_diff(), 0);
    }
}

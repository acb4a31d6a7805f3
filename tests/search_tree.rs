use graph_algorithms::binary_search_tree;
use graph_algorithms::BinarySearchTree;

fn sample() -> binary_search_tree::BinarySearchTree {
    let mut bst = binary_search_tree::BinarySearchTree::new(8);
    bst.add(5);
    bst.add(10);
    bst.add(5);
    bst.add(3);
    bst.add(5);
    bst.add(6);
    bst.add(8);
    bst.add(9);
    bst.add(15);
    bst
}

#[test]
fn binary_search_tree_add_in_same_order() {
    let mut bst1 = binary_search_tree::BinarySearchTree::new(1);
    bst1.add(1);
    bst1.add(2);

    let mut bst2 = binary_search_tree::BinarySearchTree::new(1);
    bst2.add(1);
    bst2.add(2);

    assert_eq!(bst1, bst2);
}

#[test]
fn binary_search_tree_add_in_different_order() {
    let bst1 = sample();

    let mut bst2 = binary_search_tree::BinarySearchTree::new(8);
    bst2.add(10);
    bst2.add(5);
    bst2.add(15);
    bst2.add(9);
    bst2.add(6);
    bst2.add(5);
    bst2.add(8);
    bst2.add(3);
    bst2.add(5);

    assert_eq!(bst1, bst2);
}

#[test]
fn binary_search_tree_contains() {
    let bst = sample();

    assert_eq!(bst.contains(&0), false);
    assert_eq!(bst.contains(&5), true);
    assert_eq!(bst.contains(&5), true);
    assert_eq!(bst.contains(&10), true);
    assert_eq!(bst.contains(&9), true);
    assert_eq!(bst.contains(&15), true);
    assert_eq!(bst.contains(&16), false);
}

#[test]
fn lib_add_in_same_order() {
    let mut bst1 = BinarySearchTree::new(1);
    bst1.add(1);
    bst1.add(2);

    let mut bst2 = BinarySearchTree::new(1);
    bst2.add(1);
    bst2.add(2);

    assert_eq!(bst1, bst2);
}

#[test]
fn lib_add_in_different_order() {
    let mut bst1 = BinarySearchTree::new(8);
    bst1.add(5);
    bst1.add(10);
    bst1.add(5);
    bst1.add(3);
    bst1.add(5);
    bst1.add(6);
    bst1.add(8);
    bst1.add(9);
    bst1.add(15);

    let mut bst2 = BinarySearchTree::new(8);
    bst2.add(10);
    bst2.add(5);
    bst2.add(15);
    bst2.add(9);
    bst2.add(6);
    bst2.add(5);
    bst2.add(8);
    bst2.add(3);
    bst2.add(5);

    assert_eq!(bst1, bst2);
}

#[test]
fn lib_contains() {
    let mut bst = BinarySearchTree::new(8);
    bst.add(5);
    bst.add(10);
    bst.add(5);
    bst.add(3);
    bst.add(5);
    bst.add(6);
    bst.add(8);
    bst.add(9);
    bst.add(15);

    assert_eq!(bst.contains(&0), false);
    assert_eq!(bst.contains(&5), true);
    assert_eq!(bst.contains(&10), true);
    assert_eq!(bst.contains(&9), true);
    assert_eq!(bst.contains(&15), true);
    assert_eq!(bst.contains(&16), false);
}

#[test]
fn different_shapes_hold_the_same_keys() {
    let mut a = BinarySearchTree::new(4);
    let mut b = BinarySearchTree::new(4);
    for v in [1, 7, 3, 9, 2] {
        a.add(v);
    }
    for v in [9, 2, 3, 7, 1] {
        b.add(v);
    }
    assert_ne!(a, b);
    for v in -2..12 {
        assert_eq!(a.contains(&v), b.contains(&v));
    }
}

#[test]
fn delete_leaf_and_inner_nodes() {
    let mut bst = sample();
    bst.delete(&15);
    assert!(!bst.contains(&15));
    bst.delete(&10);
    assert!(!bst.contains(&10));
    for v in [3, 5, 6, 8, 9] {
        assert!(bst.contains(&v));
    }
}

#[test]
fn delete_with_predecessor_splice() {
    let mut bst = BinarySearchTree::new(50);
    for v in [20, 10, 30, 25, 35, 33, 70] {
        bst.add(v);
    }
    bst.delete(&20);
    assert!(!bst.contains(&20));
    for v in [10, 25, 30, 33, 35, 50, 70] {
        assert!(bst.contains(&v));
    }

    let mut expected = BinarySearchTree::new(50);
    for v in [10, 30, 25, 35, 33, 70] {
        expected.add(v);
    }
    // the predecessor of 20 is 10, which has no right child, so it takes 20's place
    assert_eq!(bst, expected);
}

#[test]
fn delete_deep_predecessor_keeps_its_left_child() {
    let mut bst = BinarySearchTree::new(100);
    for v in [50, 20, 60, 55, 58, 57] {
        bst.add(v);
    }
    bst.delete(&60);
    assert!(!bst.contains(&60));
    for v in [20, 50, 55, 57, 58, 100] {
        assert!(bst.contains(&v));
    }
    let mut expected = BinarySearchTree::new(100);
    for v in [50, 20, 58, 55, 57] {
        expected.add(v);
    }
    assert_eq!(bst, expected);
}

#[test]
fn delete_root_value_is_ignored() {
    let mut bst = sample();
    bst.delete(&8);
    assert!(bst.contains(&8));
    assert_eq!(bst, sample());
}

#[test]
fn delete_absent_value_changes_nothing() {
    let mut bst = sample();
    bst.delete(&4);
    assert_eq!(bst, sample());
}

#[test]
fn delete_one_of_duplicates() {
    let mut bst = sample();
    bst.delete(&5);
    assert!(bst.contains(&5));
    bst.delete(&5);
    bst.delete(&5);
    assert!(!bst.contains(&5));
    assert!(bst.contains(&3));
    assert!(bst.contains(&6));
}

use graph_algorithms::union_find_tree::{UnionFindError, UnionFindTree};

#[test]
fn it_works() {
    let mut uft = UnionFindTree::new(8);

    uft.unite_group(1, 2);
    uft.unite_group(1, 5);
    assert!(uft.same_group(1, 2));
    assert!(uft.same_group(1, 5));
    assert!(!uft.same_group(1, 3));

    uft.unite_group(6, 4);
    uft.unite_group(4, 7);
    assert!(uft.same_group(6, 4));
    assert!(uft.same_group(6, 7));
    assert!(!uft.same_group(2, 4));

    uft.unite_group(1, 7);
    assert!(uft.same_group(1, 7));
    assert!(uft.same_group(2, 4));
}

#[test]
fn fresh_structure_has_singletons() {
    let mut uft = UnionFindTree::new(5);
    for a in 0..5 {
        for b in 0..5 {
            assert_eq!(uft.same_group(a, b), a == b);
        }
    }
}

#[test]
fn connectivity_is_symmetric_and_transitive() {
    let mut uft = UnionFindTree::new(6);
    uft.unite_group(0, 1);
    uft.unite_group(2, 1);
    uft.unite_group(3, 4);
    assert!(uft.same_group(0, 2));
    assert!(uft.same_group(2, 0));
    assert!(uft.same_group(4, 3));
    assert!(!uft.same_group(0, 3));
    uft.unite_group(0, 0);
    uft.unite_group(1, 0);
    assert!(!uft.same_group(5, 0));
    assert!(uft.same_group(5, 5));
}

#[test]
fn long_chain_of_unions() {
    let n = 1000;
    let mut uft = UnionFindTree::new(n);
    for i in 1..n {
        uft.unite_group(i, i - 1);
    }
    assert!(uft.same_group(0, n - 1));
    assert!(uft.same_group(n / 2, 3));
}

#[test]
fn checked_operations_report_out_of_range_ids() {
    let mut uft = UnionFindTree::new(4);
    assert_eq!(uft.len(), 4);
    assert_eq!(uft.try_unite_group(0, 4), Err(UnionFindError::IndexOutOfRange));
    assert_eq!(uft.try_same_group(7, 1), Err(UnionFindError::IndexOutOfRange));
    assert_eq!(uft.try_unite_group(0, 3), Ok(()));
    assert_eq!(uft.try_same_group(3, 0), Ok(true));
    assert_eq!(uft.try_same_group(1, 0), Ok(false));
}

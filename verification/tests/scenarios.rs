use btree_index::tree::BTree;

#[test]
fn full_leaf_root_holds_five_keys() {
    let mut tree = BTree::new(3);
    for k in [1, 3, 5, 7, 9] {
        tree.insert(k);
    }
    assert!(tree.search(5));
    assert!(!tree.search(6));
    let root = tree.root.as_ref().unwrap();
    assert!(root.leaf);
    assert_eq!(root.keys, vec![1, 3, 5, 7, 9]);
    assert_eq!(root.children.len(), 0);
}

#[test]
fn sixth_key_splits_the_root() {
    let mut tree = BTree::new(3);
    for k in [1, 3, 5, 7, 9, 11] {
        tree.insert(k);
    }
    assert!(tree.search(11));
    let root = tree.root.as_ref().unwrap();
    assert!(!root.leaf);
    assert_eq!(root.keys.len(), 1);
    assert_eq!(root.children.len(), 2);
    assert!(root.children[0].leaf);
    assert!(root.children[1].leaf);
    for k in [1, 3, 5, 7, 9, 11] {
        assert!(tree.search(k));
    }
}

#[test]
fn common_keys_of_two_trees() {
    let mut a = BTree::new(3);
    for k in [1, 3, 5, 7, 9] {
        a.insert(k);
    }
    let mut b = BTree::new(3);
    for k in [2, 3, 5, 8, 10] {
        b.insert(k);
    }
    let mut common = Vec::new();
    for k in 1..=10 {
        if a.search(k) && b.search(k) {
            common.push(k);
        }
    }
    assert_eq!(common, vec![3, 5]);
}

#[test]
fn empty_tree_reports_nothing() {
    let tree = BTree::new(2);
    assert!(!tree.search(0));
    assert!(!tree.search(42));
    assert!(!tree.search(i32::MIN));
    assert!(!tree.search(i32::MAX));
    assert!(tree.root.is_none());
}

use btree_index::tree::BTree;

#[test]
fn round_trip_after_each_insert() {
    let keys = [8, 1, 13, 4, 21, 2, 34, 3, 55, 5, 89, 7, 144, 6, 233];
    let mut tree = BTree::new(2);
    for (n, k) in keys.iter().enumerate() {
        tree.insert(*k);
        assert!(tree.search(*k));
        for seen in &keys[..=n] {
            assert!(tree.search(*seen));
        }
    }
    for k in keys {
        assert!(tree.search(k));
    }
}

#[test]
fn never_inserted_keys_stay_absent() {
    let mut tree = BTree::new(2);
    for k in 0..40 {
        tree.insert(2 * k);
    }
    for k in 0..40 {
        assert!(tree.search(2 * k));
        assert!(!tree.search(2 * k + 1));
    }
    assert!(!tree.search(-1));
    assert!(!tree.search(80));
}

#[test]
fn search_does_not_mutate_the_tree() {
    let mut tree = BTree::new(3);
    let mut twin = BTree::new(3);
    for k in [5, 1, 9, 3, 7, 2, 8] {
        tree.insert(k);
        twin.insert(k);
    }
    for _ in 0..3 {
        for k in 0..=10 {
            let first = tree.search(k);
            let second = tree.search(k);
            assert_eq!(first, second);
        }
    }
    assert_eq!(tree, twin);
}

#[test]
fn ascending_inserts_grow_the_root_once_full() {
    let degree = 2;
    let mut tree = BTree::new(degree);
    for k in 1..=3 {
        tree.insert(k as i32);
    }
    {
        let root = tree.root.as_ref().unwrap();
        assert!(root.leaf);
        assert_eq!(root.keys.len(), 2 * degree - 1);
    }
    tree.insert(4);
    let root = tree.root.as_ref().unwrap();
    assert!(!root.leaf);
    assert_eq!(root.keys.len(), 1);
    assert_eq!(root.children.len(), 2);
    for k in 1..=4 {
        assert!(tree.search(k));
    }
}

#[test]
fn repeated_insert_leaves_the_tree_unchanged() {
    let mut once = BTree::new(3);
    let mut twice = BTree::new(3);
    for k in [4, 2, 6] {
        once.insert(k);
        twice.insert(k);
    }
    twice.insert(4);
    twice.insert(2);
    assert_eq!(once, twice);
    assert!(twice.search(4));
    let root = twice.root.as_ref().unwrap();
    assert_eq!(root.keys, vec![2, 4, 6]);
}

#[test]
fn extreme_keys_are_handled() {
    let mut tree = BTree::new(2);
    for k in [i32::MIN, i32::MAX, 0, -1, 1] {
        tree.insert(k);
    }
    assert!(tree.search(i32::MIN));
    assert!(tree.search(i32::MAX));
    assert!(tree.search(0));
    assert!(tree.search(-1));
    assert!(tree.search(1));
    assert!(!tree.search(2));
    assert!(!tree.search(i32::MIN + 1));
}

#[test]
fn descending_inserts_build_a_deep_balanced_tree() {
    let mut tree = BTree::new(2);
    for k in (1..=32).rev() {
        tree.insert(k);
    }
    for k in 1..=32 {
        assert!(tree.search(k));
    }
    assert!(!tree.search(0));
    assert!(!tree.search(33));
    let root = tree.root.as_ref().unwrap();
    assert!(!root.leaf);
    assert!(root.keys.len() <= 3);
}

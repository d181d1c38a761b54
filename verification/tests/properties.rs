use binary_search_tree::BinarySearchTree;

#[test]
fn empty_container() {
    let mut tree = BinarySearchTree::new();
    assert!(tree.is_empty());
    assert_eq!(tree.len(), 0);
    assert_eq!(tree.min(), None);
    assert_eq!(tree.max(), None);
    assert_eq!(tree.pop_min(), None);
    assert_eq!(tree.pop_max(), None);
    assert_eq!(tree.successor(&0), None);
    assert_eq!(tree.predecessor(&0), None);
    assert!(tree.inorder_traversal().is_empty());
    assert!(tree.reverse_order_traversal().is_empty());
}

#[test]
fn default_is_empty() {
    let tree = BinarySearchTree::default();
    assert!(tree.is_empty());
    assert_eq!(tree.len(), 0);
}

#[test]
fn seven_values_scenario() {
    let mut tree = BinarySearchTree::new();
    for v in [25, 15, 40, 10, 18, 45, 35] {
        assert!(tree.insert(v).is_some());
    }
    assert_eq!(tree.min(), Some(10));
    assert_eq!(tree.max(), Some(45));
    assert_eq!(tree.inorder_traversal(), vec![10, 15, 18, 25, 35, 40, 45]);
    // Queries between stored values land on the neighbouring members.
    assert_eq!(tree.successor(&20), Some(25));
    assert_eq!(tree.predecessor(&20), Some(18));
    assert_eq!(tree.successor(&45), None);
    assert_eq!(tree.predecessor(&10), None);
}

#[test]
fn duplicate_insert_counts_once() {
    let mut tree = BinarySearchTree::new();
    assert!(tree.insert(7).is_some());
    assert!(tree.insert(7).is_none());
    assert!(tree.insert(7).is_none());
    assert_eq!(tree.len(), 1);
    assert!(tree.contains(&7));
}

#[test]
fn membership_is_insertion_order_independent() {
    let mut first = BinarySearchTree::new();
    let mut second = BinarySearchTree::new();
    for v in [3, 1, 4, 1, 5, 9, 2, 6] {
        first.insert(v);
    }
    for v in [9, 6, 5, 4, 3, 2, 1, 1] {
        second.insert(v);
    }
    for v in [1, 2, 3, 4, 5, 6, 9] {
        assert!(first.contains(&v));
        assert!(second.contains(&v));
    }
    assert!(!first.contains(&7));
    assert!(!second.contains(&7));
    assert_eq!(first.inorder_traversal(), second.inorder_traversal());
    assert_eq!(first.len(), second.len());
}

#[test]
fn traversals_mirror_each_other() {
    let mut tree = BinarySearchTree::new();
    for v in [8, 3, 10, 1, 6, 14, 4, 7, 13] {
        tree.insert(v);
    }
    let ascending = tree.inorder_traversal();
    let mut mirrored = tree.reverse_order_traversal();
    mirrored.reverse();
    assert_eq!(ascending, mirrored);
    for pair in ascending.windows(2) {
        assert!(pair[0] < pair[1]);
    }
}

#[test]
fn removal_updates_membership_and_len() {
    let mut tree = BinarySearchTree::new();
    for v in [5, 2, 8, 1, 3, 7, 9] {
        tree.insert(v);
    }
    assert_eq!(tree.len(), 7);
    // Absent value: nothing changes.
    let before = tree.inorder_traversal();
    assert!(tree.remove(&6).is_none());
    assert_eq!(tree.len(), 7);
    assert_eq!(tree.inorder_traversal(), before);
    // Interior node with two children.
    assert!(tree.remove(&2).is_some());
    assert!(!tree.contains(&2));
    assert_eq!(tree.len(), 6);
    assert_eq!(tree.inorder_traversal(), vec![1, 3, 5, 7, 8, 9]);
    // The root, also with two children.
    assert!(tree.remove(&5).is_some());
    assert!(!tree.contains(&5));
    assert_eq!(tree.len(), 5);
    assert_eq!(tree.inorder_traversal(), vec![1, 3, 7, 8, 9]);
}

#[test]
fn remove_all_leaves_empty() {
    let mut tree = BinarySearchTree::new();
    for v in [25, 15, 40, 10, 18, 45, 35] {
        tree.insert(v);
    }
    for v in [18, 45, 25, 10, 35, 40, 15] {
        assert!(tree.remove(&v).is_some());
    }
    assert!(tree.is_empty());
    assert_eq!(tree.len(), 0);
    assert_eq!(tree.min(), None);
    assert_eq!(tree.max(), None);
}

#[test]
fn pop_extracts_the_ends() {
    let mut tree = BinarySearchTree::new();
    for v in [20, 10, 30, 5, 25] {
        tree.insert(v);
    }
    assert_eq!(tree.pop_min(), Some(5));
    assert!(!tree.contains(&5));
    assert_eq!(tree.min(), Some(10));
    assert_eq!(tree.pop_max(), Some(30));
    assert!(!tree.contains(&30));
    assert_eq!(tree.max(), Some(25));
    // The cached count is only maintained by insert and remove.
    assert_eq!(tree.len(), 5);
    assert_eq!(tree.inorder_traversal(), vec![10, 20, 25]);
}

#[test]
fn pop_drains_in_order() {
    let mut tree = BinarySearchTree::new();
    for v in [4, 2, 6, 1, 3, 5, 7] {
        tree.insert(v);
    }
    let mut drained = Vec::new();
    while let Some(v) = tree.pop_min() {
        drained.push(v);
    }
    assert_eq!(drained, vec![1, 2, 3, 4, 5, 6, 7]);
    assert_eq!(tree.min(), None);
    assert_eq!(tree.max(), None);
    assert!(tree.inorder_traversal().is_empty());
}

#[test]
fn min_max_match_traversal_ends() {
    let mut tree = BinarySearchTree::new();
    for v in [12, -3, 40, 0, 27] {
        tree.insert(v);
    }
    let inorder = tree.inorder_traversal();
    assert_eq!(tree.min(), Some(inorder[0]));
    assert_eq!(tree.max(), Some(inorder[inorder.len() - 1]));
}

#[test]
fn len_tracks_inserts_and_removes() {
    let mut tree = BinarySearchTree::new();
    assert_eq!(tree.len(), 0);
    tree.insert(1);
    assert_eq!(tree.len(), 1);
    tree.insert(2);
    assert_eq!(tree.len(), 2);
    tree.insert(2);
    assert_eq!(tree.len(), 2);
    tree.remove(&1);
    assert_eq!(tree.len(), 1);
    tree.remove(&1);
    assert_eq!(tree.len(), 1);
    tree.remove(&2);
    assert_eq!(tree.len(), 0);
    assert!(tree.is_empty());
}

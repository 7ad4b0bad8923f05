use avltree::tree::AvlTree;

fn sample() -> AvlTree<i32> {
    let mut tree: AvlTree<i32> = AvlTree::new();
    for key in [33, 13, 11, 53, 61, 21, 8, 9] {
        tree.insert(key);
    }
    tree
}

#[test]
fn sample_tree_has_the_expected_shape() {
    let tree = sample();
    assert_eq!(tree.inorder(), vec![8, 9, 11, 13, 21, 33, 53, 61]);
    assert_eq!(tree.preorder(), vec![33, 13, 9, 8, 11, 21, 53, 61]);
    assert_eq!(tree.leaves(), 4);
    assert_eq!(tree.search(33).unwrap().height(), 4);
    assert_eq!(tree.search(13).unwrap().height(), 3);
    assert_eq!(tree.search(9).unwrap().height(), 2);
    assert_eq!(tree.search(53).unwrap().height(), 2);
    assert_eq!(tree.search(8).unwrap().height(), 1);
    assert_eq!(tree.search(61).unwrap().height(), 1);
}

#[test]
fn insert_then_search_finds_each_key() {
    let tree = sample();
    for key in [33, 13, 11, 53, 61, 21, 8, 9] {
        assert!(tree.search(key).is_some());
    }
    assert!(tree.search(7).is_none());
    assert!(tree.search(34).is_none());
    assert!(!tree.is_empty());
}

#[test]
fn delete_node_with_two_children_promotes_successor() {
    let mut tree = sample();
    tree.delete(13);
    assert!(tree.search(13).is_none());
    assert_eq!(tree.inorder(), vec![8, 9, 11, 21, 33, 53, 61]);
    assert_eq!(tree.preorder(), vec![33, 9, 8, 21, 11, 53, 61]);
    assert_eq!(tree.search(21).unwrap().height(), 2);
    assert_eq!(tree.search(9).unwrap().height(), 3);
}

#[test]
fn delete_leaf_shrinks_directly() {
    let mut tree = sample();
    tree.delete(13);
    tree.delete(11);
    assert!(tree.search(11).is_none());
    assert_eq!(tree.inorder(), vec![8, 9, 21, 33, 53, 61]);
    assert_eq!(tree.preorder(), vec![33, 9, 8, 21, 53, 61]);
}

#[test]
fn delete_node_with_right_child_splices_it_up() {
    let mut tree = sample();
    tree.delete(13);
    tree.delete(11);
    tree.delete(53);
    assert!(tree.search(53).is_none());
    assert_eq!(tree.inorder(), vec![8, 9, 21, 33, 61]);
    assert_eq!(tree.preorder(), vec![33, 9, 8, 21, 61]);
    assert_eq!(tree.search(61).unwrap().height(), 1);
}

#[test]
fn four_deletions_leave_four_keys_in_a_balanced_tree() {
    let mut tree = sample();
    tree.delete(13);
    tree.delete(11);
    tree.delete(53);
    tree.delete(61);
    assert_eq!(tree.inorder(), vec![8, 9, 21, 33]);
    assert_eq!(tree.preorder(), vec![9, 8, 33, 21]);
    assert_eq!(tree.leaves(), 2);
    assert_eq!(tree.search(9).unwrap().height(), 3);
    assert_eq!(tree.search(33).unwrap().height(), 2);
    assert_eq!(tree.search(8).unwrap().height(), 1);
    assert_eq!(tree.search(21).unwrap().height(), 1);
}

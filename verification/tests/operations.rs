use avltree::node::Node;
use avltree::tree::AvlTree;

fn tree_of(keys: &[i32]) -> AvlTree<i32> {
    let mut tree: AvlTree<i32> = AvlTree::new();
    for key in keys {
        tree.insert(*key);
    }
    tree
}

#[test]
fn new_tree_is_empty() {
    let tree: AvlTree<i32> = AvlTree::new();
    assert!(tree.is_empty());
    assert_eq!(tree.leaves(), 0);
    assert_eq!(tree.inorder(), Vec::<i32>::new());
    assert_eq!(tree.preorder(), Vec::<i32>::new());
    assert!(tree.search(1).is_none());
}

#[test]
fn new_node_is_a_leaf_of_height_one() {
    let node = Node::new(7u64);
    assert!(node.is_some());
    assert_eq!(node.unwrap().height(), 1);
}

#[test]
fn single_key_tree() {
    let tree = tree_of(&[5]);
    assert!(!tree.is_empty());
    assert_eq!(tree.leaves(), 1);
    assert_eq!(tree.inorder(), vec![5]);
    assert_eq!(tree.preorder(), vec![5]);
    assert_eq!(tree.search(5).unwrap().height(), 1);
}

#[test]
fn left_left_case_rotates_right() {
    let tree = tree_of(&[3, 2, 1]);
    assert_eq!(tree.preorder(), vec![2, 1, 3]);
    assert_eq!(tree.search(2).unwrap().height(), 2);
    assert_eq!(tree.search(1).unwrap().height(), 1);
    assert_eq!(tree.search(3).unwrap().height(), 1);
}

#[test]
fn right_right_case_rotates_left() {
    let tree = tree_of(&[1, 2, 3]);
    assert_eq!(tree.preorder(), vec![2, 1, 3]);
    assert_eq!(tree.search(2).unwrap().height(), 2);
}

#[test]
fn left_right_case_rotates_twice() {
    let tree = tree_of(&[3, 1, 2]);
    assert_eq!(tree.preorder(), vec![2, 1, 3]);
    assert_eq!(tree.search(2).unwrap().height(), 2);
    assert_eq!(tree.search(1).unwrap().height(), 1);
    assert_eq!(tree.search(3).unwrap().height(), 1);
}

#[test]
fn right_left_case_rotates_twice() {
    let tree = tree_of(&[1, 3, 2]);
    assert_eq!(tree.preorder(), vec![2, 1, 3]);
    assert_eq!(tree.search(2).unwrap().height(), 2);
}

#[test]
fn left_heavy_with_even_child_takes_a_single_rotation() {
    let mut tree = tree_of(&[4, 2, 5, 1, 3]);
    assert_eq!(tree.preorder(), vec![4, 2, 1, 3, 5]);
    tree.delete(5);
    assert_eq!(tree.preorder(), vec![2, 1, 4, 3]);
    assert_eq!(tree.search(2).unwrap().height(), 3);
    assert_eq!(tree.search(4).unwrap().height(), 2);
}

#[test]
fn right_heavy_with_even_child_takes_a_single_rotation() {
    let mut tree = tree_of(&[2, 1, 4, 3, 5]);
    assert_eq!(tree.preorder(), vec![2, 1, 4, 3, 5]);
    tree.delete(1);
    assert_eq!(tree.preorder(), vec![4, 2, 3, 5]);
    assert_eq!(tree.search(4).unwrap().height(), 3);
    assert_eq!(tree.search(2).unwrap().height(), 2);
}

#[test]
fn inserting_a_present_key_changes_nothing() {
    let mut tree = tree_of(&[33, 13, 11, 53, 61, 21, 8, 9]);
    let before = tree.clone();
    for key in [33, 13, 11, 53, 61, 21, 8, 9] {
        tree.insert(key);
        assert_eq!(tree, before);
    }
    assert_eq!(tree.inorder(), vec![8, 9, 11, 13, 21, 33, 53, 61]);
    assert_eq!(tree.preorder(), before.preorder());
}

#[test]
fn deleting_an_absent_key_changes_nothing() {
    let mut tree = tree_of(&[33, 13, 11, 53, 61, 21, 8, 9]);
    let before = tree.clone();
    for key in [0, 10, 12, 34, 100] {
        tree.delete(key);
        assert_eq!(tree, before);
    }
    let mut empty: AvlTree<i32> = AvlTree::new();
    empty.delete(1);
    assert!(empty.is_empty());
}

#[test]
fn count_follows_the_keys_and_not_the_calls() {
    let mut once = tree_of(&[1, 2, 3]);
    let mut twice = tree_of(&[1, 1, 2, 2, 3, 3]);
    assert_eq!(once, twice);
    once.delete(2);
    twice.delete(2);
    twice.delete(2);
    twice.delete(9);
    assert_eq!(once, twice);
}

#[test]
fn deleted_key_is_gone_and_the_others_stay() {
    let keys = [33, 13, 11, 53, 61, 21, 8, 9];
    for gone in keys {
        let mut tree = tree_of(&keys);
        tree.delete(gone);
        assert!(tree.search(gone).is_none());
        let mut expected: Vec<i32> = keys.iter().copied().filter(|k| *k != gone).collect();
        expected.sort();
        assert_eq!(tree.inorder(), expected);
        for kept in expected {
            assert!(tree.search(kept).is_some());
        }
    }
}

#[test]
fn deleting_every_key_empties_the_tree() {
    let mut tree = tree_of(&[33, 13, 11, 53, 61, 21, 8, 9]);
    for key in [9, 61, 33, 8, 13, 53, 21, 11] {
        assert!(!tree.is_empty());
        tree.delete(key);
    }
    assert!(tree.is_empty());
    assert_eq!(tree, AvlTree::new());
    assert_eq!(tree.leaves(), 0);
}

#[test]
fn search_returns_the_node_with_its_subtree_height() {
    let tree = tree_of(&[4, 2, 6, 1, 3, 5, 7]);
    assert_eq!(tree.preorder(), vec![4, 2, 1, 3, 6, 5, 7]);
    assert_eq!(tree.search(4).unwrap().height(), 3);
    for key in [2, 6] {
        assert_eq!(tree.search(key).unwrap().height(), 2);
    }
    for key in [1, 3, 5, 7] {
        assert_eq!(tree.search(key).unwrap().height(), 1);
    }
    assert_eq!(tree.leaves(), 4);
}

#[test]
fn cloned_node_equals_its_source() {
    let tree = tree_of(&[2, 1, 3]);
    let root = tree.search(2).unwrap();
    let copy = root.clone();
    assert_eq!(&copy, root);
    assert_eq!(copy.height(), 2);
}

#[test]
fn keys_of_another_ordered_type() {
    let mut tree: AvlTree<char> = AvlTree::new();
    for key in ['m', 'c', 'x', 'a', 'e'] {
        tree.insert(key);
    }
    assert_eq!(tree.inorder(), vec!['a', 'c', 'e', 'm', 'x']);
    assert_eq!(tree.preorder(), vec!['m', 'c', 'a', 'e', 'x']);
    tree.delete('m');
    assert_eq!(tree.preorder(), vec!['c', 'a', 'x', 'e']);
    assert!(tree.search('m').is_none());
}

#[test]
fn len_counts_the_keys() {
    let mut tree = tree_of(&[5, 3, 8, 3, 5]);
    assert_eq!(tree.len(), 3);
    tree.delete(4);
    assert_eq!(tree.len(), 3);
    tree.delete(3);
    assert_eq!(tree.len(), 2);
    tree.delete(5);
    tree.delete(8);
    assert_eq!(tree.len(), 0);
}

use avltree::order::is_less;
use avltree::order::is_same;
use avltree::tree::AvlTree;

/// Height of the search tree whose pre-order is `pre`, with every node's
/// cached height and balance checked against the shape on the way.
fn checked_height(tree: &AvlTree<u32>, pre: &[u32]) -> i8 {
    if pre.is_empty() {
        return 0;
    }
    let root = pre[0];
    let split = pre[1..].iter().position(|k| *k > root).map(|p| p + 1).unwrap_or(pre.len());
    let left = checked_height(tree, &pre[1..split]);
    let right = checked_height(tree, &pre[split..]);
    assert!((left - right).abs() <= 1);
    let height = 1 + left.max(right);
    assert_eq!(tree.search(root).unwrap().height(), height);
    height
}

fn assert_shape(tree: &AvlTree<u32>) {
    let inorder = tree.inorder();
    for pair in inorder.windows(2) {
        assert!(pair[0] < pair[1]);
    }
    let pre = tree.preorder();
    assert_eq!(pre.len(), inorder.len());
    checked_height(tree, &pre);
    assert_eq!(tree.is_empty(), inorder.is_empty());
}

fn scrambled(n: u32) -> Vec<u32> {
    let mut keys = Vec::new();
    let mut x: u32 = 1;
    for _ in 0..n {
        x = (x * 37 + 11) % 1009;
        keys.push(x);
    }
    keys
}

#[test]
fn order_and_balance_hold_after_every_step() {
    let mut tree: AvlTree<u32> = AvlTree::new();
    let keys = scrambled(300);
    for key in &keys {
        tree.insert(*key);
        assert_shape(&tree);
    }
    for key in keys.iter().rev().step_by(2) {
        tree.delete(*key);
        assert_shape(&tree);
        assert!(tree.search(*key).is_none());
    }
}

#[test]
fn ascending_keys_fill_a_perfect_tree() {
    let mut tree: AvlTree<u32> = AvlTree::new();
    for key in 1..=1023 {
        tree.insert(key);
    }
    assert_shape(&tree);
    assert_eq!(tree.preorder()[0], 512);
    assert_eq!(tree.search(512).unwrap().height(), 10);
    assert_eq!(tree.leaves(), 512);
    assert_eq!(tree.inorder(), (1..=1023).collect::<Vec<u32>>());
}

#[test]
fn round_trip_in_another_order_ends_empty() {
    let mut tree: AvlTree<u32> = AvlTree::new();
    let keys = scrambled(200);
    for key in &keys {
        tree.insert(*key);
    }
    let mut order = keys.clone();
    order.sort();
    order.reverse();
    for key in order {
        tree.delete(key);
        assert_shape(&tree);
    }
    assert!(tree.is_empty());
}

#[test]
fn comparisons_follow_the_operators() {
    assert!(is_less(&1, &2));
    assert!(!is_less(&2, &1));
    assert!(!is_less(&2, &2));
    assert!(is_same(&2, &2));
    assert!(!is_same(&1, &2));
}

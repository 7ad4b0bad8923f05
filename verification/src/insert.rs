//! Insertion of a key into a subtree.

use vstd::prelude::*;

use crate::balance::balance_tree;
use crate::balance::join;
use crate::balance::lemma_height_bounds;
use crate::balance::lemma_join_cached;
use crate::balance::rebalanced;
use crate::balance::update_height;
use crate::balance_proofs::lemma_join;
use crate::balance_proofs::lemma_parts;
use crate::balance_proofs::lemma_rebalanced;
use crate::balance_proofs::nearly_avl;
use crate::node::avl;
use crate::node::height_of;
use crate::node::inorder_of;
use crate::node::keys_of;
use crate::node::Node;
use crate::node::size_of;
use crate::node::Tree;
use crate::node_proofs::lemma_root_bounds;
use crate::order::is_less;
use crate::order::is_same;
use crate::order::lemma_lt_asymmetric;
use crate::order::lemma_lt_connected;
use crate::order::lt;
use crate::sequence::lemma_with_key_empty;
use crate::sequence::lemma_with_key_left;
use crate::sequence::lemma_with_key_middle;
use crate::sequence::lemma_with_key_right;
use crate::sequence::with_key;

verus! {

/// The largest height of a subtree that still takes a new key: one more
/// level below it must fit the cached height, and one more above it while
/// the parent is rebalanced.
pub(crate) open spec fn height_limit() -> int {
    i8::MAX - 2
}

/// The subtree that insertion of `key` makes of `t`: a new leaf where `t`
/// is absent, `t` itself where its root holds `key`, and else the root over
/// the child on the side of `key` with `key` inserted and the other child,
/// with its height computed anew and then rebalanced.
pub open(crate) spec fn inserted_tree<T: Ord>(t: Tree<T>, key: T) -> Tree<T>
    decreases t,
{
    match t {
        None => join(key, None, None),
        Some(n) => if key == n.key {
            t
        } else if lt(key, n.key) {
            rebalanced(join(n.key, inserted_tree(n.left, key), n.right))
        } else {
            rebalanced(join(n.key, n.left, inserted_tree(n.right, key)))
        },
    }
}

/// What `do_insert` owes for `tree` and `key`, said of a result `r`.
pub(crate) open spec fn inserted<T: Ord>(tree: Tree<T>, key: T, r: Tree<T>) -> bool {
    &&& r == inserted_tree(tree, key)
    &&& avl(r)
    &&& r.is_some()
    &&& keys_of(r) == keys_of(tree).insert(key)
    &&& inorder_of(r) == with_key(inorder_of(tree), key)
    &&& keys_of(tree).contains(key) ==> r == tree
    &&& size_of(r) == size_of(tree) + if keys_of(tree).contains(key) {
        0nat
    } else {
        1nat
    }
    &&& height_of(tree) <= height_of(r) <= height_of(tree) + 1
}

/// Where `key` is below the root's key and `grown` is the left subtree with
/// `key` added, the root over `grown` and the old right subtree, rebalanced,
/// is the whole subtree with `key` added.
pub(crate) proof fn lemma_insert_left<T: Ord>(tree: Tree<T>, key: T, grown: Tree<T>)
    requires
        avl(tree),
        tree.is_some(),
        height_of(tree) <= height_limit(),
        lt(key, tree.unwrap().key),
        inserted(tree.unwrap().left, key, grown),
    ensures
        nearly_avl(join(tree.unwrap().key, grown, tree.unwrap().right)),
        inserted(tree, key, rebalanced(join(tree.unwrap().key, grown, tree.unwrap().right))),
{
    let n = tree.unwrap();
    let u = join(n.key, grown, n.right);
    let r = rebalanced(u);
    lemma_parts(tree);
    lemma_height_bounds(tree);
    lemma_height_bounds(n.left);
    lemma_height_bounds(n.right);
    lemma_height_bounds(grown);
    lemma_join(n.key, grown, n.right);
    lemma_join_cached(n.key, grown, n.right);
    assert(nearly_avl(u));
    lemma_rebalanced(u);
    assert(keys_of(r) == keys_of(tree).insert(key)) by {
        assert(keys_of(u) =~= keys_of(tree).insert(key));
    }
    assert(inorder_of(r) == with_key(inorder_of(tree), key)) by {
        lemma_root_bounds(tree);
        lemma_with_key_left(inorder_of(n.left), n.key, inorder_of(n.right), key);
    }
    lemma_lt_asymmetric(key, n.key);
    assert(keys_of(tree).contains(key) == keys_of(n.left).contains(key));
    if keys_of(tree).contains(key) {
        assert(u == tree);
    }
}

/// Where `key` is above the root's key and `grown` is the right subtree with
/// `key` added, the root over the old left subtree and `grown`, rebalanced,
/// is the whole subtree with `key` added.
pub(crate) proof fn lemma_insert_right<T: Ord>(tree: Tree<T>, key: T, grown: Tree<T>)
    requires
        avl(tree),
        tree.is_some(),
        height_of(tree) <= height_limit(),
        lt(tree.unwrap().key, key),
        inserted(tree.unwrap().right, key, grown),
    ensures
        nearly_avl(join(tree.unwrap().key, tree.unwrap().left, grown)),
        inserted(tree, key, rebalanced(join(tree.unwrap().key, tree.unwrap().left, grown))),
{
    let n = tree.unwrap();
    let u = join(n.key, n.left, grown);
    let r = rebalanced(u);
    lemma_parts(tree);
    lemma_height_bounds(tree);
    lemma_height_bounds(n.left);
    lemma_height_bounds(n.right);
    lemma_height_bounds(grown);
    lemma_join(n.key, n.left, grown);
    lemma_join_cached(n.key, n.left, grown);
    assert(nearly_avl(u));
    lemma_rebalanced(u);
    assert(keys_of(r) == keys_of(tree).insert(key)) by {
        assert(keys_of(u) =~= keys_of(tree).insert(key));
    }
    assert(inorder_of(r) == with_key(inorder_of(tree), key)) by {
        lemma_root_bounds(tree);
        lemma_with_key_right(inorder_of(n.left), n.key, inorder_of(n.right), key);
    }
    lemma_lt_asymmetric(n.key, key);
    assert(keys_of(tree).contains(key) == keys_of(n.right).contains(key));
    if keys_of(tree).contains(key) {
        assert(u == tree);
    }
}

/// A subtree that holds `key` at its root is itself with `key` added.
pub(crate) proof fn lemma_insert_here<T: Ord>(tree: Tree<T>)
    requires
        avl(tree),
        tree.is_some(),
    ensures
        inserted(tree, tree.unwrap().key, tree),
{
    let n = tree.unwrap();
    assert(inorder_of(tree) == with_key(inorder_of(tree), n.key)) by {
        lemma_parts(tree);
        lemma_root_bounds(tree);
        lemma_with_key_middle(inorder_of(n.left), n.key, inorder_of(n.right));
    }
    assert(keys_of(tree).contains(n.key)) by {
        lemma_parts(tree);
    }
    assert(keys_of(tree).insert(n.key) == keys_of(tree)) by {
        assert(keys_of(tree).insert(n.key) =~= keys_of(tree));
    }
}

/// Adds `key` to `tree` where `tree` does not hold it, and restores the
/// balance along the path from the new node to the root. A `tree` that holds
/// `key` comes back as it is.
pub(crate) fn do_insert<T: Ord + Copy>(tree: Tree<T>, key: T) -> (r: Tree<T>)
    requires
        avl(tree),
        height_of(tree) <= height_limit(),
    ensures
        inserted(tree, key, r),
    decreases tree,
{
    match tree {
        None => {
            let leaf = Node::new(key);
            proof {
                lemma_with_key_empty(key);
                lemma_parts(leaf);
                assert(keys_of(leaf) =~= keys_of(tree).insert(key));
                assert(inorder_of(leaf) =~= seq![key]);
            }
            leaf
        },
        Some(mut root) => {
            proof {
                lemma_height_bounds(tree);
            }
            if is_same(&key, &root.key) {
                proof {
                    lemma_insert_here(tree);
                }
                Some(root)
            } else if is_less(&key, &root.key) {
                let sub = root.left.take();
                let grown = do_insert(sub, key);
                proof {
                    lemma_insert_left(tree, key, grown);
                    lemma_height_bounds(grown);
                }
                root.left = grown;
                balance_tree(update_height(Some(root)))
            } else {
                proof {
                    lemma_lt_connected(key, root.key);
                }
                let sub = root.right.take();
                let grown = do_insert(sub, key);
                proof {
                    lemma_insert_right(tree, key, grown);
                    lemma_height_bounds(grown);
                }
                root.right = grown;
                balance_tree(update_height(Some(root)))
            }
        },
    }
}

} // verus!

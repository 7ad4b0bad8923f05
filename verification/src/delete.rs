//! Removal of a key from a subtree.

use vstd::prelude::*;

use crate::balance::balance_tree;
use crate::balance::join;
use crate::balance::lemma_height_bounds;
use crate::balance::lemma_join_cached;
use crate::balance::rebalanced;
use crate::balance::update_height;
use crate::balance_proofs::lemma_join;
use crate::balance_proofs::lemma_parts;
use crate::balance_proofs::lemma_rebalanced;
use crate::balance_proofs::nearly_avl;
use crate::node::avl;
use crate::node::height_of;
use crate::node::inorder_of;
use crate::node::keys_of;
use crate::node::Node;
use crate::node::size_of;
use crate::node::subtree;
use crate::node::Tree;
use crate::node_proofs::lemma_inorder_keys;
use crate::node_proofs::lemma_ordered_increasing;
use crate::node_proofs::lemma_root_bounds;
use crate::order::is_less;
use crate::order::lemma_lt_asymmetric;
use crate::order::lemma_lt_connected;
use crate::order::lemma_lt_irreflexive;
use crate::order::lemma_lt_transitive;
use crate::order::lt;
use crate::sequence::lemma_without_first;
use crate::sequence::lemma_without_key_empty;
use crate::sequence::lemma_without_key_left;
use crate::sequence::lemma_without_key_middle;
use crate::sequence::lemma_without_key_right;
use crate::sequence::without_key;

verus! {

/// The key of the last node on the way down from the root of `t` along left
/// children.
pub open(crate) spec fn leftmost_key<T>(t: Tree<T>) -> T
    recommends
        t.is_some(),
    decreases t,
{
    match t {
        None => arbitrary(),
        Some(n) => if n.left.is_none() {
            n.key
        } else {
            leftmost_key(n.left)
        },
    }
}

/// The subtree that deletion of `key` makes of `t`. Where `key` is below or
/// above the root's key: the root over the child on that side with `key`
/// deleted and the other child, with its height computed anew and then
/// rebalanced. Where the root holds `key`: the right child if there is no
/// left one, the left child if there is no right one, and else the root with
/// the leftmost key of its right child in place of `key`, over the left
/// child and the right child with that leftmost key deleted, again with its
/// height computed anew and then rebalanced.
pub open(crate) spec fn deleted_tree<T: Ord>(t: Tree<T>, key: T) -> Tree<T>
    decreases t,
{
    match t {
        None => None,
        Some(n) => if lt(key, n.key) {
            rebalanced(join(n.key, deleted_tree(n.left, key), n.right))
        } else if lt(n.key, key) {
            rebalanced(join(n.key, n.left, deleted_tree(n.right, key)))
        } else if n.left.is_none() {
            n.right
        } else if n.right.is_none() {
            n.left
        } else {
            let next = leftmost_key(n.right);
            rebalanced(join(next, n.left, deleted_tree(n.right, next)))
        },
    }
}

/// What `do_delete` owes for `tree` and `key`, said of a result `r`.
pub(crate) open spec fn deleted<T: Ord>(tree: Tree<T>, key: T, r: Tree<T>) -> bool {
    &&& r == deleted_tree(tree, key)
    &&& avl(r)
    &&& keys_of(r) == keys_of(tree).remove(key)
    &&& inorder_of(r) == without_key(inorder_of(tree), key)
    &&& !keys_of(tree).contains(key) ==> r == tree
    &&& size_of(r) + if keys_of(tree).contains(key) {
        1nat
    } else {
        0nat
    } == size_of(tree)
    &&& height_of(tree) - 1 <= height_of(r) <= height_of(tree)
}

/// The node with the smallest key of `tree`: the last one on the way down
/// along left children. Nothing where `tree` is absent.
pub(crate) fn find_min<T>(tree: &Tree<T>) -> (m: Option<&Node<T>>)
    ensures
        m.is_some() == tree.is_some(),
        m.is_some() ==> {
            &&& m.unwrap().left.is_none()
            &&& inorder_of(*tree).len() > 0
            &&& m.unwrap().key == inorder_of(*tree)[0]
            &&& m.unwrap().key == leftmost_key(*tree)
        },
{
    match tree {
        Some(sub_tree) => {
            let mut cur: &Node<T> = sub_tree;
            proof {
                lemma_parts(*tree);
            }
            while cur.left.is_some()
                invariant
                    leftmost_key(subtree(*cur)) == leftmost_key(*tree),
                    cur.inorder().len() > 0,
                    inorder_of(*tree).len() > 0,
                    cur.inorder()[0] == inorder_of(*tree)[0],
                decreases cur,
            {
                proof {
                    lemma_parts(cur.left);
                }
                cur = cur.left.as_ref().unwrap();
            }
            proof {
                assert(inorder_of(cur.left) =~= Seq::<T>::empty());
            }
            Some(cur)
        },
        None => None,
    }
}

/// Where `key` is below the root's key and `shrunk` is the left subtree
/// without `key`, the root over `shrunk` and the old right subtree,
/// rebalanced, is the whole subtree without `key`.
pub(crate) proof fn lemma_delete_left<T: Ord>(tree: Tree<T>, key: T, shrunk: Tree<T>)
    requires
        avl(tree),
        tree.is_some(),
        lt(key, tree.unwrap().key),
        deleted(tree.unwrap().left, key, shrunk),
    ensures
        nearly_avl(join(tree.unwrap().key, shrunk, tree.unwrap().right)),
        deleted(tree, key, rebalanced(join(tree.unwrap().key, shrunk, tree.unwrap().right))),
{
    let n = tree.unwrap();
    let u = join(n.key, shrunk, n.right);
    let r = rebalanced(u);
    lemma_parts(tree);
    lemma_height_bounds(tree);
    lemma_height_bounds(n.left);
    lemma_height_bounds(n.right);
    lemma_height_bounds(shrunk);
    lemma_join(n.key, shrunk, n.right);
    lemma_join_cached(n.key, shrunk, n.right);
    assert(nearly_avl(u));
    lemma_rebalanced(u);
    lemma_lt_asymmetric(key, n.key);
    lemma_lt_irreflexive(key);
    assert(keys_of(tree).contains(key) == keys_of(n.left).contains(key));
    assert(keys_of(r) == keys_of(tree).remove(key)) by {
        assert(keys_of(u) =~= keys_of(tree).remove(key));
    }
    assert(inorder_of(r) == without_key(inorder_of(tree), key)) by {
        lemma_root_bounds(tree);
        lemma_without_key_left(inorder_of(n.left), n.key, inorder_of(n.right), key);
    }
    if !keys_of(tree).contains(key) {
        assert(u == tree);
    }
}

/// Where `key` is above the root's key and `shrunk` is the right subtree
/// without `key`, the root over the old left subtree and `shrunk`,
/// rebalanced, is the whole subtree without `key`.
pub(crate) proof fn lemma_delete_right<T: Ord>(tree: Tree<T>, key: T, shrunk: Tree<T>)
    requires
        avl(tree),
        tree.is_some(),
        lt(tree.unwrap().key, key),
        deleted(tree.unwrap().right, key, shrunk),
    ensures
        nearly_avl(join(tree.unwrap().key, tree.unwrap().left, shrunk)),
        deleted(tree, key, rebalanced(join(tree.unwrap().key, tree.unwrap().left, shrunk))),
{
    let n = tree.unwrap();
    let u = join(n.key, n.left, shrunk);
    let r = rebalanced(u);
    lemma_parts(tree);
    lemma_height_bounds(tree);
    lemma_height_bounds(n.left);
    lemma_height_bounds(n.right);
    lemma_height_bounds(shrunk);
    lemma_join(n.key, n.left, shrunk);
    lemma_join_cached(n.key, n.left, shrunk);
    assert(nearly_avl(u));
    lemma_rebalanced(u);
    lemma_lt_asymmetric(n.key, key);
    lemma_lt_irreflexive(key);
    assert(keys_of(tree).contains(key) == keys_of(n.right).contains(key));
    assert(keys_of(r) == keys_of(tree).remove(key)) by {
        assert(keys_of(u) =~= keys_of(tree).remove(key));
    }
    assert(inorder_of(r) == without_key(inorder_of(tree), key)) by {
        lemma_root_bounds(tree);
        lemma_without_key_right(inorder_of(n.left), n.key, inorder_of(n.right), key);
    }
    if !keys_of(tree).contains(key) {
        assert(u == tree);
    }
}

/// Where the root holds the key to remove and one of its subtrees is absent,
/// the other subtree is the whole subtree without that key.
pub(crate) proof fn lemma_delete_splice<T: Ord>(tree: Tree<T>)
    requires
        avl(tree),
        tree.is_some(),
        tree.unwrap().left.is_none() || tree.unwrap().right.is_none(),
    ensures
        tree.unwrap().left.is_none() ==> deleted(tree, tree.unwrap().key, tree.unwrap().right),
        tree.unwrap().left.is_some() ==> deleted(tree, tree.unwrap().key, tree.unwrap().left),
{
    let n = tree.unwrap();
    let other = if n.left.is_none() {
        n.right
    } else {
        n.left
    };
    lemma_parts(tree);
    lemma_height_bounds(tree);
    lemma_height_bounds(n.left);
    lemma_height_bounds(n.right);
    lemma_lt_irreflexive(n.key);
    assert(keys_of(other) == keys_of(tree).remove(n.key)) by {
        assert(keys_of(other) =~= keys_of(tree).remove(n.key));
    }
    assert(inorder_of(other) == without_key(inorder_of(tree), n.key)) by {
        lemma_root_bounds(tree);
        lemma_without_key_middle(inorder_of(n.left), n.key, inorder_of(n.right));
        assert(inorder_of(n.left) + inorder_of(n.right) =~= inorder_of(other));
    }
}

/// Where the root holds the key to remove and has two children, the
/// smallest key `next` of the right subtree takes the root's place: the
/// root with `next` over the old left subtree and `shrunk`, the right
/// subtree without `next`, rebalanced, is the whole subtree without the
/// root's old key.
pub(crate) proof fn lemma_delete_successor<T: Ord>(tree: Tree<T>, next: T, shrunk: Tree<T>)
    requires
        avl(tree),
        tree.is_some(),
        tree.unwrap().right.is_some(),
        inorder_of(tree.unwrap().right).len() > 0,
        next == inorder_of(tree.unwrap().right)[0],
        next == leftmost_key(tree.unwrap().right),
        tree.unwrap().left.is_some(),
        deleted(tree.unwrap().right, next, shrunk),
    ensures
        nearly_avl(join(next, tree.unwrap().left, shrunk)),
        deleted(tree, tree.unwrap().key, rebalanced(join(next, tree.unwrap().left, shrunk))),
{
    let n = tree.unwrap();
    let u = join(next, n.left, shrunk);
    let r = rebalanced(u);
    let right = inorder_of(n.right);
    lemma_parts(tree);
    lemma_height_bounds(tree);
    lemma_height_bounds(n.left);
    lemma_height_bounds(n.right);
    lemma_height_bounds(shrunk);
    lemma_inorder_keys(n.right);
    lemma_ordered_increasing(n.right);
    assert(right.contains(next));
    assert(keys_of(n.right).contains(next));
    assert forall|k: T| #[trigger] keys_of(n.left).contains(k) implies lt(k, next) by {
        lemma_lt_transitive(k, n.key, next);
    }
    assert forall|k: T| #[trigger] keys_of(shrunk).contains(k) implies lt(next, k) by {
        assert(right.contains(k));
        let i = choose|i: int| 0 <= i < right.len() && right[i] == k;
        assert(lt(right[0], right[i]));
    }
    lemma_join(next, n.left, shrunk);
    lemma_join_cached(next, n.left, shrunk);
    assert(nearly_avl(u));
    lemma_rebalanced(u);
    lemma_lt_irreflexive(n.key);
    assert(keys_of(r) == keys_of(tree).remove(n.key)) by {
        assert(keys_of(u) =~= keys_of(tree).remove(n.key));
    }
    assert(inorder_of(r) == without_key(inorder_of(tree), n.key)) by {
        lemma_root_bounds(tree);
        lemma_without_key_middle(inorder_of(n.left), n.key, right);
        lemma_without_first(right);
        assert(inorder_of(n.left).push(next) + without_key(right, next) =~= inorder_of(n.left)
            + (seq![next] + without_key(right, next)));
    }
}

/// Removes `key` from `tree` where `tree` holds it, and restores the balance
/// along the path to the root. A node with two children gives up its key for
/// the smallest key of its right subtree, which leaves that subtree instead.
/// A `tree` that does not hold `key` comes back as it is.
pub(crate) fn do_delete<T: Ord + Copy>(tree: Tree<T>, key: T) -> (r: Tree<T>)
    requires
        avl(tree),
    ensures
        deleted(tree, key, r),
    decreases tree,
{
    match tree {
        None => {
            proof {
                lemma_without_key_empty(key);
                assert(keys_of(tree).remove(key) =~= keys_of(tree));
            }
            None
        },
        Some(mut root) => {
            proof {
                lemma_height_bounds(tree);
            }
            if is_less(&key, &root.key) {
                let sub = root.left.take();
                let shrunk = do_delete(sub, key);
                proof {
                    lemma_delete_left(tree, key, shrunk);
                    lemma_height_bounds(shrunk);
                }
                root.left = shrunk;
                balance_tree(update_height(Some(root)))
            } else if is_less(&root.key, &key) {
                let sub = root.right.take();
                let shrunk = do_delete(sub, key);
                proof {
                    lemma_delete_right(tree, key, shrunk);
                    lemma_height_bounds(shrunk);
                }
                root.right = shrunk;
                balance_tree(update_height(Some(root)))
            } else {
                proof {
                    if key != root.key {
                        lemma_lt_connected(key, root.key);
                    }
                }
                if root.left.is_none() {
                    proof {
                        lemma_delete_splice(tree);
                    }
                    return root.right.take();
                } else if root.right.is_none() {
                    proof {
                        lemma_delete_splice(tree);
                    }
                    return root.left.take();
                }
                let next = find_min(&root.right).unwrap().key;
                let sub = root.right.take();
                let shrunk = do_delete(sub, next);
                proof {
                    lemma_delete_successor(tree, next, shrunk);
                    lemma_height_bounds(shrunk);
                }
                root.key = next;
                root.right = shrunk;
                balance_tree(update_height(Some(root)))
            }
        },
    }
}

} // verus!

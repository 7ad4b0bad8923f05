//! How the set of keys, the in-order sequence and the search-tree property
//! of a subtree go together.

use vstd::prelude::*;

use crate::node::avl;
use crate::node::has_node;
use crate::node::inorder_of;
use crate::node::keys_of;
use crate::node::leaves_of;
use crate::node::Node;
use crate::node::ordered;
use crate::node::size_of;
use crate::node::subtree;
use crate::node::Tree;
use crate::order::lt;
use crate::order::total_order;
use crate::sequence::increasing;
use crate::sequence::keys_above;
use crate::sequence::keys_below;
use crate::sequence::lemma_contains_parts;
use crate::sequence::lemma_increasing_parts;

verus! {

/// The in-order sequence holds exactly the keys of the subtree, one entry
/// for each node.
pub(crate) proof fn lemma_inorder_keys<T>(t: Tree<T>)
    ensures
        forall|k: T| inorder_of(t).contains(k) <==> keys_of(t).contains(k),
        inorder_of(t).to_set() == keys_of(t),
        inorder_of(t).len() == size_of(t),
    decreases t,
{
    match t {
        None => {},
        Some(n) => {
            lemma_inorder_keys(n.left);
            lemma_inorder_keys(n.right);
            assert forall|k: T| inorder_of(t).contains(k) <==> keys_of(t).contains(k) by {
                lemma_contains_parts(inorder_of(n.left), n.key, inorder_of(n.right), k);
            }
        },
    }
    assert(inorder_of(t).to_set() =~= keys_of(t));
}

/// In a search tree the keys to the left of the root are below the root's
/// key and those to the right above it, position by position.
pub(crate) proof fn lemma_root_bounds<T: Ord>(t: Tree<T>)
    requires
        ordered(t),
        t.is_some(),
    ensures
        keys_below(inorder_of(t.unwrap().left), t.unwrap().key),
        keys_above(inorder_of(t.unwrap().right), t.unwrap().key),
{
    let n = t.unwrap();
    lemma_inorder_keys(n.left);
    lemma_inorder_keys(n.right);
    let l = inorder_of(n.left);
    let r = inorder_of(n.right);
    assert forall|i: int| 0 <= i < l.len() implies lt(#[trigger] l[i], n.key) by {
        assert(l.contains(l[i]));
    }
    assert forall|i: int| 0 <= i < r.len() implies lt(n.key, #[trigger] r[i]) by {
        assert(r.contains(r[i]));
    }
}

/// The in-order sequence of a search tree is increasing.
pub(crate) proof fn lemma_ordered_increasing<T: Ord>(t: Tree<T>)
    requires
        total_order::<T>(),
        ordered(t),
    ensures
        increasing(inorder_of(t)),
    decreases t,
{
    match t {
        None => {},
        Some(n) => {
            lemma_ordered_increasing(n.left);
            lemma_ordered_increasing(n.right);
            lemma_root_bounds(t);
            lemma_increasing_parts(inorder_of(n.left), n.key, inorder_of(n.right));
        },
    }
}

/// A node of an AVL tree is the root of an AVL tree, and its key is one of
/// the tree's keys.
pub(crate) proof fn lemma_node_in_avl<T: Ord>(t: Tree<T>, n: Node<T>)
    requires
        avl(t),
        has_node(t, n),
    ensures
        avl(subtree(n)),
        keys_of(t).contains(n.key),
    decreases t,
{
    let m = t.unwrap();
    if *m != n {
        if has_node(m.left, n) {
            lemma_node_in_avl(m.left, n);
        } else {
            lemma_node_in_avl(m.right, n);
        }
    }
}

/// A subtree has no more leaves than nodes.
pub(crate) proof fn lemma_leaves_at_most_size<T>(t: Tree<T>)
    ensures
        leaves_of(t) <= size_of(t),
    decreases t,
{
    match t {
        None => {},
        Some(n) => {
            lemma_leaves_at_most_size(n.left);
            lemma_leaves_at_most_size(n.right);
        },
    }
}

} // verus!

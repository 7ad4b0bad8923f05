//! What a stack of nodes still owes to a traversal that walks the tree
//! without recursion.

use vstd::prelude::*;

use crate::node::inorder_of;
use crate::node::leaves_of;
use crate::node::Node;
use crate::node::preorder_of;
use crate::node::size_of;
use crate::node::subtree;

verus! {

/// The nodes in the subtrees rooted at the nodes of `stack`.
pub(crate) open spec fn pending_size<T>(stack: Seq<&Node<T>>) -> nat
    decreases stack.len(),
{
    if stack.len() == 0 {
        0
    } else {
        pending_size(stack.drop_last()) + size_of(subtree(*stack.last()))
    }
}

/// The leaves in the subtrees rooted at the nodes of `stack`.
pub(crate) open spec fn pending_leaves<T>(stack: Seq<&Node<T>>) -> nat
    decreases stack.len(),
{
    if stack.len() == 0 {
        0
    } else {
        pending_leaves(stack.drop_last()) + leaves_of(subtree(*stack.last()))
    }
}

/// The pre-order keys of the subtrees rooted at the nodes of `stack`, from
/// the top of the stack down.
pub(crate) open spec fn pending_preorder<T>(stack: Seq<&Node<T>>) -> Seq<T>
    decreases stack.len(),
{
    if stack.len() == 0 {
        Seq::empty()
    } else {
        preorder_of(subtree(*stack.last())) + pending_preorder(stack.drop_last())
    }
}

/// For each node of `stack`, from the top of the stack down, its key and the
/// in-order keys of its right subtree: what an in-order walk still has to
/// visit once it is done with a node's left subtree.
pub(crate) open spec fn pending_inorder<T>(stack: Seq<&Node<T>>) -> Seq<T>
    decreases stack.len(),
{
    if stack.len() == 0 {
        Seq::empty()
    } else {
        seq![stack.last().key] + inorder_of(stack.last().right) + pending_inorder(
            stack.drop_last(),
        )
    }
}

/// The number of steps that an in-order walk has left: two for each node
/// not yet reached, one for each node on the stack.
pub(crate) open spec fn pending_steps<T>(stack: Seq<&Node<T>>) -> nat
    decreases stack.len(),
{
    if stack.len() == 0 {
        0
    } else {
        1 + 2 * size_of(stack.last().right) + pending_steps(stack.drop_last())
    }
}

/// What a stack owes once `n` has been pushed on it.
pub(crate) proof fn lemma_pushed<T>(stack: Seq<&Node<T>>, n: &Node<T>)
    ensures
        pending_size(stack.push(n)) == pending_size(stack) + size_of(subtree(*n)),
        pending_leaves(stack.push(n)) == pending_leaves(stack) + leaves_of(subtree(*n)),
        pending_preorder(stack.push(n)) == preorder_of(subtree(*n)) + pending_preorder(stack),
        pending_inorder(stack.push(n)) == seq![n.key] + inorder_of(n.right) + pending_inorder(
            stack,
        ),
        pending_steps(stack.push(n)) == 1 + 2 * size_of(n.right) + pending_steps(stack),
{
    assert(stack.push(n).drop_last() =~= stack);
}

/// What an empty stack owes: nothing.
pub(crate) proof fn lemma_nothing_pending<T>(stack: Seq<&Node<T>>)
    requires
        stack.len() == 0,
    ensures
        pending_size(stack) == 0,
        pending_leaves(stack) == 0,
        pending_preorder(stack) == Seq::<T>::empty(),
        pending_inorder(stack) == Seq::<T>::empty(),
        pending_steps(stack) == 0,
{
}

/// What the subtree rooted at a node holds, in terms of the node's parts.
pub(crate) proof fn lemma_subtree_parts<T>(n: Node<T>)
    ensures
        size_of(subtree(n)) == 1 + size_of(n.left) + size_of(n.right),
        leaves_of(subtree(n)) == if n.left.is_none() && n.right.is_none() {
            1
        } else {
            leaves_of(n.left) + leaves_of(n.right)
        },
        preorder_of(subtree(n)) == seq![n.key] + preorder_of(n.left) + preorder_of(n.right),
        inorder_of(subtree(n)) == inorder_of(n.left).push(n.key) + inorder_of(n.right),
{
}

} // verus!

//! Nodes, subtrees, and the mathematical reading of a subtree.

use vstd::math::max;
use vstd::prelude::*;

use crate::order::lt;
use crate::order::total_order;

verus! {

/// An owned, possibly absent subtree.
pub type Tree<T> = Option<Box<Node<T>>>;

/// One node of the tree: a key, two owned subtrees and the cached height of
/// the subtree rooted here.
#[derive(Debug, PartialEq)]
pub struct Node<T> {
    pub(crate) key: T,
    pub(crate) left: Tree<T>,
    pub(crate) right: Tree<T>,
    pub(crate) height: i8,
}

/// The subtree rooted at `n`.
pub open(crate) spec fn subtree<T>(n: Node<T>) -> Tree<T> {
    Some(Box::new(n))
}

/// The cached height of a subtree: 0 where it is absent.
pub open(crate) spec fn height_of<T>(t: Tree<T>) -> int {
    match t {
        None => 0,
        Some(n) => n.height as int,
    }
}

/// Left height minus right height at the root of `t`; 0 where `t` is absent.
pub open(crate) spec fn balance_of<T>(t: Tree<T>) -> int {
    match t {
        None => 0,
        Some(n) => height_of(n.left) - height_of(n.right),
    }
}

/// The set of keys in a subtree.
pub open(crate) spec fn keys_of<T>(t: Tree<T>) -> Set<T>
    decreases t,
{
    match t {
        None => Set::empty(),
        Some(n) => keys_of(n.left).union(keys_of(n.right)).insert(n.key),
    }
}

/// The keys of a subtree, left subtree first, then the root, then the right
/// subtree.
pub open(crate) spec fn inorder_of<T>(t: Tree<T>) -> Seq<T>
    decreases t,
{
    match t {
        None => Seq::empty(),
        Some(n) => inorder_of(n.left).push(n.key) + inorder_of(n.right),
    }
}

/// The keys of a subtree, the root first, then the left subtree, then the
/// right subtree.
pub open(crate) spec fn preorder_of<T>(t: Tree<T>) -> Seq<T>
    decreases t,
{
    match t {
        None => Seq::empty(),
        Some(n) => seq![n.key] + preorder_of(n.left) + preorder_of(n.right),
    }
}

/// The number of nodes in a subtree.
pub open(crate) spec fn size_of<T>(t: Tree<T>) -> nat
    decreases t,
{
    match t {
        None => 0,
        Some(n) => 1 + size_of(n.left) + size_of(n.right),
    }
}

/// The number of nodes in a subtree that have no child.
pub open(crate) spec fn leaves_of<T>(t: Tree<T>) -> nat
    decreases t,
{
    match t {
        None => 0,
        Some(n) => if n.left.is_none() && n.right.is_none() {
            1
        } else {
            leaves_of(n.left) + leaves_of(n.right)
        },
    }
}

/// Every node's cached height is one more than the larger of its children's.
pub open(crate) spec fn heights_cached<T>(t: Tree<T>) -> bool
    decreases t,
{
    match t {
        None => true,
        Some(n) => {
            &&& n.height == 1 + max(height_of(n.left), height_of(n.right))
            &&& heights_cached(n.left)
            &&& heights_cached(n.right)
        },
    }
}

/// At every node the two children's heights differ by at most one.
pub open(crate) spec fn balanced<T>(t: Tree<T>) -> bool
    decreases t,
{
    match t {
        None => true,
        Some(n) => {
            &&& -1 <= height_of(n.left) - height_of(n.right) <= 1
            &&& balanced(n.left)
            &&& balanced(n.right)
        },
    }
}

/// At every node the keys to the left are below the node's key and the keys
/// to the right are above it.
pub open(crate) spec fn ordered<T: Ord>(t: Tree<T>) -> bool
    decreases t,
{
    match t {
        None => true,
        Some(n) => {
            &&& forall|k: T| #[trigger] keys_of(n.left).contains(k) ==> lt(k, n.key)
            &&& forall|k: T| #[trigger] keys_of(n.right).contains(k) ==> lt(n.key, k)
            &&& ordered(n.left)
            &&& ordered(n.right)
        },
    }
}

/// A subtree that is a search tree with correct cached heights and the AVL
/// balance at every node, over a totally ordered key type.
pub open(crate) spec fn avl<T: Ord>(t: Tree<T>) -> bool {
    &&& total_order::<T>()
    &&& ordered(t)
    &&& heights_cached(t)
    &&& balanced(t)
}

/// `n` is the root of `t` or of a subtree below it.
pub open(crate) spec fn has_node<T>(t: Tree<T>, n: Node<T>) -> bool
    decreases t,
{
    match t {
        None => false,
        Some(m) => *m == n || has_node(m.left, n) || has_node(m.right, n),
    }
}

impl<T> Node<T> {
    /// The key held in this node.
    pub open(crate) spec fn key(self) -> T {
        self.key
    }

    /// The cached height of the subtree rooted at this node.
    pub open(crate) spec fn cached_height(self) -> int {
        self.height as int
    }

    /// The cached height of the left subtree, 0 where there is none.
    pub open(crate) spec fn left_height(self) -> int {
        height_of(self.left)
    }

    /// The cached height of the right subtree, 0 where there is none.
    pub open(crate) spec fn right_height(self) -> int {
        height_of(self.right)
    }

    /// The height of the left subtree minus that of the right subtree.
    pub open(crate) spec fn balance(self) -> int {
        height_of(self.left) - height_of(self.right)
    }

    /// The keys of the subtree rooted at this node: those of the left
    /// subtree, the node's own, those of the right subtree.
    pub open(crate) spec fn inorder(self) -> Seq<T> {
        inorder_of(self.left).push(self.key) + inorder_of(self.right)
    }

    /// This node has no child.
    pub open(crate) spec fn is_leaf(self) -> bool {
        self.left.is_none() && self.right.is_none()
    }
}

/// A copy of a subtree, node by node.
pub(crate) fn copy_of<T: Copy>(t: &Tree<T>) -> (copy: Tree<T>)
    ensures
        copy == *t,
    decreases *t,
{
    match t {
        None => None,
        Some(node) => Some(
            Box::new(
                Node {
                    key: node.key,
                    left: copy_of(&node.left),
                    right: copy_of(&node.right),
                    height: node.height,
                },
            ),
        ),
    }
}

impl<T: Copy> Clone for Node<T> {
    /// A copy of the node and of everything below it.
    fn clone(&self) -> (copy: Self)
        ensures
            copy == *self,
        decreases self,
    {
        Node {
            key: self.key,
            left: copy_of(&self.left),
            right: copy_of(&self.right),
            height: self.height,
        }
    }
}

impl<T: Ord + Copy> Node<T> {
    /// A subtree of one node that holds `key`.
    pub fn new(key: T) -> (t: Tree<T>)
        ensures
            t.is_some(),
            t.unwrap().key() == key,
            t.unwrap().is_leaf(),
            t.unwrap().cached_height() == 1,
            t.unwrap().inorder() == seq![key],
    {
        let t = Some(Box::new(Node { key: key, left: None, right: None, height: 1 }));
        proof {
            assert(inorder_of::<T>(None) =~= Seq::empty());
            assert(t.unwrap().inorder() =~= seq![key]);
        }
        t
    }

    /// The cached height of the subtree rooted at this node.
    pub fn height(&self) -> (h: i8)
        ensures
            h == self.cached_height(),
    {
        self.height
    }
}

} // verus!

//! The tree itself: a root and the number of keys below it.

use vstd::math::max;
use vstd::prelude::*;

use crate::balance_proofs::lemma_parts;
use crate::delete::deleted_tree;
use crate::delete::do_delete;
use crate::height_proofs::lemma_height_limit;
use crate::insert::do_insert;
use crate::insert::inserted_tree;
use crate::node::avl;
use crate::node::copy_of;
use crate::node::has_node;
use crate::node::inorder_of;
use crate::node::keys_of;
use crate::node::leaves_of;
use crate::node::Node;
use crate::node::preorder_of;
use crate::node::size_of;
use crate::node::Tree;
use crate::node_proofs::lemma_inorder_keys;
use crate::node_proofs::lemma_leaves_at_most_size;
use crate::node_proofs::lemma_node_in_avl;
use crate::node_proofs::lemma_ordered_increasing;
use crate::order::is_less;
use crate::order::is_same;
use crate::order::lemma_lt_asymmetric;
use crate::order::lemma_lt_connected;
use crate::order::total_order;
use crate::sequence::increasing;
use crate::sequence::lemma_with_key_holds;
use crate::sequence::lemma_without_key_holds;
use crate::sequence::with_key;
use crate::sequence::without_key;
use crate::traverse_proofs::lemma_nothing_pending;
use crate::traverse_proofs::lemma_pushed;
use crate::traverse_proofs::lemma_subtree_parts;
use crate::traverse_proofs::pending_inorder;
use crate::traverse_proofs::pending_leaves;
use crate::traverse_proofs::pending_preorder;
use crate::traverse_proofs::pending_size;
use crate::traverse_proofs::pending_steps;

verus! {

/// A set of keys of a totally ordered type, held as an AVL tree.
///
/// The tree counts its keys: `count` goes up when a key that was absent is
/// inserted and down when a key that was present is deleted, so that it is
/// at all times the number of keys in the tree.
#[derive(Debug, PartialEq)]
pub struct AvlTree<T> {
    root: Tree<T>,
    count: usize,
}

impl<T> View for AvlTree<T> {
    type V = Seq<T>;

    /// The keys of the tree in in-order: left subtree, root, right subtree.
    open spec fn view(&self) -> Seq<T> {
        inorder_of(self.root())
    }
}

impl<T> AvlTree<T> {
    /// The subtree below the root of the tree: all of its nodes.
    pub closed spec fn root(self) -> Tree<T> {
        self.root
    }

    /// The keys of the tree in pre-order: root, left subtree, right subtree.
    pub open spec fn preorder_view(self) -> Seq<T> {
        preorder_of(self.root())
    }

    /// The number of nodes without a child.
    pub open spec fn leaf_count(self) -> nat {
        leaves_of(self.root())
    }

    /// `n` is a node of this tree.
    pub open spec fn has_node(self, n: Node<T>) -> bool {
        has_node(self.root(), n)
    }
}

impl<T: Copy> Clone for AvlTree<T> {
    /// A copy of the tree.
    fn clone(&self) -> (copy: Self)
        ensures
            copy == *self,
    {
        AvlTree { root: copy_of(&self.root), count: self.count }
    }
}

impl<T: Ord + Copy> AvlTree<T> {
    /// The tree is a search tree over a totally ordered key type, every node
    /// caches the height of its subtree, the heights of the two children of
    /// a node differ by at most one, and the tree's count is the number of
    /// its keys.
    pub closed spec fn wf(self) -> bool {
        &&& avl(self.root)
        &&& self.count == size_of(self.root)
    }

    /// The in-order keys of a tree are increasing: each key is below every
    /// key that comes after it.
    pub proof fn lemma_inorder_increasing(self)
        requires
            self.wf(),
        ensures
            increasing(self@),
    {
        lemma_ordered_increasing(self.root);
    }

    /// At every node of a tree the heights of the two subtrees differ by at
    /// most one.
    pub proof fn lemma_node_balanced(self, n: Node<T>)
        requires
            self.wf(),
            self.has_node(n),
        ensures
            -1 <= n.balance() <= 1,
    {
        lemma_node_in_avl(self.root, n);
    }

    /// At every node of a tree the cached height is one more than the
    /// larger of the cached heights of its two subtrees, where an absent
    /// subtree has height 0.
    pub proof fn lemma_node_height(self, n: Node<T>)
        requires
            self.wf(),
            self.has_node(n),
        ensures
            n.cached_height() == 1 + max(n.left_height(), n.right_height()),
    {
        lemma_node_in_avl(self.root, n);
    }

    /// The key of every node of a tree is one of the tree's keys.
    pub proof fn lemma_node_key(self, n: Node<T>)
        requires
            self.wf(),
            self.has_node(n),
        ensures
            self@.contains(n.key()),
    {
        lemma_node_in_avl(self.root, n);
        lemma_inorder_keys(self.root);
    }

    /// A tree has no more leaves than keys.
    pub proof fn lemma_leaf_count_bound(self)
        ensures
            self.leaf_count() <= self@.len(),
    {
        lemma_leaves_at_most_size(self.root);
        lemma_inorder_keys(self.root);
    }

    /// The empty tree.
    pub fn new() -> (tree: Self)
        requires
            total_order::<T>(),
        ensures
            tree.wf(),
            tree.root().is_none(),
            tree@ == Seq::<T>::empty(),
    {
        AvlTree { root: None, count: 0 }
    }

    /// Whether the tree holds no key.
    pub fn is_empty(&self) -> (empty: bool)
        ensures
            empty == self.root().is_none(),
            empty == (self@.len() == 0),
    {
        proof {
            lemma_inorder_keys(self.root);
        }
        if self.root.is_none() {
            return true;
        } else {
            return false;
        }
    }

    /// The number of keys in the tree.
    pub fn len(&self) -> (n: usize)
        requires
            self.wf(),
        ensures
            n == self@.len(),
    {
        proof {
            lemma_inorder_keys(self.root);
        }
        self.count
    }

    /// The number of nodes that have no child, counted on a walk with a
    /// stack of the nodes not yet looked at.
    pub fn leaves(&self) -> (n: u32)
        requires
            self.leaf_count() <= u32::MAX,
        ensures
            n == self.leaf_count(),
    {
        if self.root.is_none() {
            return 0;
        }
        let root: &Node<T> = self.root.as_ref().unwrap();
        let mut stack: Vec<&Node<T>> = Vec::new();
        proof {
            lemma_nothing_pending(stack@);
            lemma_pushed(stack@, root);
        }
        stack.push(root);

        let mut count: u32 = 0;
        while stack.len() > 0
            invariant
                count + pending_leaves(stack@) == leaves_of(self.root),
                leaves_of(self.root) <= u32::MAX,
            decreases pending_size(stack@),
        {
            let ghost before = stack@;
            let node = stack.pop().unwrap();
            proof {
                assert(stack@ =~= before.drop_last());
                lemma_subtree_parts(*node);
            }
            if node.left.is_some() {
                let left: &Node<T> = node.left.as_ref().unwrap();
                proof {
                    lemma_pushed(stack@, left);
                }
                stack.push(left);
            }
            if node.right.is_some() {
                let right: &Node<T> = node.right.as_ref().unwrap();
                proof {
                    lemma_pushed(stack@, right);
                }
                stack.push(right);
            }
            if node.left.is_none() && node.right.is_none() {
                count += 1;
            }
        }
        proof {
            lemma_nothing_pending(stack@);
        }
        count
    }

    /// The keys in in-order, gathered on a walk with a stack of the nodes
    /// whose left subtree is being visited.
    pub fn inorder(&self) -> (keys: Vec<T>)
        ensures
            keys@ == self@,
    {
        let mut keys: Vec<T> = Vec::new();
        let mut root: &Tree<T> = &self.root;
        let mut stack: Vec<&Node<T>> = Vec::new();
        proof {
            lemma_nothing_pending(stack@);
            assert(keys@ + inorder_of(*root) + pending_inorder(stack@) =~= inorder_of(self.root));
        }
        while stack.len() > 0 || root.is_some()
            invariant
                keys@ + inorder_of(*root) + pending_inorder(stack@) == inorder_of(self.root),
            decreases 2 * size_of(*root) + pending_steps(stack@),
        {
            if root.is_some() {
                let node: &Node<T> = root.as_ref().unwrap();
                proof {
                    lemma_subtree_parts(*node);
                    lemma_pushed(stack@, node);
                    assert(inorder_of(node.left) + pending_inorder(stack@.push(node))
                        =~= inorder_of(*root) + pending_inorder(stack@));
                    assert(keys@ + inorder_of(node.left) + pending_inorder(stack@.push(node))
                        =~= keys@ + inorder_of(*root) + pending_inorder(stack@));
                }
                stack.push(node);
                root = &node.left;
            } else {
                let ghost before = stack@;
                let pop = stack.pop().unwrap();
                proof {
                    assert(stack@ =~= before.drop_last());
                    assert(inorder_of(*root) =~= Seq::<T>::empty());
                    assert(keys@.push(pop.key) + inorder_of(pop.right) + pending_inorder(stack@)
                        =~= keys@ + inorder_of(*root) + pending_inorder(before));
                }
                keys.push(pop.key);
                root = &pop.right;
            }
        }
        proof {
            lemma_nothing_pending(stack@);
            assert(inorder_of(*root) =~= Seq::<T>::empty());
            assert(keys@ + inorder_of(*root) + pending_inorder(stack@) =~= keys@);
        }
        keys
    }

    /// The keys in pre-order, gathered on a walk with a stack of the nodes
    /// not yet visited.
    pub fn preorder(&self) -> (keys: Vec<T>)
        ensures
            keys@ == self.preorder_view(),
    {
        let mut keys: Vec<T> = Vec::new();
        let mut stack: Vec<&Node<T>> = Vec::new();
        proof {
            lemma_nothing_pending(stack@);
        }
        if self.root.is_some() {
            let root: &Node<T> = self.root.as_ref().unwrap();
            proof {
                lemma_pushed(stack@, root);
            }
            stack.push(root);
        }
        proof {
            assert(keys@ + pending_preorder(stack@) =~= preorder_of(self.root));
        }
        while stack.len() > 0
            invariant
                keys@ + pending_preorder(stack@) == preorder_of(self.root),
            decreases pending_size(stack@),
        {
            let ghost before = stack@;
            let ghost done = keys@;
            let cur = stack.pop().unwrap();
            proof {
                assert(stack@ =~= before.drop_last());
                lemma_subtree_parts(*cur);
            }
            keys.push(cur.key);
            let ghost rest = stack@;
            if cur.right.is_some() {
                let right: &Node<T> = cur.right.as_ref().unwrap();
                proof {
                    lemma_pushed(stack@, right);
                }
                stack.push(right);
            }
            let ghost with_right = stack@;
            if cur.left.is_some() {
                let left: &Node<T> = cur.left.as_ref().unwrap();
                proof {
                    lemma_pushed(stack@, left);
                }
                stack.push(left);
            }
            proof {
                assert(pending_preorder(with_right) =~= preorder_of(cur.right) + pending_preorder(
                    rest,
                ));
                assert(pending_preorder(stack@) =~= preorder_of(cur.left) + pending_preorder(
                    with_right,
                ));
                assert(keys@ + pending_preorder(stack@) =~= done + pending_preorder(before));
            }
        }
        proof {
            lemma_nothing_pending(stack@);
            assert(keys@ + pending_preorder(stack@) =~= keys@);
        }
        keys
    }

    /// Adds `key` to the tree. A tree that holds `key` already stays as it
    /// is.
    pub fn insert(&mut self, key: T)
        requires
            old(self).wf(),
            old(self)@.len() < usize::MAX,
        ensures
            final(self).wf(),
            final(self).root() == inserted_tree(old(self).root(), key),
            final(self)@ == with_key(old(self)@, key),
            final(self)@.contains(key),
            old(self)@.contains(key) ==> *final(self) == *old(self) && final(self)@ == old(self)@,
            final(self)@.len() == old(self)@.len() + if old(self)@.contains(key) {
                0nat
            } else {
                1nat
            },
    {
        proof {
            lemma_inorder_keys(self.root);
            lemma_height_limit(self.root);
        }
        let fresh = Self::search_node(&self.root, &key).is_none();
        let root_node = self.root.take();
        let res_tree = do_insert(root_node, key);
        proof {
            lemma_inorder_keys(res_tree);
        }
        proof {
            lemma_with_key_holds(old(self)@, key, key);
        }
        self.root = res_tree;
        if fresh {
            self.count = self.count + 1;
        }
    }

    /// Removes `key` from the tree. A tree that does not hold `key` stays as
    /// it is.
    pub fn delete(&mut self, key: T)
        requires
            old(self).wf(),
        ensures
            final(self).wf(),
            final(self).root() == deleted_tree(old(self).root(), key),
            final(self)@ == without_key(old(self)@, key),
            !final(self)@.contains(key),
            !old(self)@.contains(key) ==> *final(self) == *old(self) && final(self)@ == old(self)@,
            final(self)@.len() + if old(self)@.contains(key) {
                1nat
            } else {
                0nat
            } == old(self)@.len(),
    {
        proof {
            lemma_inorder_keys(self.root);
        }
        let present = Self::search_node(&self.root, &key).is_some();
        let root_node = self.root.take();
        let res_tree = do_delete(root_node, key);
        proof {
            lemma_inorder_keys(res_tree);
        }
        proof {
            lemma_without_key_holds(old(self)@, key, key);
        }
        self.root = res_tree;
        if present {
            self.count = self.count - 1;
        }
    }

    /// The node that holds `key`, if the tree holds `key`.
    pub fn search(&self, key: T) -> (found: Option<&Node<T>>)
        requires
            self.wf(),
        ensures
            found.is_some() == self@.contains(key),
            found.is_some() ==> found.unwrap().key() == key && self.has_node(*found.unwrap()),
    {
        proof {
            lemma_inorder_keys(self.root);
        }
        Self::search_node(&self.root, &key)
    }

    /// The node of `tree_node` that holds `key`, if there is one: the search
    /// goes left where `key` is below a node's key and right where it is
    /// above.
    fn search_node<'a>(tree_node: &'a Tree<T>, key: &T) -> (found: Option<&'a Node<T>>)
        requires
            avl(*tree_node),
        ensures
            found.is_some() == keys_of(*tree_node).contains(*key),
            found.is_some() ==> found.unwrap().key == *key && has_node(
                *tree_node,
                *found.unwrap(),
            ),
        decreases *tree_node,
    {
        match tree_node {
            Some(sub_tree) => {
                proof {
                    lemma_parts(*tree_node);
                }
                if is_same(&sub_tree.key, key) {
                    Some(&**sub_tree)
                } else {
                    if is_less(key, &sub_tree.key) {
                        proof {
                            lemma_lt_asymmetric(*key, sub_tree.key);
                        }
                        Self::search_node(&sub_tree.left, key)
                    } else {
                        proof {
                            lemma_lt_connected(*key, sub_tree.key);
                            lemma_lt_asymmetric(sub_tree.key, *key);
                        }
                        Self::search_node(&sub_tree.right, key)
                    }
                }
            },
            None => None,
        }
    }
}

} // verus!

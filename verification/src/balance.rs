//! Height bookkeeping, the four rotations and the rebalancing step.

use vstd::math::max;
use vstd::prelude::*;

use crate::node::balance_of;
use crate::node::height_of;
use crate::node::heights_cached;
use crate::node::Node;
use crate::node::Tree;

verus! {

/// The subtree with `key` at its root over `left` and `right`, with the
/// root's height computed from those of the two children.
pub(crate) open spec fn join<T>(key: T, left: Tree<T>, right: Tree<T>) -> Tree<T> {
    Some(
        Box::new(
            Node {
                key: key,
                left: left,
                right: right,
                height: (1 + max(height_of(left), height_of(right))) as i8,
            },
        ),
    )
}

/// `t` with the cached height of its root computed anew.
pub(crate) open spec fn refreshed<T>(t: Tree<T>) -> Tree<T> {
    match t {
        None => None,
        Some(n) => join(n.key, n.left, n.right),
    }
}

/// `t` after its left child has become the root: the old root is the new
/// root's right child and takes over the left child's former right subtree.
pub(crate) open spec fn rotated_right<T>(t: Tree<T>) -> Tree<T>
    recommends
        t.is_some(),
        t.unwrap().left.is_some(),
{
    let x = t.unwrap();
    let y = x.left.unwrap();
    join(y.key, y.left, join(x.key, y.right, x.right))
}

/// `t` after its right child has become the root: the old root is the new
/// root's left child and takes over the right child's former left subtree.
pub(crate) open spec fn rotated_left<T>(t: Tree<T>) -> Tree<T>
    recommends
        t.is_some(),
        t.unwrap().right.is_some(),
{
    let x = t.unwrap();
    let y = x.right.unwrap();
    join(y.key, join(x.key, x.left, y.left), y.right)
}

/// The height of the root after a right rotation of `t`, as a number that
/// may be larger than a node can cache.
pub(crate) open spec fn right_rotation_height<T>(t: Tree<T>) -> int
    recommends
        t.is_some(),
        t.unwrap().left.is_some(),
{
    let x = t.unwrap();
    let y = x.left.unwrap();
    1 + max(height_of(y.left), 1 + max(height_of(y.right), height_of(x.right)))
}

/// The height of the root after a left rotation of `t`, as a number that may
/// be larger than a node can cache.
pub(crate) open spec fn left_rotation_height<T>(t: Tree<T>) -> int
    recommends
        t.is_some(),
        t.unwrap().right.is_some(),
{
    let x = t.unwrap();
    let y = x.right.unwrap();
    1 + max(1 + max(height_of(x.left), height_of(y.left)), height_of(y.right))
}

/// `t` after a left rotation of its left child followed by a right rotation
/// of `t` itself.
pub(crate) open spec fn rotated_left_right<T>(t: Tree<T>) -> Tree<T>
    recommends
        t.is_some(),
        t.unwrap().left.is_some(),
        t.unwrap().left.unwrap().right.is_some(),
{
    let x = t.unwrap();
    let y = x.left.unwrap();
    let z = y.right.unwrap();
    join(z.key, join(y.key, y.left, z.left), join(x.key, z.right, x.right))
}

/// `t` after a right rotation of its right child followed by a left rotation
/// of `t` itself.
pub(crate) open spec fn rotated_right_left<T>(t: Tree<T>) -> Tree<T>
    recommends
        t.is_some(),
        t.unwrap().right.is_some(),
        t.unwrap().right.unwrap().left.is_some(),
{
    let x = t.unwrap();
    let y = x.right.unwrap();
    let z = y.left.unwrap();
    join(z.key, join(x.key, x.left, z.left), join(y.key, z.right, y.right))
}

/// The height that the children of the root of `t` give it, as a number that
/// may be larger than a node can cache.
pub(crate) open spec fn double_rotation_height<T>(t: Tree<T>) -> int
    recommends
        t.is_some(),
        t.unwrap().left.is_some(),
        t.unwrap().right.is_some(),
{
    let z = t.unwrap();
    let a = z.left.unwrap();
    let b = z.right.unwrap();
    1 + max(
        1 + max(height_of(a.left), height_of(a.right)),
        1 + max(height_of(b.left), height_of(b.right)),
    )
}

/// `t` after the rotation that its balance factor calls for, if any: a
/// subtree that leans left by more than one is rotated right, after a left
/// rotation of its left child where that child leans right; the mirror image
/// where it leans right by more than one.
pub(crate) open spec fn rebalanced<T>(t: Tree<T>) -> Tree<T> {
    if balance_of(t) > 1 {
        if balance_of(t.unwrap().left) >= 0 {
            rotated_right(t)
        } else {
            rotated_left_right(t)
        }
    } else if balance_of(t) < -1 {
        if balance_of(t.unwrap().right) <= 0 {
            rotated_left(t)
        } else {
            rotated_right_left(t)
        }
    } else {
        t
    }
}

/// Cached heights are never negative, and only an absent subtree has height 0.
pub(crate) proof fn lemma_height_bounds<T>(t: Tree<T>)
    requires
        heights_cached(t),
    ensures
        height_of(t) >= 0,
        height_of(t) == 0 <==> t.is_none(),
        t.is_some() ==> heights_cached(t.unwrap().left) && heights_cached(t.unwrap().right),
    decreases t,
{
    match t {
        None => {},
        Some(n) => {
            lemma_height_bounds(n.left);
            lemma_height_bounds(n.right);
        },
    }
}

/// Joining two subtrees with correct heights gives one with correct heights,
/// as long as the new height can be cached.
pub(crate) proof fn lemma_join_cached<T>(key: T, left: Tree<T>, right: Tree<T>)
    requires
        heights_cached(left),
        heights_cached(right),
        1 + max(height_of(left), height_of(right)) <= i8::MAX,
    ensures
        heights_cached(join(key, left, right)),
        height_of(join(key, left, right)) == 1 + max(height_of(left), height_of(right)),
{
    lemma_height_bounds(left);
    lemma_height_bounds(right);
}

/// The cached height of a subtree, 0 where it is absent.
pub(crate) fn height<T>(t: &Tree<T>) -> (h: i8)
    ensures
        h == height_of(*t),
{
    match t {
        None => 0,
        Some(node) => node.height,
    }
}

/// Computes the root's height anew from its children's cached heights.
pub(crate) fn update_height<T>(t: Tree<T>) -> (r: Tree<T>)
    requires
        t.is_some() ==> max(height_of(t.unwrap().left), height_of(t.unwrap().right)) < i8::MAX,
    ensures
        r == refreshed(t),
{
    match t {
        None => None,
        Some(mut node) => {
            let left_height: i8 = height(&node.left);
            let right_height: i8 = height(&node.right);
            node.height = if left_height >= right_height {
                left_height + 1
            } else {
                right_height + 1
            };
            Some(node)
        },
    }
}

/// The left child's height minus the right child's, 0 for an absent subtree.
pub(crate) fn balance_factor<T>(t: &Tree<T>) -> (b: i8)
    requires
        -i8::MAX <= balance_of(*t) <= i8::MAX,
    ensures
        b == balance_of(*t),
{
    match t {
        Some(node) => {
            let left_height: i8 = height(&node.left);
            let right_height: i8 = height(&node.right);
            if left_height >= right_height {
                left_height - right_height
            } else {
                -(right_height - left_height)
            }
        },
        None => 0,
    }
}

/// Rotates `t` to the right.
pub(crate) fn rotate_right<T>(t: Tree<T>) -> (r: Tree<T>)
    requires
        t.is_some(),
        t.unwrap().left.is_some(),
        heights_cached(t.unwrap().left),
        heights_cached(t.unwrap().right),
        right_rotation_height(t) <= i8::MAX,
    ensures
        r == rotated_right(t),
{
    proof {
        let y = t.unwrap().left.unwrap();
        lemma_height_bounds(y.left);
        lemma_height_bounds(y.right);
        lemma_height_bounds(t.unwrap().right);
    }
    let mut x = t.unwrap();
    let mut y = x.left.take().unwrap();
    x.left = y.right.take();
    y.right = update_height(Some(x));
    update_height(Some(y))
}

/// Rotates `t` to the left.
pub(crate) fn rotate_left<T>(t: Tree<T>) -> (r: Tree<T>)
    requires
        t.is_some(),
        t.unwrap().right.is_some(),
        heights_cached(t.unwrap().left),
        heights_cached(t.unwrap().right),
        left_rotation_height(t) <= i8::MAX,
    ensures
        r == rotated_left(t),
{
    proof {
        let y = t.unwrap().right.unwrap();
        lemma_height_bounds(y.left);
        lemma_height_bounds(y.right);
        lemma_height_bounds(t.unwrap().left);
    }
    let mut x = t.unwrap();
    let mut y = x.right.take().unwrap();
    x.right = y.left.take();
    y.left = update_height(Some(x));
    update_height(Some(y))
}

/// Rotates the left child of `t` to the left, then `t` to the right.
pub(crate) fn rotate_lr<T>(t: Tree<T>) -> (r: Tree<T>)
    requires
        t.is_some(),
        t.unwrap().left.is_some(),
        t.unwrap().left.unwrap().right.is_some(),
        heights_cached(t.unwrap().left),
        heights_cached(t.unwrap().right),
        double_rotation_height(rotated_left_right(t)) <= i8::MAX,
    ensures
        r == rotated_left_right(t),
{
    proof {
        let y = t.unwrap().left.unwrap();
        let z = y.right.unwrap();
        lemma_height_bounds(t.unwrap().left);
        lemma_height_bounds(y.right);
        lemma_height_bounds(y.left);
        lemma_height_bounds(z.left);
        lemma_height_bounds(z.right);
        lemma_height_bounds(t.unwrap().right);
    }
    let mut x = t.unwrap();
    let left = x.left.take();
    x.left = rotate_left(left);
    proof {
        let y = t.unwrap().left.unwrap();
        let z = y.right.unwrap();
        lemma_join_cached(y.key, y.left, z.left);
        lemma_join_cached(z.key, join(y.key, y.left, z.left), z.right);
    }
    rotate_right(Some(x))
}

/// Rotates the right child of `t` to the right, then `t` to the left.
pub(crate) fn rotate_rl<T>(t: Tree<T>) -> (r: Tree<T>)
    requires
        t.is_some(),
        t.unwrap().right.is_some(),
        t.unwrap().right.unwrap().left.is_some(),
        heights_cached(t.unwrap().left),
        heights_cached(t.unwrap().right),
        double_rotation_height(rotated_right_left(t)) <= i8::MAX,
    ensures
        r == rotated_right_left(t),
{
    proof {
        let y = t.unwrap().right.unwrap();
        let z = y.left.unwrap();
        lemma_height_bounds(t.unwrap().right);
        lemma_height_bounds(y.left);
        lemma_height_bounds(y.right);
        lemma_height_bounds(z.left);
        lemma_height_bounds(z.right);
        lemma_height_bounds(t.unwrap().left);
    }
    let mut x = t.unwrap();
    let right = x.right.take();
    x.right = rotate_right(right);
    proof {
        let y = t.unwrap().right.unwrap();
        let z = y.left.unwrap();
        lemma_join_cached(y.key, z.right, y.right);
        lemma_join_cached(z.key, z.left, join(y.key, z.right, y.right));
    }
    rotate_left(Some(x))
}

/// Restores the balance at the root of `t` by the rotation that its balance
/// factor calls for, and leaves `t` as it is where none is called for.
pub(crate) fn balance_tree<T>(t: Tree<T>) -> (r: Tree<T>)
    requires
        heights_cached(t),
    ensures
        r == rebalanced(t),
{
    proof {
        lemma_height_bounds(t);
        if t.is_some() {
            let x = t.unwrap();
            lemma_height_bounds(x.left);
            lemma_height_bounds(x.right);
            if x.left.is_some() {
                let y = x.left.unwrap();
                lemma_height_bounds(y.left);
                lemma_height_bounds(y.right);
                if y.right.is_some() {
                    lemma_height_bounds(y.right.unwrap().left);
                    lemma_height_bounds(y.right.unwrap().right);
                }
            }
            if x.right.is_some() {
                let y = x.right.unwrap();
                lemma_height_bounds(y.left);
                lemma_height_bounds(y.right);
                if y.left.is_some() {
                    lemma_height_bounds(y.left.unwrap().left);
                    lemma_height_bounds(y.left.unwrap().right);
                }
            }
        }
    }
    let factor: i8 = balance_factor(&t);
    if factor > 1 {
        let left_factor: i8 = match &t {
            Some(node) => balance_factor(&node.left),
            None => 0,
        };
        if left_factor >= 0 {
            return rotate_right(t);
        } else {
            return rotate_lr(t);
        }
    }
    if factor < -1 {
        let right_factor: i8 = match &t {
            Some(node) => balance_factor(&node.right),
            None => 0,
        };
        if right_factor <= 0 {
            return rotate_left(t);
        } else {
            return rotate_rl(t);
        }
    }
    t
}

} // verus!

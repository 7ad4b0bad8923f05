//! What the rotations and the rebalancing step keep and what they restore.

use vstd::prelude::*;

use crate::balance::double_rotation_height;
use crate::balance::join;
use crate::balance::left_rotation_height;
use crate::balance::lemma_height_bounds;
use crate::balance::lemma_join_cached;
use crate::balance::rebalanced;
use crate::balance::right_rotation_height;
use crate::balance::rotated_left;
use crate::balance::rotated_left_right;
use crate::balance::rotated_right;
use crate::balance::rotated_right_left;
use crate::node::avl;
use crate::node::balance_of;
use crate::node::balanced;
use crate::node::height_of;
use crate::node::heights_cached;
use crate::node::inorder_of;
use crate::node::keys_of;
use crate::node::Node;
use crate::node::ordered;
use crate::node::size_of;
use crate::node::Tree;
use crate::order::lemma_lt_transitive;
use crate::order::lt;
use crate::order::total_order;

verus! {

/// Every key of `t` lies below `high`.
pub(crate) open spec fn all_below<T: Ord>(t: Tree<T>, high: T) -> bool {
    forall|k: T| #[trigger] keys_of(t).contains(k) ==> lt(k, high)
}

/// Every key of `t` lies above `low`.
pub(crate) open spec fn all_above<T: Ord>(t: Tree<T>, low: T) -> bool {
    forall|k: T| #[trigger] keys_of(t).contains(k) ==> lt(low, k)
}

/// What a join holds, in terms of what its parts hold.
pub(crate) proof fn lemma_join<T: Ord>(key: T, left: Tree<T>, right: Tree<T>)
    ensures
        keys_of(join(key, left, right)) == keys_of(left).union(keys_of(right)).insert(key),
        inorder_of(join(key, left, right)) == inorder_of(left).push(key) + inorder_of(right),
        size_of(join(key, left, right)) == 1 + size_of(left) + size_of(right),
        ordered(join(key, left, right)) <==> {
            &&& all_below(left, key)
            &&& all_above(right, key)
            &&& ordered(left)
            &&& ordered(right)
        },
        balanced(join(key, left, right)) <==> {
            &&& -1 <= height_of(left) - height_of(right) <= 1
            &&& balanced(left)
            &&& balanced(right)
        },
{
}

/// What a present subtree holds, in terms of what its root and the two
/// subtrees below it hold.
pub(crate) proof fn lemma_parts<T>(t: Tree<T>)
    requires
        t.is_some(),
    ensures
        keys_of(t) == keys_of(t.unwrap().left).union(keys_of(t.unwrap().right)).insert(
            t.unwrap().key,
        ),
        inorder_of(t) == inorder_of(t.unwrap().left).push(t.unwrap().key) + inorder_of(
            t.unwrap().right,
        ),
        size_of(t) == 1 + size_of(t.unwrap().left) + size_of(t.unwrap().right),
{
}

/// A right rotation keeps the keys, their order and the search-tree
/// property, and leaves every cached height correct.
pub(crate) proof fn lemma_rotated_right<T: Ord>(t: Tree<T>)
    requires
        total_order::<T>(),
        t.is_some(),
        t.unwrap().left.is_some(),
        ordered(t),
        heights_cached(t.unwrap().left),
        heights_cached(t.unwrap().right),
        right_rotation_height(t) <= i8::MAX,
    ensures
        ordered(rotated_right(t)),
        heights_cached(rotated_right(t)),
        height_of(rotated_right(t)) == right_rotation_height(t),
        keys_of(rotated_right(t)) == keys_of(t),
        inorder_of(rotated_right(t)) == inorder_of(t),
        size_of(rotated_right(t)) == size_of(t),
{
    let x = t.unwrap();
    let y = x.left.unwrap();
    let inner = join(x.key, y.right, x.right);
    lemma_height_bounds(x.left);
    lemma_height_bounds(y.left);
    lemma_height_bounds(y.right);
    lemma_height_bounds(x.right);
    lemma_join_cached(x.key, y.right, x.right);
    lemma_join_cached(y.key, y.left, inner);
    lemma_join(x.key, y.right, x.right);
    lemma_join(y.key, y.left, inner);
    assert(keys_of(x.left).contains(y.key));
    assert(ordered(x.left));
    assert forall|k: T| #[trigger] keys_of(inner).contains(k) implies lt(y.key, k) by {
        if keys_of(x.right).contains(k) {
            lemma_lt_transitive(y.key, x.key, k);
        }
    }
    assert forall|k: T| #[trigger] keys_of(y.right).contains(k) implies lt(k, x.key) by {
        assert(keys_of(x.left).contains(k));
    }
    lemma_parts(t);
    lemma_parts(x.left);
    assert(keys_of(rotated_right(t)) =~= keys_of(t));
    assert(inorder_of(rotated_right(t)) =~= inorder_of(t));
}

/// A left rotation keeps the keys, their order and the search-tree property,
/// and leaves every cached height correct.
pub(crate) proof fn lemma_rotated_left<T: Ord>(t: Tree<T>)
    requires
        total_order::<T>(),
        t.is_some(),
        t.unwrap().right.is_some(),
        ordered(t),
        heights_cached(t.unwrap().left),
        heights_cached(t.unwrap().right),
        left_rotation_height(t) <= i8::MAX,
    ensures
        ordered(rotated_left(t)),
        heights_cached(rotated_left(t)),
        height_of(rotated_left(t)) == left_rotation_height(t),
        keys_of(rotated_left(t)) == keys_of(t),
        inorder_of(rotated_left(t)) == inorder_of(t),
        size_of(rotated_left(t)) == size_of(t),
{
    let x = t.unwrap();
    let y = x.right.unwrap();
    let inner = join(x.key, x.left, y.left);
    lemma_height_bounds(x.right);
    lemma_height_bounds(y.left);
    lemma_height_bounds(y.right);
    lemma_height_bounds(x.left);
    lemma_join_cached(x.key, x.left, y.left);
    lemma_join_cached(y.key, inner, y.right);
    lemma_join(x.key, x.left, y.left);
    lemma_join(y.key, inner, y.right);
    assert(keys_of(x.right).contains(y.key));
    assert(ordered(x.right));
    assert forall|k: T| #[trigger] keys_of(inner).contains(k) implies lt(k, y.key) by {
        if keys_of(x.left).contains(k) {
            lemma_lt_transitive(k, x.key, y.key);
        }
    }
    assert forall|k: T| #[trigger] keys_of(y.left).contains(k) implies lt(x.key, k) by {
        assert(keys_of(x.right).contains(k));
    }
    lemma_parts(t);
    lemma_parts(x.right);
    assert(keys_of(rotated_left(t)) =~= keys_of(t));
    assert(inorder_of(rotated_left(t)) =~= inorder_of(t));
}

/// A left rotation of the left child followed by a right rotation keeps the
/// keys, their order and the search-tree property, and leaves every cached
/// height correct.
pub(crate) proof fn lemma_rotated_left_right<T: Ord>(t: Tree<T>)
    requires
        total_order::<T>(),
        t.is_some(),
        t.unwrap().left.is_some(),
        t.unwrap().left.unwrap().right.is_some(),
        ordered(t),
        heights_cached(t.unwrap().left),
        heights_cached(t.unwrap().right),
        double_rotation_height(rotated_left_right(t)) <= i8::MAX,
    ensures
        ordered(rotated_left_right(t)),
        heights_cached(rotated_left_right(t)),
        height_of(rotated_left_right(t)) == double_rotation_height(rotated_left_right(t)),
        keys_of(rotated_left_right(t)) == keys_of(t),
        inorder_of(rotated_left_right(t)) == inorder_of(t),
        size_of(rotated_left_right(t)) == size_of(t),
{
    let x = t.unwrap();
    let y = x.left.unwrap();
    let z = y.right.unwrap();
    lemma_height_bounds(x.left);
    lemma_height_bounds(x.right);
    lemma_height_bounds(y.left);
    lemma_height_bounds(y.right);
    lemma_height_bounds(z.left);
    lemma_height_bounds(z.right);
    assert(ordered(x.left));
    lemma_rotated_left(x.left);
    let mid = Some(
        Box::new(Node { key: x.key, left: rotated_left(x.left), right: x.right, height: x.height }),
    );
    lemma_parts(t);
    lemma_parts(mid);
    assert(ordered(mid));
    lemma_rotated_right(mid);
    assert(rotated_right(mid) == rotated_left_right(t));
}

/// A right rotation of the right child followed by a left rotation keeps the
/// keys, their order and the search-tree property, and leaves every cached
/// height correct.
pub(crate) proof fn lemma_rotated_right_left<T: Ord>(t: Tree<T>)
    requires
        total_order::<T>(),
        t.is_some(),
        t.unwrap().right.is_some(),
        t.unwrap().right.unwrap().left.is_some(),
        ordered(t),
        heights_cached(t.unwrap().left),
        heights_cached(t.unwrap().right),
        double_rotation_height(rotated_right_left(t)) <= i8::MAX,
    ensures
        ordered(rotated_right_left(t)),
        heights_cached(rotated_right_left(t)),
        height_of(rotated_right_left(t)) == double_rotation_height(rotated_right_left(t)),
        keys_of(rotated_right_left(t)) == keys_of(t),
        inorder_of(rotated_right_left(t)) == inorder_of(t),
        size_of(rotated_right_left(t)) == size_of(t),
{
    let x = t.unwrap();
    let y = x.right.unwrap();
    let z = y.left.unwrap();
    lemma_height_bounds(x.left);
    lemma_height_bounds(x.right);
    lemma_height_bounds(y.left);
    lemma_height_bounds(y.right);
    lemma_height_bounds(z.left);
    lemma_height_bounds(z.right);
    assert(ordered(x.right));
    lemma_rotated_right(x.right);
    let mid = Some(
        Box::new(Node { key: x.key, left: x.left, right: rotated_right(x.right), height: x.height }),
    );
    lemma_parts(t);
    lemma_parts(mid);
    assert(ordered(mid));
    lemma_rotated_left(mid);
    assert(rotated_left(mid) == rotated_right_left(t));
}

/// A subtree as it stands between a change below its root and the
/// rebalancing step: a search tree with correct cached heights whose two
/// children are balanced and differ in height by at most two.
pub(crate) open spec fn nearly_avl<T: Ord>(t: Tree<T>) -> bool {
    &&& total_order::<T>()
    &&& ordered(t)
    &&& heights_cached(t)
    &&& -2 <= balance_of(t) <= 2
    &&& t.is_some() ==> balanced(t.unwrap().left) && balanced(t.unwrap().right)
}

/// The rebalancing step restores the balance at the root, keeps the keys and
/// their order, and lowers the height by at most one, and only where it
/// rotates.
pub(crate) proof fn lemma_rebalanced<T: Ord>(t: Tree<T>)
    requires
        nearly_avl(t),
    ensures
        avl(rebalanced(t)),
        keys_of(rebalanced(t)) == keys_of(t),
        inorder_of(rebalanced(t)) == inorder_of(t),
        size_of(rebalanced(t)) == size_of(t),
        height_of(t) - 1 <= height_of(rebalanced(t)) <= height_of(t),
        -1 <= balance_of(t) <= 1 ==> rebalanced(t) == t,
        rebalanced(t).is_some() == t.is_some(),
{
    if t.is_some() {
        let x = t.unwrap();
        lemma_height_bounds(t);
        lemma_height_bounds(x.left);
        lemma_height_bounds(x.right);
        if balance_of(t) > 1 {
            let y = x.left.unwrap();
            lemma_height_bounds(y.left);
            lemma_height_bounds(y.right);
            assert(balanced(y.left) && balanced(y.right));
            if balance_of(x.left) >= 0 {
                lemma_rotated_right(t);
                lemma_join(x.key, y.right, x.right);
                lemma_join(y.key, y.left, join(x.key, y.right, x.right));
                lemma_join_cached(x.key, y.right, x.right);
            } else {
                let z = y.right.unwrap();
                lemma_height_bounds(z.left);
                lemma_height_bounds(z.right);
                assert(balanced(z.left) && balanced(z.right));
                lemma_rotated_left_right(t);
                let a = join(y.key, y.left, z.left);
                let b = join(x.key, z.right, x.right);
                lemma_join(y.key, y.left, z.left);
                lemma_join(x.key, z.right, x.right);
                lemma_join(z.key, a, b);
                lemma_join_cached(y.key, y.left, z.left);
                lemma_join_cached(x.key, z.right, x.right);
            }
        } else if balance_of(t) < -1 {
            let y = x.right.unwrap();
            lemma_height_bounds(y.left);
            lemma_height_bounds(y.right);
            assert(balanced(y.left) && balanced(y.right));
            if balance_of(x.right) <= 0 {
                lemma_rotated_left(t);
                lemma_join(x.key, x.left, y.left);
                lemma_join(y.key, join(x.key, x.left, y.left), y.right);
                lemma_join_cached(x.key, x.left, y.left);
            } else {
                let z = y.left.unwrap();
                lemma_height_bounds(z.left);
                lemma_height_bounds(z.right);
                assert(balanced(z.left) && balanced(z.right));
                lemma_rotated_right_left(t);
                let a = join(x.key, x.left, z.left);
                let b = join(y.key, z.right, y.right);
                lemma_join(x.key, x.left, z.left);
                lemma_join(y.key, z.right, y.right);
                lemma_join(z.key, a, b);
                lemma_join_cached(x.key, x.left, z.left);
                lemma_join_cached(y.key, z.right, y.right);
            }
        }
    }
}

} // verus!

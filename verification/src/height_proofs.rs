//! Why the height of a balanced tree fits the cached height: a tall
//! balanced tree holds more nodes than a machine can count.

use vstd::arithmetic::power2::lemma2_to64;
use vstd::arithmetic::power2::lemma2_to64_rest;
use vstd::arithmetic::power2::lemma_pow2_unfold;
use vstd::arithmetic::power2::pow2;
use vstd::prelude::*;

use crate::balance::lemma_height_bounds;
use crate::insert::height_limit;
use crate::node::balanced;
use crate::node::height_of;
use crate::node::heights_cached;
use crate::node::size_of;
use crate::node::Tree;

verus! {

/// The least number of nodes in a balanced tree of height `h`.
pub open spec fn min_nodes(h: nat) -> nat
    decreases h,
{
    if h == 0 {
        0
    } else if h == 1 {
        1
    } else {
        1 + min_nodes((h - 1) as nat) + min_nodes((h - 2) as nat)
    }
}

/// A taller balanced tree needs at least as many nodes.
pub proof fn lemma_min_nodes_monotone(a: nat, b: nat)
    requires
        a <= b,
    ensures
        min_nodes(a) <= min_nodes(b),
    decreases b,
{
    if a < b {
        lemma_min_nodes_monotone(a, (b - 1) as nat);
    }
}

/// Six levels need twenty nodes, and every two levels more at least double
/// the number.
pub proof fn lemma_min_nodes_doubling(k: nat)
    ensures
        min_nodes(6 + 2 * k) >= 20 * pow2(k),
    decreases k,
{
    if k == 0 {
        lemma2_to64();
        assert(min_nodes(0) == 0);
        assert(min_nodes(1) == 1);
        assert(min_nodes(2) == 2);
        assert(min_nodes(3) == 4);
        assert(min_nodes(4) == 7);
        assert(min_nodes(5) == 12);
        assert(min_nodes(6) == 20);
    } else {
        let h = (6 + 2 * (k - 1)) as nat;
        lemma_min_nodes_doubling((k - 1) as nat);
        lemma_min_nodes_monotone(h, h + 1);
        lemma_pow2_unfold(k);
        assert(min_nodes(h + 2) == 1 + min_nodes(h + 1) + min_nodes(h));
    }
}

/// A balanced tree with correct heights holds at least the least number of
/// nodes for its height.
pub(crate) proof fn lemma_size_at_least<T>(t: Tree<T>)
    requires
        heights_cached(t),
        balanced(t),
    ensures
        height_of(t) >= 0,
        size_of(t) >= min_nodes(height_of(t) as nat),
    decreases t,
{
    lemma_height_bounds(t);
    match t {
        None => {},
        Some(n) => {
            lemma_size_at_least(n.left);
            lemma_size_at_least(n.right);
            lemma_height_bounds(n.left);
            lemma_height_bounds(n.right);
            let h = height_of(t) as nat;
            let hl = height_of(n.left) as nat;
            let hr = height_of(n.right) as nat;
            if h >= 2 {
                if hl >= hr {
                    lemma_min_nodes_monotone((h - 2) as nat, hr);
                } else {
                    lemma_min_nodes_monotone((h - 2) as nat, hl);
                }
            }
        },
    }
}

/// A balanced tree whose nodes a machine can count is low enough to take
/// one more key.
pub(crate) proof fn lemma_height_limit<T>(t: Tree<T>)
    requires
        heights_cached(t),
        balanced(t),
        size_of(t) <= usize::MAX,
    ensures
        0 <= height_of(t) <= height_limit(),
{
    lemma_size_at_least(t);
    if height_of(t) > height_limit() {
        lemma_min_nodes_doubling(60);
        lemma_min_nodes_monotone(126, height_of(t) as nat);
        lemma2_to64_rest();
    }
}

} // verus!

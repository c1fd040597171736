//! How tall a balanced tree can be for the number of records it holds.

use vstd::prelude::*;
use vstd::arithmetic::power2::{lemma2_to64, lemma2_to64_rest, lemma_pow2_unfold, pow2};
use crate::node::Node;

verus! {

/// The least number of nodes that a balanced tree of height `h` can have:
/// none below height 0, one at height 0, and above that a root over one
/// subtree of height `h - 1` and one of height `h - 2`.
pub open spec fn min_nodes(h: int) -> nat
    decreases h + 1,
{
    if h < 0 {
        0
    } else if h == 0 {
        1
    } else {
        1 + min_nodes(h - 1) + min_nodes(h - 2)
    }
}

/// A taller tree needs at least as many nodes.
pub proof fn lemma_min_nodes_monotone(a: int, b: int)
    requires
        a <= b,
    ensures
        min_nodes(a) <= min_nodes(b),
    decreases b + 1,
{
    if a < b && b >= 0 {
        lemma_min_nodes_monotone(a, b - 1);
    }
}

/// Two more levels at least double the number of nodes: a balanced tree of
/// height `2 * k` has at least `2^k` nodes.
pub proof fn lemma_min_nodes_doubles(k: nat)
    ensures
        min_nodes(2 * (k as int)) >= pow2(k),
    decreases k,
{
    if k == 0 {
        lemma2_to64();
    } else {
        lemma_min_nodes_doubles((k - 1) as nat);
        lemma_min_nodes_monotone(2 * k - 2, 2 * k - 1);
        lemma_pow2_unfold(k);
    }
}

/// A height that many nodes can reach lies below 128 whenever their number
/// fits into a machine word.
pub proof fn lemma_height_below_limit(h: int, n: nat)
    requires
        min_nodes(h) <= n,
        n <= usize::MAX,
    ensures
        h < 128,
{
    if h >= 128 {
        lemma_min_nodes_monotone(128, h);
        lemma_min_nodes_doubles(64);
        lemma2_to64_rest();
    }
}

impl Node {
    /// A balanced subtree has at least the least number of nodes for its
    /// height.
    pub(crate) proof fn lemma_enough_nodes(o: Option<Box<Node>>)
        requires
            Node::opt_balanced(o),
        ensures
            min_nodes(Node::opt_height(o)) <= Node::opt_size(o),
        decreases o,
    {
        if let Some(n) = o {
            Node::lemma_enough_nodes(n.left);
            Node::lemma_enough_nodes(n.right);
            Node::lemma_height_range(n.left);
            Node::lemma_height_range(n.right);
            let hl = Node::opt_height(n.left);
            let hr = Node::opt_height(n.right);
            let h = Node::opt_height(o);
            if hl >= hr {
                lemma_min_nodes_monotone(h - 2, hr);
            } else {
                lemma_min_nodes_monotone(h - 2, hl);
            }
        }
    }

    /// A balanced subtree whose nodes can be counted in a machine word is
    /// less than 128 levels tall.
    pub(crate) proof fn lemma_low(o: Option<Box<Node>>)
        requires
            Node::opt_balanced(o),
            Node::opt_size(o) <= usize::MAX,
        ensures
            Node::opt_height(o) < 128,
    {
        Node::lemma_enough_nodes(o);
        lemma_height_below_limit(Node::opt_height(o), Node::opt_size(o));
    }
}

} // verus!

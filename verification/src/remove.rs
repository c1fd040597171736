//! Removal below a node.

use vstd::prelude::*;
use crate::key::{
    compare_keys, key_lt, lemma_key_lt_asymmetric, lemma_key_lt_irreflexive, lemma_key_lt_total,
    lemma_key_lt_transitive, KeyOrder,
};
use crate::node::Node;
use crate::tree::AVLTree;

verus! {

impl AVLTree {
    /// Recursively removes a node by key and rebalances the tree.
    /// Returns the new subtree root after removal and rebalancing, and
    /// whether a node was removed.
    pub(crate) fn remove_node(subtree: Option<Box<Node>>, key: &Vec<u8>) -> (r: (
        Option<Box<Node>>,
        bool,
    ))
        requires
            Node::opt_sound(subtree),
            Node::opt_balanced(subtree),
            Node::opt_size(subtree) <= usize::MAX,
        ensures
            Node::opt_sound(r.0),
            Node::opt_balanced(r.0),
            r.1 == Node::opt_map(subtree).dom().contains(key@),
            Node::opt_map(r.0) == Node::opt_map(subtree).remove(key@),
            Node::opt_size(subtree) == Node::opt_size(r.0) + (if r.1 {
                1nat
            } else {
                0nat
            }),
            Node::opt_height(subtree) - 1 <= Node::opt_height(r.0) <= Node::opt_height(subtree),
            !r.1 ==> Node::opt_height(r.0) == Node::opt_height(subtree),
        decreases subtree,
    {
        match subtree {
            Some(mut node) => {
                let ghost start = *node;
                proof {
                    Node::lemma_unfold(subtree);
                    Node::lemma_low(start.left);
                    Node::lemma_low(start.right);
                    Node::lemma_height_range(start.left);
                    Node::lemma_height_range(start.right);
                    lemma_key_lt_irreflexive(key@);
                }
                match compare_keys(key, &node.key) {
                    KeyOrder::Before => {
                        let (child, removed) = Self::remove_node(node.left.take(), key);
                        node.left = child;
                        proof {
                            lemma_key_lt_asymmetric(key@, start.key@);
                            assert(!Node::opt_map(start.right).dom().contains(key@));
                            assert(node.as_map() =~= start.as_map().remove(key@));
                        }
                        let rebalanced = Self::rebalance(node);
                        proof {
                            Node::lemma_unfold(Some(rebalanced));
                        }
                        (Some(rebalanced), removed)
                    },
                    KeyOrder::After => {
                        let (child, removed) = Self::remove_node(node.right.take(), key);
                        node.right = child;
                        proof {
                            lemma_key_lt_total(key@, start.key@);
                            lemma_key_lt_asymmetric(start.key@, key@);
                            assert(!Node::opt_map(start.left).dom().contains(key@));
                            assert(node.as_map() =~= start.as_map().remove(key@));
                        }
                        let rebalanced = Self::rebalance(node);
                        proof {
                            Node::lemma_unfold(Some(rebalanced));
                        }
                        (Some(rebalanced), removed)
                    },
                    KeyOrder::Same => {
                        proof {
                            assert(!Node::opt_map(start.left).dom().contains(key@));
                            assert(!Node::opt_map(start.right).dom().contains(key@));
                        }
                        match (node.left.take(), node.right.take()) {
                            (None, None) => {
                                proof {
                                    assert(Node::opt_map(None) =~= start.as_map().remove(key@));
                                }
                                (None, true)
                            },
                            (Some(left), None) => {
                                proof {
                                    assert(Node::opt_map(Some(left)) =~= start.as_map().remove(
                                        key@,
                                    ));
                                }
                                (Some(left), true)
                            },
                            (None, Some(right)) => {
                                proof {
                                    assert(Node::opt_map(Some(right)) =~= start.as_map().remove(
                                        key@,
                                    ));
                                }
                                (Some(right), true)
                            },
                            (Some(left), Some(right)) => {
                                proof {
                                    Node::lemma_unfold(start.right);
                                }
                                let (successor, new_right) = Self::find_successor(right);
                                let mut successor = successor;
                                successor.left = Some(left);
                                successor.right = new_right;
                                proof {
                                    assert(Node::opt_map(start.right).dom().contains(
                                        successor.key@,
                                    ));
                                    assert forall|k: Seq<u8>| #[trigger]
                                        Node::opt_map(successor.left).dom().contains(
                                            k,
                                        ) implies key_lt(k, successor.key@) by {
                                        lemma_key_lt_transitive(k, start.key@, successor.key@);
                                    }
                                    lemma_key_lt_irreflexive(successor.key@);
                                    assert(!Node::opt_map(start.left).dom().contains(
                                        successor.key@,
                                    ));
                                    assert(successor.as_map() =~= start.as_map().remove(key@));
                                }
                                let rebalanced = Self::rebalance(successor);
                                proof {
                                    Node::lemma_unfold(Some(rebalanced));
                                }
                                (Some(rebalanced), true)
                            },
                        }
                    },
                }
            },
            None => {
                proof {
                    assert(Node::opt_map(None) =~= Node::opt_map(None).remove(key@));
                }
                (None, false)
            },
        }
    }

    /// Helper to find the in-order successor node to a node with two children:
    /// takes the leftmost node out of the subtree below `node`, and returns it,
    /// stripped of its children, with the rest of the subtree, rebalanced.
    pub(crate) fn find_successor(mut node: Box<Node>) -> (r: (Box<Node>, Option<Box<Node>>))
        requires
            node.sound(),
            node.balanced(),
            node.size() <= usize::MAX,
        ensures
            r.0.left is None,
            r.0.right is None,
            r.0.key@ == r.0.course@.key(),
            node.as_map().dom().contains(r.0.key@),
            node.as_map()[r.0.key@] == r.0.course@,
            forall|k: Seq<u8>| #[trigger]
                node.as_map().dom().contains(k) ==> k == r.0.key@ || key_lt(r.0.key@, k),
            Node::opt_sound(r.1),
            Node::opt_balanced(r.1),
            Node::opt_map(r.1) == node.as_map().remove(r.0.key@),
            Node::opt_size(r.1) + 1 == node.size(),
            node.true_height() - 1 <= Node::opt_height(r.1) <= node.true_height(),
        decreases node,
    {
        let ghost start = *node;
        proof {
            Node::lemma_low(start.left);
            Node::lemma_low(start.right);
            Node::lemma_height_range(start.left);
            Node::lemma_height_range(start.right);
            lemma_key_lt_irreflexive(start.key@);
        }
        match node.left.take() {
            Some(left) => {
                proof {
                    Node::lemma_unfold(start.left);
                }
                let (successor, new_left) = Self::find_successor(left);
                node.left = new_left;
                proof {
                    let least = successor.key@;
                    assert(Node::opt_map(start.left).dom().contains(least));
                    lemma_key_lt_irreflexive(least);
                    assert forall|k: Seq<u8>| #[trigger]
                        start.as_map().dom().contains(k) implies k == least || key_lt(
                        least,
                        k,
                    ) by {
                        if k == start.key@ {
                        } else if Node::opt_map(start.right).dom().contains(k) {
                            lemma_key_lt_transitive(least, start.key@, k);
                        } else {
                            assert(Node::opt_map(start.left).dom().contains(k));
                        }
                    }
                    assert(!Node::opt_map(start.right).dom().contains(least)) by {
                        if Node::opt_map(start.right).dom().contains(least) {
                            lemma_key_lt_asymmetric(least, start.key@);
                        }
                    }
                    assert(node.as_map() =~= start.as_map().remove(least));
                }
                let rebalanced = Self::rebalance(node);
                proof {
                    Node::lemma_unfold(Some(rebalanced));
                }
                (successor, Some(rebalanced))
            },
            None => {
                let right = node.right.take();
                proof {
                    assert(Node::opt_map(right) =~= start.as_map().remove(start.key@));
                }
                (node, right)
            },
        }
    }
}

} // verus!

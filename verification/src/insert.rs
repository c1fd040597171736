//! Insertion below a node.

use vstd::prelude::*;
use crate::key::{compare_keys, lemma_key_lt_asymmetric, lemma_key_lt_irreflexive, lemma_key_lt_total,
    KeyOrder,
};
use crate::node::Node;
use crate::tree::AVLTree;

verus! {

impl AVLTree {
    /// Recursively inserts a node into the subtree, rebalancing as needed.
    /// Returns the new subtree root after insertion and rebalancing, and
    /// whether the node went in: a subtree that already holds a record under
    /// the node's key keeps that record, and the node is dropped.
    pub(crate) fn insert_node(subtree: Option<Box<Node>>, node_to_insert: Box<Node>) -> (r: (
        Option<Box<Node>>,
        bool,
    ))
        requires
            Node::opt_sound(subtree),
            Node::opt_balanced(subtree),
            Node::opt_size(subtree) < usize::MAX,
            node_to_insert.is_leaf(),
        ensures
            Node::opt_sound(r.0),
            Node::opt_balanced(r.0),
            r.1 == !Node::opt_map(subtree).dom().contains(node_to_insert.key@),
            r.1 ==> Node::opt_map(r.0) == Node::opt_map(subtree).insert(
                node_to_insert.key@,
                node_to_insert.course@,
            ),
            !r.1 ==> Node::opt_map(r.0) == Node::opt_map(subtree),
            Node::opt_size(r.0) == Node::opt_size(subtree) + (if r.1 {
                1nat
            } else {
                0nat
            }),
            Node::opt_height(subtree) <= Node::opt_height(r.0) <= Node::opt_height(subtree) + 1,
            !r.1 ==> Node::opt_height(r.0) == Node::opt_height(subtree),
        decreases subtree,
    {
        match subtree {
            Some(mut current_node) => {
                let ghost start = *current_node;
                let ghost key = node_to_insert.key@;
                let ghost record = node_to_insert.course@;
                proof {
                    Node::lemma_unfold(subtree);
                    Node::lemma_low(start.left);
                    Node::lemma_low(start.right);
                    lemma_key_lt_irreflexive(key);
                }
                let added = match compare_keys(&node_to_insert.key, &current_node.key) {
                    KeyOrder::Before => {
                        let (child, added) = Self::insert_node(
                            current_node.left.take(),
                            node_to_insert,
                        );
                        current_node.left = child;
                        proof {
                            lemma_key_lt_asymmetric(key, start.key@);
                            assert(!Node::opt_map(start.right).dom().contains(key));
                            assert(current_node.as_map() =~= if added {
                                start.as_map().insert(key, record)
                            } else {
                                start.as_map()
                            });
                        }
                        added
                    },
                    KeyOrder::After => {
                        let (child, added) = Self::insert_node(
                            current_node.right.take(),
                            node_to_insert,
                        );
                        current_node.right = child;
                        proof {
                            lemma_key_lt_total(key, start.key@);
                            lemma_key_lt_asymmetric(start.key@, key);
                            assert(!Node::opt_map(start.left).dom().contains(key));
                            assert(current_node.as_map() =~= if added {
                                start.as_map().insert(key, record)
                            } else {
                                start.as_map()
                            });
                        }
                        added
                    },
                    KeyOrder::Same => {
                        return (Some(current_node), false);
                    },
                };
                let rebalanced = Self::rebalance(current_node);
                proof {
                    Node::lemma_unfold(Some(rebalanced));
                }
                (Some(rebalanced), added)
            },
            None => {
                proof {
                    Node::lemma_unfold(Some(node_to_insert));
                    assert(node_to_insert.as_map() =~= Node::opt_map(subtree).insert(
                        node_to_insert.key@,
                        node_to_insert.course@,
                    ));
                }
                (Some(node_to_insert), true)
            },
        }
    }
}

} // verus!

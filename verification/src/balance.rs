//! Height bookkeeping, rotations and rebalancing.

use vstd::prelude::*;
use crate::key::{key_lt, lemma_key_lt_irreflexive, lemma_key_lt_transitive};
use crate::node::{max_int, Node};
use crate::tree::AVLTree;

verus! {

/// Enum to specify which child (left or right) to operate on.
pub(crate) enum ChildSide {
    Left,
    Right,
}

/// `after` is `before` turned to the left: the right child of `before` has
/// become the root, `before` its left child, and the subtree that stood
/// between the two hangs to the right of `before`. The two nodes that changed
/// children store heights computed from their new children.
pub(crate) open spec fn rotated_left(before: Node, after: Node) -> bool {
    &&& before.right matches Some(pivot)
    &&& after.left matches Some(down)
    &&& after.course == pivot.course
    &&& after.key == pivot.key
    &&& after.right == pivot.right
    &&& down.course == before.course
    &&& down.key == before.key
    &&& down.left == before.left
    &&& down.right == pivot.left
    &&& down.height == 1 + max_int(
        Node::opt_stored_height(down.left),
        Node::opt_stored_height(down.right),
    )
    &&& after.height == 1 + max_int(down.height as int, Node::opt_stored_height(after.right))
}

/// `after` is `before` turned to the right: the mirror image of
/// `rotated_left`.
pub(crate) open spec fn rotated_right(before: Node, after: Node) -> bool {
    &&& before.left matches Some(pivot)
    &&& after.right matches Some(down)
    &&& after.course == pivot.course
    &&& after.key == pivot.key
    &&& after.left == pivot.left
    &&& down.course == before.course
    &&& down.key == before.key
    &&& down.right == before.right
    &&& down.left == pivot.right
    &&& down.height == 1 + max_int(
        Node::opt_stored_height(down.left),
        Node::opt_stored_height(down.right),
    )
    &&& after.height == 1 + max_int(Node::opt_stored_height(after.left), down.height as int)
}

/// A left rotation keeps the records, their order from left to right and
/// their number, and turns a tree that is sound below its root, with a sound
/// right child, into a sound one.
pub(crate) proof fn lemma_rotated_left(before: Node, after: Node)
    requires
        rotated_left(before, after),
    ensures
        after.as_seq() == before.as_seq(),
        after.size() == before.size(),
        before.sound_below() ==> after.as_map() == before.as_map() && after.sound(),
{
    let pivot = before.right->0;
    let down = after.left->0;
    assert(after.as_seq() =~= before.as_seq());
    if before.sound_below() {
        Node::lemma_sound_height(down.left);
        Node::lemma_sound_height(down.right);
        Node::lemma_sound_height(after.right);
        assert(Node::opt_map(before.right).dom().contains(pivot.key@));
        assert(key_lt(before.key@, pivot.key@));
        assert forall|k: Seq<u8>| #[trigger]
            Node::opt_map(pivot.left).dom().contains(k) implies key_lt(before.key@, k) by {
            assert(Node::opt_map(before.right).dom().contains(k));
        }
        assert(down.ordered_here());
        assert forall|k: Seq<u8>| #[trigger]
            Node::opt_map(after.left).dom().contains(k) implies key_lt(k, after.key@) by {
            assert(Node::opt_map(after.left) == down.as_map());
            assert(pivot.ordered_here());
            if Node::opt_map(before.left).dom().contains(k) {
                lemma_key_lt_transitive(k, before.key@, pivot.key@);
            } else if k != before.key@ {
                assert(Node::opt_map(pivot.left).dom().contains(k));
            }
        }
        assert forall|k: Seq<u8>| #[trigger]
            Node::opt_map(after.right).dom().contains(k) implies key_lt(after.key@, k) by {
            assert(Node::opt_map(pivot.right).dom().contains(k));
        }
        assert(after.ordered_here());
        assert(after.as_map() =~= before.as_map()) by {
            lemma_key_lt_irreflexive(before.key@);
            assert forall|k: Seq<u8>| #[trigger]
                Node::opt_map(pivot.right).dom().contains(k) implies k != before.key@ by {
                assert(Node::opt_map(before.right).dom().contains(k));
            }
            assert forall|k: Seq<u8>| #[trigger]
                Node::opt_map(pivot.left).dom().contains(k) implies k != before.key@ by {
                assert(Node::opt_map(before.right).dom().contains(k));
            }
        }
    }
}

/// A right rotation keeps the records, their order from left to right and
/// their number, and turns a tree that is sound below its root, with a sound
/// left child, into a sound one.
pub(crate) proof fn lemma_rotated_right(before: Node, after: Node)
    requires
        rotated_right(before, after),
    ensures
        after.as_seq() == before.as_seq(),
        after.size() == before.size(),
        before.sound_below() ==> after.as_map() == before.as_map() && after.sound(),
{
    let pivot = before.left->0;
    let down = after.right->0;
    assert(after.as_seq() =~= before.as_seq());
    if before.sound_below() {
        Node::lemma_sound_height(down.left);
        Node::lemma_sound_height(down.right);
        Node::lemma_sound_height(after.left);
        assert(Node::opt_map(before.left).dom().contains(pivot.key@));
        assert(key_lt(pivot.key@, before.key@));
        assert forall|k: Seq<u8>| #[trigger]
            Node::opt_map(pivot.right).dom().contains(k) implies key_lt(k, before.key@) by {
            assert(Node::opt_map(before.left).dom().contains(k));
        }
        assert(down.ordered_here());
        assert forall|k: Seq<u8>| #[trigger]
            Node::opt_map(after.right).dom().contains(k) implies key_lt(after.key@, k) by {
            assert(Node::opt_map(after.right) == down.as_map());
            assert(pivot.ordered_here());
            if Node::opt_map(before.right).dom().contains(k) {
                lemma_key_lt_transitive(pivot.key@, before.key@, k);
            } else if k != before.key@ {
                assert(Node::opt_map(pivot.right).dom().contains(k));
            }
        }
        assert forall|k: Seq<u8>| #[trigger]
            Node::opt_map(after.left).dom().contains(k) implies key_lt(k, after.key@) by {
            assert(Node::opt_map(pivot.left).dom().contains(k));
        }
        assert(after.ordered_here());
        assert(after.as_map() =~= before.as_map()) by {
            lemma_key_lt_irreflexive(pivot.key@);
            lemma_key_lt_irreflexive(before.key@);
            assert forall|k: Seq<u8>| #[trigger]
                Node::opt_map(before.right).dom().contains(k) implies k != pivot.key@ by {
                if k == pivot.key@ {
                    lemma_key_lt_transitive(pivot.key@, before.key@, k);
                }
            }
            assert forall|k: Seq<u8>| #[trigger]
                Node::opt_map(pivot.right).dom().contains(k) implies k != pivot.key@ by {
            }
        }
    }
}

impl AVLTree {
    /// Returns the height of a node, or -1 if the node is None.
    pub(crate) fn height(node: &Option<Box<Node>>) -> (h: i32)
        ensures
            h == Node::opt_stored_height(*node),
    {
        match node {
            Some(n) => n.height,
            None => -1,
        }
    }

    /// Returns the balance factor of a node (left height - right height).
    pub(crate) fn get_balance(node: &Node) -> (b: i32)
        requires
            -1 <= Node::opt_stored_height(node.left) < i32::MAX,
            -1 <= Node::opt_stored_height(node.right) < i32::MAX,
        ensures
            b == Node::opt_stored_height(node.left) - Node::opt_stored_height(node.right),
    {
        let left_height = Self::height(&node.left);
        let right_height = Self::height(&node.right);
        left_height - right_height
    }

    /// Updates the height of a node based on the heights of its children.
    pub(crate) fn update_height(node: &mut Box<Node>)
        requires
            Node::opt_stored_height(old(node).left) < i32::MAX,
            Node::opt_stored_height(old(node).right) < i32::MAX,
        ensures
            final(node).height == 1 + max_int(
                Node::opt_stored_height(old(node).left),
                Node::opt_stored_height(old(node).right),
            ),
            final(node).course == old(node).course,
            final(node).key == old(node).key,
            final(node).left == old(node).left,
            final(node).right == old(node).right,
    {
        let left_height = Self::height(&node.left);
        let right_height = Self::height(&node.right);
        node.height = if left_height >= right_height {
            left_height + 1
        } else {
            right_height + 1
        };
    }

    /// Performs a left rotation on the given node and returns the new subtree root.
    /// If the right child is None, returns the root as it is.
    pub(crate) fn rotate_left(mut root: Box<Node>) -> (r: Box<Node>)
        requires
            Node::opt_stored_height(root.left) < i32::MAX - 1,
            root.right matches Some(pivot) ==> {
                &&& Node::opt_stored_height(pivot.left) < i32::MAX - 1
                &&& Node::opt_stored_height(pivot.right) < i32::MAX - 1
            },
        ensures
            root.right is None ==> r == root,
            root.right is Some ==> rotated_left(*root, *r),
    {
        match root.right.take() {
            Some(mut right_child) => {
                let right_left_child = right_child.left.take();
                Self::set_child(&mut root, ChildSide::Right, right_left_child);
                Self::set_child(&mut right_child, ChildSide::Left, Some(root));
                right_child
            },
            None => root,
        }
    }

    /// Performs a right rotation on the given node and returns the new subtree root.
    /// If the left child is None, returns the root as it is.
    pub(crate) fn rotate_right(mut root: Box<Node>) -> (r: Box<Node>)
        requires
            Node::opt_stored_height(root.right) < i32::MAX - 1,
            root.left matches Some(pivot) ==> {
                &&& Node::opt_stored_height(pivot.left) < i32::MAX - 1
                &&& Node::opt_stored_height(pivot.right) < i32::MAX - 1
            },
        ensures
            root.left is None ==> r == root,
            root.left is Some ==> rotated_right(*root, *r),
    {
        match root.left.take() {
            Some(mut left_child) => {
                let left_right_child = left_child.right.take();
                Self::set_child(&mut root, ChildSide::Left, left_right_child);
                Self::set_child(&mut left_child, ChildSide::Right, Some(root));
                left_child
            },
            None => root,
        }
    }

    /// Rebalances a node and returns the new subtree root.
    /// This function updates the node's height, checks its balance factor, and performs
    /// the appropriate single or double rotation to maintain AVL balance.
    pub(crate) fn rebalance(mut node: Box<Node>) -> (r: Box<Node>)
        requires
            node.sound_below(),
            Node::opt_balanced(node.left),
            Node::opt_balanced(node.right),
            -2 <= node.balance() <= 2,
            node.true_height() < i32::MAX,
        ensures
            r.sound(),
            r.balanced(),
            r.as_map() == node.as_map(),
            r.as_seq() == node.as_seq(),
            r.size() == node.size(),
            node.true_height() - 1 <= r.true_height() <= node.true_height(),
            -1 <= node.balance() <= 1 ==> r.true_height() == node.true_height(),
    {
        let ghost start = *node;
        proof {
            Node::lemma_sound_height(node.left);
            Node::lemma_sound_height(node.right);
            Node::lemma_height_range(node.left);
            Node::lemma_height_range(node.right);
        }
        Self::update_height(&mut node);
        let balance = Self::get_balance(&node);
        if balance == -2 {
            let toward_left = match &node.right {
                Some(right_child) => {
                    proof {
                        Node::lemma_unfold(node.right);
                        Node::lemma_sound_height(right_child.left);
                        Node::lemma_sound_height(right_child.right);
                        Node::lemma_height_range(right_child.left);
                        Node::lemma_height_range(right_child.right);
                    }
                    Self::get_balance(right_child) > 0
                },
                None => false,
            };
            if toward_left {
                if let Some(right) = node.right.take() {
                    proof {
                        Node::lemma_unfold(start.right);
                        Node::lemma_unfold(right.left);
                        let inner = right.left->0;
                        Node::lemma_sound_height(inner.left);
                        Node::lemma_sound_height(inner.right);
                        Node::lemma_height_range(inner.left);
                        Node::lemma_height_range(inner.right);
                    }
                    let turned = Self::rotate_right(right);
                    proof {
                        lemma_rotated_right(*right, *turned);
                        Node::lemma_unfold(turned.right);
                    }
                    node.right = Some(turned);
                    proof {
                        Node::lemma_unfold(node.right);
                    }
                }
            }
            let ghost middle = *node;
            proof {
                Node::lemma_unfold(middle.right);
                Node::lemma_unfold(start.right);
                let pivot = middle.right->0;
                Node::lemma_sound_height(pivot.left);
                Node::lemma_sound_height(pivot.right);
                Node::lemma_unfold(pivot.left);
                Node::lemma_unfold(pivot.right);
                assert(middle.as_map() == start.as_map());
                assert(middle.as_seq() == start.as_seq());
                assert(middle.sound_below());
            }
            let r = Self::rotate_left(node);
            proof {
                lemma_rotated_left(middle, *r);
                Node::lemma_unfold(r.left);
                Node::lemma_unfold(r.right);
            }
            return r;
        } else if balance == 2 {
            let toward_right = match &node.left {
                Some(left_child) => {
                    proof {
                        Node::lemma_unfold(node.left);
                        Node::lemma_sound_height(left_child.left);
                        Node::lemma_sound_height(left_child.right);
                        Node::lemma_height_range(left_child.left);
                        Node::lemma_height_range(left_child.right);
                    }
                    Self::get_balance(left_child) < 0
                },
                None => false,
            };
            if toward_right {
                if let Some(left) = node.left.take() {
                    proof {
                        Node::lemma_unfold(start.left);
                        Node::lemma_unfold(left.right);
                        let inner = left.right->0;
                        Node::lemma_sound_height(inner.left);
                        Node::lemma_sound_height(inner.right);
                        Node::lemma_height_range(inner.left);
                        Node::lemma_height_range(inner.right);
                    }
                    let turned = Self::rotate_left(left);
                    proof {
                        lemma_rotated_left(*left, *turned);
                        Node::lemma_unfold(turned.left);
                    }
                    node.left = Some(turned);
                    proof {
                        Node::lemma_unfold(node.left);
                    }
                }
            }
            let ghost middle = *node;
            proof {
                Node::lemma_unfold(middle.left);
                Node::lemma_unfold(start.left);
                let pivot = middle.left->0;
                Node::lemma_sound_height(pivot.left);
                Node::lemma_sound_height(pivot.right);
                Node::lemma_unfold(pivot.left);
                Node::lemma_unfold(pivot.right);
                assert(middle.as_map() == start.as_map());
                assert(middle.as_seq() == start.as_seq());
                assert(middle.sound_below());
            }
            let r = Self::rotate_right(node);
            proof {
                lemma_rotated_right(middle, *r);
                Node::lemma_unfold(r.left);
                Node::lemma_unfold(r.right);
            }
            return r;
        }
        node
    }

    /// Sets the left or right child of a parent node using the ChildSide enum.
    /// Updates the parent's height after setting the child.
    pub(crate) fn set_child(parent: &mut Box<Node>, side: ChildSide, child: Option<Box<Node>>)
        requires
            Node::opt_stored_height(child) < i32::MAX,
            side is Left ==> Node::opt_stored_height(old(parent).right) < i32::MAX,
            side is Right ==> Node::opt_stored_height(old(parent).left) < i32::MAX,
        ensures
            final(parent).course == old(parent).course,
            final(parent).key == old(parent).key,
            side is Left ==> final(parent).left == child && final(parent).right == old(
                parent,
            ).right,
            side is Right ==> final(parent).right == child && final(parent).left == old(
                parent,
            ).left,
            final(parent).height == 1 + max_int(
                Node::opt_stored_height(final(parent).left),
                Node::opt_stored_height(final(parent).right),
            ),
    {
        match side {
            ChildSide::Left => parent.left = child,
            ChildSide::Right => parent.right = child,
        }
        Self::update_height(parent);
    }
}

} // verus!

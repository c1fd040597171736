//! The cells of the tree and what a subtree stands for.

use vstd::prelude::*;
use crate::course::{Course, CourseView};
use crate::key::key_lt;

verus! {

/// Node in the AVL tree, containing a Course and child pointers.
pub struct Node {
    /// The Course stored in this node.
    pub(crate) course: Course,
    /// The canonical key of the course's identifier.
    pub(crate) key: Vec<u8>,
    /// Left child node.
    pub(crate) left: Option<Box<Node>>,
    /// Right child node.
    pub(crate) right: Option<Box<Node>>,
    /// Height of the node in the tree.
    pub(crate) height: i32,
}

/// The larger of two integers.
pub open spec fn max_int(a: int, b: int) -> int {
    if a >= b {
        a
    } else {
        b
    }
}

impl Node {
    /// The records of a subtree, each under its key.
    pub open(crate) spec fn opt_map(o: Option<Box<Node>>) -> Map<Seq<u8>, CourseView>
        decreases o,
    {
        match o {
            None => Map::empty(),
            Some(n) => Node::opt_map(n.left).union_prefer_right(Node::opt_map(n.right)).insert(
                n.key@,
                n.course@,
            ),
        }
    }

    /// The records of a subtree from left to right: those of the left
    /// subtree, the root's own, those of the right subtree.
    pub open(crate) spec fn opt_seq(o: Option<Box<Node>>) -> Seq<CourseView>
        decreases o,
    {
        match o {
            None => Seq::empty(),
            Some(n) => Node::opt_seq(n.left).push(n.course@) + Node::opt_seq(n.right),
        }
    }

    /// The number of nodes of a subtree.
    pub open(crate) spec fn opt_size(o: Option<Box<Node>>) -> nat
        decreases o,
    {
        match o {
            None => 0,
            Some(n) => 1 + Node::opt_size(n.left) + Node::opt_size(n.right),
        }
    }

    /// The height that the root of a subtree stores, -1 where there is no
    /// subtree.
    pub open(crate) spec fn opt_stored_height(o: Option<Box<Node>>) -> int {
        match o {
            None => -1,
            Some(n) => n.height as int,
        }
    }

    /// The height of a subtree as its shape gives it: -1 where there is
    /// none, 0 for a leaf, and one more than the greater height of the two
    /// subtrees otherwise.
    pub open(crate) spec fn opt_height(o: Option<Box<Node>>) -> int
        decreases o,
    {
        match o {
            None => -1,
            Some(n) => 1 + max_int(Node::opt_height(n.left), Node::opt_height(n.right)),
        }
    }

    /// Every node of a subtree is ordered against its subtrees and stores
    /// its true height.
    pub open(crate) spec fn opt_sound(o: Option<Box<Node>>) -> bool
        decreases o,
    {
        match o {
            None => true,
            Some(n) => {
                &&& n.ordered_here()
                &&& n.height == n.true_height()
                &&& Node::opt_sound(n.left)
                &&& Node::opt_sound(n.right)
            },
        }
    }

    /// At no node of a subtree do the heights of the two subtrees differ by
    /// more than one.
    pub open(crate) spec fn opt_balanced(o: Option<Box<Node>>) -> bool
        decreases o,
    {
        match o {
            None => true,
            Some(n) => {
                &&& -1 <= n.balance() <= 1
                &&& Node::opt_balanced(n.left)
                &&& Node::opt_balanced(n.right)
            },
        }
    }

    /// The node `n` is the root of the subtree or lies below it.
    pub open(crate) spec fn opt_has(o: Option<Box<Node>>, n: Node) -> bool
        decreases o,
    {
        match o {
            None => false,
            Some(root) => *root == n || Node::opt_has(root.left, n) || Node::opt_has(
                root.right,
                n,
            ),
        }
    }

    /// The records below this node, each under its key.
    pub open(crate) spec fn as_map(self) -> Map<Seq<u8>, CourseView> {
        Node::opt_map(self.left).union_prefer_right(Node::opt_map(self.right)).insert(
            self.key@,
            self.course@,
        )
    }

    /// The records below this node from left to right.
    pub open(crate) spec fn as_seq(self) -> Seq<CourseView> {
        Node::opt_seq(self.left).push(self.course@) + Node::opt_seq(self.right)
    }

    /// The number of nodes from this one down.
    pub open(crate) spec fn size(self) -> nat {
        1 + Node::opt_size(self.left) + Node::opt_size(self.right)
    }

    /// One more than the greater height of the two subtrees.
    pub open(crate) spec fn true_height(self) -> int {
        1 + max_int(Node::opt_height(self.left), Node::opt_height(self.right))
    }

    /// The height that this node stores is its true height.
    pub open(crate) spec fn height_is_true(self) -> bool {
        self.height == self.true_height()
    }

    /// Height of the left subtree less that of the right.
    pub open(crate) spec fn balance(self) -> int {
        Node::opt_height(self.left) - Node::opt_height(self.right)
    }

    /// The key of this node is that of its record, every key to the left
    /// comes before it and every key to the right after it.
    pub open(crate) spec fn ordered_here(self) -> bool {
        &&& self.key@ == self.course@.key()
        &&& forall|k: Seq<u8>| #[trigger]
            Node::opt_map(self.left).dom().contains(k) ==> key_lt(k, self.key@)
        &&& forall|k: Seq<u8>| #[trigger]
            Node::opt_map(self.right).dom().contains(k) ==> key_lt(self.key@, k)
    }

    /// Both subtrees are sound and this node is ordered against them; the
    /// height that it stores may be out of date.
    pub open(crate) spec fn sound_below(self) -> bool {
        &&& self.ordered_here()
        &&& Node::opt_sound(self.left)
        &&& Node::opt_sound(self.right)
    }

    /// Every node from this one down is ordered against its subtrees and
    /// stores its true height.
    pub open(crate) spec fn sound(self) -> bool {
        &&& self.sound_below()
        &&& self.height == self.true_height()
    }

    /// At no node from this one down do the heights of the two subtrees
    /// differ by more than one.
    pub open(crate) spec fn balanced(self) -> bool {
        &&& -1 <= self.balance() <= 1
        &&& Node::opt_balanced(self.left)
        &&& Node::opt_balanced(self.right)
    }

    /// A node on its own: no children, height 0, and the key of its record.
    pub open(crate) spec fn is_leaf(self) -> bool {
        &&& self.left is None
        &&& self.right is None
        &&& self.height == 0
        &&& self.key@ == self.course@.key()
    }

    /// The record that this node holds.
    pub open(crate) spec fn record(self) -> CourseView {
        self.course@
    }

    /// The record that this node holds.
    pub fn course(&self) -> (c: &Course)
        ensures
            c@ == self.record(),
    {
        &self.course
    }

    /// What a subtree with a root stands for is what its root stands for.
    pub(crate) proof fn lemma_unfold(o: Option<Box<Node>>)
        ensures
            o matches Some(n) ==> {
                &&& Node::opt_map(o) == n.as_map()
                &&& Node::opt_seq(o) == n.as_seq()
                &&& Node::opt_size(o) == n.size()
                &&& Node::opt_height(o) == n.true_height()
                &&& Node::opt_sound(o) == n.sound()
                &&& Node::opt_balanced(o) == n.balanced()
            },
            o is None ==> {
                &&& Node::opt_map(o) == Map::<Seq<u8>, CourseView>::empty()
                &&& Node::opt_seq(o) == Seq::<CourseView>::empty()
                &&& Node::opt_size(o) == 0
                &&& Node::opt_height(o) == -1
                &&& Node::opt_sound(o)
                &&& Node::opt_balanced(o)
            },
    {
    }

    /// A sound subtree stores its true height at its root.
    pub(crate) proof fn lemma_sound_height(o: Option<Box<Node>>)
        requires
            Node::opt_sound(o),
        ensures
            Node::opt_stored_height(o) == Node::opt_height(o),
    {
    }

    /// A subtree has at least height -1, and fewer levels than nodes.
    pub(crate) proof fn lemma_height_range(o: Option<Box<Node>>)
        ensures
            -1 <= Node::opt_height(o) < Node::opt_size(o),
        decreases o,
    {
        if let Some(n) = o {
            Node::lemma_height_range(n.left);
            Node::lemma_height_range(n.right);
        }
    }
}

} // verus!

//! The index itself.

use vstd::prelude::*;
use crate::course::{Course, CourseView};
use crate::key::{
    canonical_key, compare_keys, key_of, lemma_key_lt_asymmetric, lemma_key_lt_irreflexive,
    lemma_key_lt_total, KeyOrder,
};
use crate::listing::{lists, strictly_ascending};
use crate::node::Node;

verus! {

/// AVL tree for storing courses, self-balancing on insertions and deletions.
pub struct AVLTree {
    /// Root node of the AVL tree.
    pub(crate) root: Option<Box<Node>>,
    /// Number of nodes in the tree.
    pub(crate) len: usize,
}

/// What each of a sequence of records says.
pub open spec fn views(v: Seq<&Course>) -> Seq<CourseView> {
    Seq::new(v.len(), |i: int| v[i]@)
}

/// The records of `m` once `record` has been offered to it: where `m` holds
/// a record under the same key already, that one stays, and else `record`
/// goes in under its key.
pub open spec fn with_record(m: Map<Seq<u8>, CourseView>, record: CourseView) -> Map<
    Seq<u8>,
    CourseView,
> {
    if m.contains_key(record.key()) {
        m
    } else {
        m.insert(record.key(), record)
    }
}

/// The records of `m` once each record of `records` has been offered to it,
/// the first of them first.
pub open spec fn after_inserts(m: Map<Seq<u8>, CourseView>, records: Seq<CourseView>) -> Map<
    Seq<u8>,
    CourseView,
>
    decreases records.len(),
{
    if records.len() == 0 {
        m
    } else {
        with_record(after_inserts(m, records.drop_last()), records.last())
    }
}

/// What a search for `id` finds among the records of `m`: the record under
/// the canonical key of `id`, if there is one.
pub open spec fn lookup(m: Map<Seq<u8>, CourseView>, id: Seq<char>) -> Option<CourseView> {
    if m.contains_key(canonical_key(id)) {
        Some(m[canonical_key(id)])
    } else {
        None
    }
}

impl View for AVLTree {
    type V = Map<Seq<u8>, CourseView>;

    /// The records of the tree, each under the canonical key of its
    /// identifier.
    open(crate) spec fn view(&self) -> Map<Seq<u8>, CourseView> {
        Node::opt_map(self.root)
    }
}

impl AVLTree {
    /// The state that every operation leaves the tree in. At every node the
    /// keys to the left come before the node's key and the keys to the right
    /// after it, the node stores one more than the greater height of its two
    /// subtrees, and these two heights differ by one at most. The tree also
    /// keeps count of its nodes.
    #[verifier::type_invariant]
    pub open(crate) spec fn well_formed(self) -> bool {
        &&& Node::opt_sound(self.root)
        &&& Node::opt_balanced(self.root)
        &&& self.len == Node::opt_size(self.root)
    }

    /// The records of the tree in the order in which a walk from left to
    /// right meets them.
    pub open(crate) spec fn in_order(self) -> Seq<CourseView> {
        Node::opt_seq(self.root)
    }

    /// The node is one of the nodes of the tree.
    pub open(crate) spec fn has_node(self, node: Node) -> bool {
        Node::opt_has(self.root, node)
    }

    /// The height of the tree: -1 when it is empty, 0 when it has one node.
    pub open(crate) spec fn spec_height(self) -> int {
        Node::opt_height(self.root)
    }

    /// Creates a new, empty AVL tree.
    pub fn new() -> (t: Self)
        ensures
            t.well_formed(),
            t@ == Map::<Seq<u8>, CourseView>::empty(),
            t.in_order() == Seq::<CourseView>::empty(),
            t.spec_height() == -1,
    {
        AVLTree { root: None, len: 0 }
    }

    /// The number of records in the tree.
    pub fn len(&self) -> (n: usize)
        ensures
            self@.dom().finite(),
            n == self@.len(),
            n == self.in_order().len(),
    {
        proof {
            use_type_invariant(self);
            Node::lemma_listing(self.root);
        }
        self.len
    }

    /// The height of the tree: -1 when it is empty, 0 when it has one node.
    pub fn tree_height(&self) -> (h: i32)
        ensures
            h == self.spec_height(),
    {
        proof {
            use_type_invariant(self);
            Node::lemma_sound_height(self.root);
        }
        Self::height(&self.root)
    }

    /// Inserts a course into the AVL tree. Where the tree already holds a
    /// record whose identifier has the same canonical key, that record stays
    /// and the new one is dropped.
    pub fn insert(&mut self, course: Course)
        requires
            old(self)@.len() < usize::MAX,
        ensures
            final(self).well_formed(),
            final(self)@ == with_record(old(self)@, course@),
            old(self).spec_height() <= final(self).spec_height() <= old(self).spec_height() + 1,
    {
        proof {
            use_type_invariant(&*self);
            Node::lemma_listing(self.root);
        }
        let key = key_of(course.course_id());
        let new_node = Box::new(Node { course, key, left: None, right: None, height: 0 });
        let mut taken = AVLTree::new();
        std::mem::swap(self, &mut taken);
        let (root, added) = Self::insert_node(taken.root, new_node);
        let len = if added {
            taken.len + 1
        } else {
            taken.len
        };
        *self = AVLTree { root, len };
    }

    /// Removes the record whose identifier has the same canonical key as
    /// `course_id`, if the tree holds one.
    pub fn remove(&mut self, course_id: &str)
        ensures
            final(self).well_formed(),
            final(self)@ == old(self)@.remove(canonical_key(course_id@)),
            old(self).spec_height() - 1 <= final(self).spec_height() <= old(self).spec_height(),
    {
        proof {
            use_type_invariant(&*self);
        }
        let key = key_of(course_id);
        let mut taken = AVLTree::new();
        std::mem::swap(self, &mut taken);
        let (root, removed) = Self::remove_node(taken.root, &key);
        let len = if removed {
            taken.len - 1
        } else {
            taken.len
        };
        *self = AVLTree { root, len };
    }

    /// Searches for a node in the AVL tree by Course ID, starting at the root.
    /// Returns a reference to the node if found, or None otherwise. Letter
    /// case makes no difference to the search.
    pub fn search_node(&self, course_id: &str) -> (found: Option<&Node>)
        ensures
            match found {
                Some(node) => lookup(self@, course_id@) == Some(node.record()) && self.has_node(
                    *node,
                ),
                None => lookup(self@, course_id@) is None,
            },
    {
        proof {
            use_type_invariant(self);
        }
        let search_key = key_of(course_id);
        let mut current = &self.root;
        loop
            invariant
                Node::opt_sound(*current),
                self@.contains_key(search_key@) == Node::opt_map(*current).contains_key(
                    search_key@,
                ),
                Node::opt_map(*current).contains_key(search_key@) ==> self@[search_key@]
                    == Node::opt_map(*current)[search_key@],
                search_key@ == canonical_key(course_id@),
                forall|n: Node| #[trigger] Node::opt_has(*current, n) ==> Node::opt_has(self.root, n),
            decreases *current,
        {
            match current {
                None => {
                    return None;
                },
                Some(node) => {
                    proof {
                        lemma_key_lt_irreflexive(search_key@);
                        assert(Node::opt_has(*current, **node));
                        assert forall|n: Node| #[trigger]
                            Node::opt_has(node.left, n) implies Node::opt_has(self.root, n) by {
                            assert(Node::opt_has(*current, n));
                        }
                        assert forall|n: Node| #[trigger]
                            Node::opt_has(node.right, n) implies Node::opt_has(self.root, n) by {
                            assert(Node::opt_has(*current, n));
                        }
                    }
                    match compare_keys(&search_key, &node.key) {
                        KeyOrder::Before => {
                            proof {
                                lemma_key_lt_asymmetric(search_key@, node.key@);
                                assert(!Node::opt_map(node.right).dom().contains(search_key@));
                            }
                            current = &node.left;
                        },
                        KeyOrder::After => {
                            proof {
                                lemma_key_lt_total(search_key@, node.key@);
                                lemma_key_lt_asymmetric(node.key@, search_key@);
                                assert(!Node::opt_map(node.left).dom().contains(search_key@));
                            }
                            current = &node.right;
                        },
                        KeyOrder::Same => {
                            return Some(node);
                        },
                    }
                },
            }
        }
    }

    /// Performs a recursive in-order traversal of the AVL tree and returns
    /// the courses in the order of the walk, which is the rising order of
    /// their keys.
    pub fn in_order_traversal(&self) -> (courses: Vec<&Course>)
        ensures
            views(courses@) == self.in_order(),
            strictly_ascending(self.in_order()),
            lists(self.in_order(), self@),
    {
        proof {
            use_type_invariant(self);
            Node::lemma_listing(self.root);
        }
        let mut courses: Vec<&Course> = Vec::new();
        Self::traverse(&self.root, &mut courses);
        assert(views(courses@) =~= self.in_order());
        courses
    }

    /// Walks a subtree from left to right and adds its courses to `out`.
    fn traverse<'a>(node: &'a Option<Box<Node>>, out: &mut Vec<&'a Course>)
        ensures
            views(final(out)@) == views(old(out)@) + Node::opt_seq(*node),
        decreases *node,
    {
        match node {
            None => {
                assert(views(out@) =~= views(out@) + Node::opt_seq(*node));
            },
            Some(cur) => {
                let ghost before = out@;
                Self::traverse(&cur.left, out);
                let ghost left_done = out@;
                out.push(&cur.course);
                assert(views(out@) =~= views(left_done).push(cur.course@));
                let ghost here_done = out@;
                Self::traverse(&cur.right, out);
                assert(views(out@) =~= views(before) + Node::opt_seq(*node));
            },
        }
    }
}

} // verus!

//! How the records of a tree, read from left to right, relate to the records
//! that the tree holds under their keys.

use vstd::prelude::*;
use vstd::map_lib::lemma_disjoint_union_size;
use crate::course::CourseView;
use crate::key::{
    key_lt, lemma_key_lt_asymmetric, lemma_key_lt_irreflexive, lemma_key_lt_transitive,
};
use crate::node::Node;

verus! {

/// The keys of the records rise strictly along the sequence.
pub open spec fn strictly_ascending(s: Seq<CourseView>) -> bool {
    forall|i: int, j: int| 0 <= i < j < s.len() ==> key_lt(#[trigger] s[i].key(), #[trigger] s[j].key())
}

/// The sequence holds the records of the map and no others: each of its
/// records is what the map holds under that record's key, and each key of the
/// map is the key of one of its records.
pub open spec fn lists(s: Seq<CourseView>, m: Map<Seq<u8>, CourseView>) -> bool {
    &&& forall|i: int|
        0 <= i < s.len() ==> m.dom().contains(#[trigger] s[i].key()) && m[s[i].key()] == s[i]
    &&& forall|k: Seq<u8>| #[trigger]
        m.dom().contains(k) ==> exists|i: int| 0 <= i < s.len() && #[trigger] s[i].key() == k
}

/// Two strictly ascending sequences that agree on their first `n` records
/// and list the same map agree on their next record too.
proof fn lemma_next_agrees(
    a: Seq<CourseView>,
    b: Seq<CourseView>,
    m: Map<Seq<u8>, CourseView>,
    n: int,
)
    requires
        strictly_ascending(a),
        strictly_ascending(b),
        lists(a, m),
        lists(b, m),
        0 <= n < a.len(),
        n <= b.len(),
        forall|i: int| 0 <= i < n ==> a[i] == b[i],
    ensures
        n < b.len(),
        a[n] == b[n],
{
    let k = a[n].key();
    assert(m.dom().contains(k));
    let j = choose|j: int| 0 <= j < b.len() && #[trigger] b[j].key() == k;
    if j < n {
        assert(a[j] == b[j]);
        assert(key_lt(a[j].key(), a[n].key()));
        lemma_key_lt_irreflexive(k);
    }
    assert(n < b.len());
    let k2 = b[n].key();
    assert(m.dom().contains(k2));
    let i = choose|i: int| 0 <= i < a.len() && #[trigger] a[i].key() == k2;
    if i < n {
        assert(a[i] == b[i]);
        assert(key_lt(b[i].key(), b[n].key()));
        lemma_key_lt_irreflexive(k2);
    }
    if j > n {
        assert(key_lt(b[n].key(), b[j].key()));
        if i > n {
            assert(key_lt(a[n].key(), a[i].key()));
            lemma_key_lt_asymmetric(k, k2);
        } else {
            lemma_key_lt_irreflexive(k);
        }
    }
    assert(j == n);
    assert(m[k] == a[n]);
    assert(m[k] == b[n]);
}

/// Two strictly ascending sequences that list the same map agree on their
/// first `n` records, as far as the first of them goes.
proof fn lemma_prefix_agrees(
    a: Seq<CourseView>,
    b: Seq<CourseView>,
    m: Map<Seq<u8>, CourseView>,
    n: int,
)
    requires
        strictly_ascending(a),
        strictly_ascending(b),
        lists(a, m),
        lists(b, m),
        0 <= n <= a.len(),
    ensures
        n <= b.len(),
        forall|i: int| 0 <= i < n ==> a[i] == b[i],
    decreases n,
{
    if n > 0 {
        lemma_prefix_agrees(a, b, m, n - 1);
        lemma_next_agrees(a, b, m, n - 1);
    }
}

/// A map has one strictly ascending listing at most.
pub proof fn lemma_listing_unique(
    a: Seq<CourseView>,
    b: Seq<CourseView>,
    m: Map<Seq<u8>, CourseView>,
)
    requires
        strictly_ascending(a),
        strictly_ascending(b),
        lists(a, m),
        lists(b, m),
    ensures
        a == b,
{
    lemma_prefix_agrees(a, b, m, a.len() as int);
    lemma_prefix_agrees(b, a, m, b.len() as int);
    assert(a =~= b);
}

impl Node {
    /// Read from left to right, the records of a sound subtree rise strictly
    /// by key, and they are the records that the subtree holds under their
    /// keys, one for each node.
    pub(crate) proof fn lemma_listing(o: Option<Box<Node>>)
        requires
            Node::opt_sound(o),
        ensures
            strictly_ascending(Node::opt_seq(o)),
            lists(Node::opt_seq(o), Node::opt_map(o)),
            Node::opt_seq(o).len() == Node::opt_size(o),
            Node::opt_map(o).dom().finite(),
            Node::opt_map(o).dom().len() == Node::opt_size(o),
        decreases o,
    {
        if let Some(n) = o {
            Node::lemma_listing(n.left);
            Node::lemma_listing(n.right);
            let l = Node::opt_seq(n.left);
            let r = Node::opt_seq(n.right);
            let lm = Node::opt_map(n.left);
            let rm = Node::opt_map(n.right);
            let s = Node::opt_seq(o);
            let m = Node::opt_map(o);
            let mid = l.len() as int;
            assert(s.len() == l.len() + 1 + r.len());
            assert forall|i: int| 0 <= i < mid implies s[i] == l[i] by {}
            assert(s[mid] == n.course@);
            assert forall|i: int| mid < i < s.len() implies s[i] == r[i - mid - 1] by {}
            assert forall|i: int| 0 <= i < mid implies key_lt(#[trigger] s[i].key(), n.key@) by {
                assert(lm.dom().contains(l[i].key()));
            }
            assert forall|i: int| mid < i < s.len() implies key_lt(
                n.key@,
                #[trigger] s[i].key(),
            ) by {
                assert(rm.dom().contains(r[i - mid - 1].key()));
            }
            assert forall|i: int, j: int| 0 <= i < j < s.len() implies key_lt(
                #[trigger] s[i].key(),
                #[trigger] s[j].key(),
            ) by {
                if j < mid {
                    assert(key_lt(l[i].key(), l[j].key()));
                } else if j == mid {
                } else if i < mid {
                    lemma_key_lt_transitive(s[i].key(), n.key@, s[j].key());
                } else if i == mid {
                } else {
                    assert(key_lt(r[i - mid - 1].key(), r[j - mid - 1].key()));
                }
            }
            lemma_key_lt_irreflexive(n.key@);
            assert forall|k: Seq<u8>| lm.dom().contains(k) implies !rm.dom().contains(k) by {
                if rm.dom().contains(k) {
                    lemma_key_lt_asymmetric(k, n.key@);
                }
            }
            assert forall|i: int| 0 <= i < s.len() implies m.dom().contains(
                #[trigger] s[i].key(),
            ) && m[s[i].key()] == s[i] by {
                if i < mid {
                    assert(lm.dom().contains(l[i].key()));
                    assert(!rm.dom().contains(l[i].key()));
                } else if i > mid {
                    assert(rm.dom().contains(r[i - mid - 1].key()));
                }
            }
            assert forall|k: Seq<u8>| #[trigger] m.dom().contains(k) implies exists|i: int|
                0 <= i < s.len() && #[trigger] s[i].key() == k by {
                if k == n.key@ {
                    assert(s[mid].key() == k);
                } else if rm.dom().contains(k) {
                    let j = choose|j: int| 0 <= j < r.len() && #[trigger] r[j].key() == k;
                    assert(s[mid + 1 + j].key() == k);
                } else {
                    assert(lm.dom().contains(k));
                    let j = choose|j: int| 0 <= j < l.len() && #[trigger] l[j].key() == k;
                    assert(s[j].key() == k);
                }
            }
            assert(lm.dom().disjoint(rm.dom()));
            lemma_disjoint_union_size(lm, rm);
            let u = lm.union_prefer_right(rm);
            assert(u.dom() =~= lm.dom().union(rm.dom()));
            assert(!u.dom().contains(n.key@));
            assert(m.dom() =~= u.dom().insert(n.key@));
        }
    }
}

} // verus!

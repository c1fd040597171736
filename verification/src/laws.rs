//! What holds of the index whatever is done with it.

use vstd::prelude::*;
use vstd::arithmetic::power2::pow2;
use crate::bound::{lemma_min_nodes_doubles, lemma_min_nodes_monotone, min_nodes};
use crate::course::CourseView;
use crate::key::canonical_key;
use crate::listing::{lists, strictly_ascending};
use crate::node::Node;
use crate::tree::{after_inserts, lookup, with_record, AVLTree};

verus! {

/// No two of the records have the same key.
pub open spec fn distinct_keys(records: Seq<CourseView>) -> bool {
    forall|i: int, j: int|
        0 <= i < j < records.len() ==> #[trigger] records[i].key() != #[trigger] records[j].key()
}

/// The record `r` stands somewhere in `s`.
pub open spec fn occurs(s: Seq<CourseView>, r: CourseView) -> bool {
    exists|i: int| 0 <= i < s.len() && s[i] == r
}

/// At every node of a well-formed tree the key is that of the node's record,
/// the keys to the left come before it and the keys to the right after it,
/// the height that the node stores is one more than the greater height of its
/// two subtrees, and these two heights differ by one at most.
pub proof fn lemma_every_node(tree: AVLTree, node: Node)
    requires
        tree.well_formed(),
        tree.has_node(node),
    ensures
        node.ordered_here(),
        node.height_is_true(),
        -1 <= node.balance() <= 1,
{
    lemma_node_below(tree.root, node);
}

/// What holds at the root of a sound and balanced subtree holds at each of
/// its nodes.
proof fn lemma_node_below(o: Option<Box<Node>>, node: Node)
    requires
        Node::opt_sound(o),
        Node::opt_balanced(o),
        Node::opt_has(o, node),
    ensures
        node.ordered_here(),
        node.height == node.true_height(),
        -1 <= node.balance() <= 1,
    decreases o,
{
    let root = o->0;
    if *root != node {
        if Node::opt_has(root.left, node) {
            lemma_node_below(root.left, node);
        } else {
            lemma_node_below(root.right, node);
        }
    }
}

/// Read from left to right, the records of a well-formed tree rise strictly
/// by key, so that none comes twice, and they are the records that the tree
/// holds, as many as it holds.
pub proof fn lemma_in_order_lists_the_tree(tree: AVLTree)
    requires
        tree.well_formed(),
    ensures
        strictly_ascending(tree.in_order()),
        lists(tree.in_order(), tree@),
        tree@.dom().finite(),
        tree.in_order().len() == tree@.len(),
{
    Node::lemma_listing(tree.root);
}

/// A well-formed tree of height `h` holds at least `min_nodes(h)` records,
/// which is at least `2^(h / 2)`: the height grows with the logarithm of the
/// number of records.
pub proof fn lemma_height_bound(tree: AVLTree)
    requires
        tree.well_formed(),
    ensures
        -1 <= tree.spec_height(),
        min_nodes(tree.spec_height()) <= tree@.len(),
        tree.spec_height() >= 0 ==> pow2((tree.spec_height() / 2) as nat) <= tree@.len(),
{
    Node::lemma_listing(tree.root);
    Node::lemma_enough_nodes(tree.root);
    Node::lemma_height_range(tree.root);
    let h = tree.spec_height();
    if h >= 0 {
        let half = (h / 2) as nat;
        lemma_min_nodes_doubles(half);
        lemma_min_nodes_monotone(2 * (half as int), h);
    }
}

/// Records with distinct keys, offered one after the other to an empty
/// index, are all taken: the index then holds each of them under its key and
/// nothing else.
pub proof fn lemma_inserts_of_distinct_keys(records: Seq<CourseView>)
    requires
        distinct_keys(records),
    ensures
        after_inserts(Map::empty(), records).dom().finite(),
        after_inserts(Map::empty(), records).len() == records.len(),
        forall|i: int|
            0 <= i < records.len() ==> after_inserts(Map::empty(), records).contains_key(
                #[trigger] records[i].key(),
            ) && after_inserts(Map::empty(), records)[records[i].key()] == records[i],
        forall|k: Seq<u8>| #[trigger]
            after_inserts(Map::empty(), records).contains_key(k) ==> exists|i: int|
                0 <= i < records.len() && #[trigger] records[i].key() == k,
    decreases records.len(),
{
    if records.len() > 0 {
        let front = records.drop_last();
        let last = records.last();
        let before = after_inserts(Map::empty(), front);
        let after = after_inserts(Map::empty(), records);
        lemma_inserts_of_distinct_keys(front);
        assert(!before.contains_key(last.key())) by {
            if before.contains_key(last.key()) {
                let i = choose|i: int| 0 <= i < front.len() && #[trigger] front[i].key() == last.key();
                assert(records[i].key() == records[records.len() - 1].key());
            }
        }
        assert(after == before.insert(last.key(), last));
        assert forall|i: int| 0 <= i < records.len() implies after.contains_key(
            #[trigger] records[i].key(),
        ) && after[records[i].key()] == records[i] by {
            if i < front.len() {
                assert(front[i] == records[i]);
                assert(records[i].key() != records[records.len() - 1].key());
            }
        }
        assert forall|k: Seq<u8>| #[trigger] after.contains_key(k) implies exists|i: int|
            0 <= i < records.len() && #[trigger] records[i].key() == k by {
            if k == last.key() {
                assert(records[records.len() - 1].key() == k);
            } else {
                let i = choose|i: int| 0 <= i < front.len() && #[trigger] front[i].key() == k;
                assert(records[i].key() == k);
            }
        }
    }
}

/// Round trip: when records with distinct keys have been inserted into an
/// empty tree, the walk in order gives exactly these records, each once, in
/// rising order of their keys.
pub proof fn lemma_round_trip(tree: AVLTree, records: Seq<CourseView>)
    requires
        tree.well_formed(),
        distinct_keys(records),
        tree@ == after_inserts(Map::empty(), records),
    ensures
        tree.in_order().len() == records.len(),
        strictly_ascending(tree.in_order()),
        forall|i: int| 0 <= i < records.len() ==> occurs(tree.in_order(), #[trigger] records[i]),
        forall|j: int|
            0 <= j < tree.in_order().len() ==> occurs(records, #[trigger] tree.in_order()[j]),
{
    lemma_in_order_lists_the_tree(tree);
    lemma_inserts_of_distinct_keys(records);
    let walk = tree.in_order();
    assert forall|i: int| 0 <= i < records.len() implies occurs(walk, #[trigger] records[i]) by {
        let k = records[i].key();
        assert(tree@.dom().contains(k));
        let j = choose|j: int| 0 <= j < walk.len() && #[trigger] walk[j].key() == k;
        assert(walk[j] == tree@[k]);
    }
    assert forall|j: int| 0 <= j < walk.len() implies occurs(records, #[trigger] walk[j]) by {
        let k = walk[j].key();
        assert(tree@.contains_key(k));
        let i = choose|i: int| 0 <= i < records.len() && #[trigger] records[i].key() == k;
        assert(records[i] == tree@[k]);
    }
}

/// A second record under a key that the index holds already changes
/// nothing: the first record stays, and the index holds as many records as
/// before.
pub proof fn lemma_duplicate_insert(
    m: Map<Seq<u8>, CourseView>,
    first: CourseView,
    second: CourseView,
)
    requires
        first.key() == second.key(),
    ensures
        with_record(with_record(m, first), second) == with_record(m, first),
        !m.contains_key(first.key()) ==> with_record(with_record(m, first), second)[first.key()]
            == first,
{
}

/// A search finds every record that was inserted, under any spelling of its
/// identifier that has the same canonical key: the record itself where its
/// key was free, and else the record that held the key before.
pub proof fn lemma_find_inserted(m: Map<Seq<u8>, CourseView>, record: CourseView, id: Seq<char>)
    requires
        canonical_key(id) == record.key(),
    ensures
        lookup(with_record(m, record), id) == if m.contains_key(record.key()) {
            Some(m[record.key()])
        } else {
            Some(record)
        },
{
}

/// An insertion changes what a search finds under no other key.
pub proof fn lemma_find_other(m: Map<Seq<u8>, CourseView>, record: CourseView, id: Seq<char>)
    requires
        canonical_key(id) != record.key(),
    ensures
        lookup(with_record(m, record), id) == lookup(m, id),
{
}

/// A search finds nothing in an empty index, and nothing under a key that
/// was removed; a removal changes what it finds under no other key.
pub proof fn lemma_find_absent(m: Map<Seq<u8>, CourseView>, removed: Seq<char>, id: Seq<char>)
    ensures
        lookup(Map::empty(), id) is None,
        lookup(m.remove(canonical_key(removed)), removed) is None,
        canonical_key(id) != canonical_key(removed) ==> lookup(
            m.remove(canonical_key(removed)),
            id,
        ) == lookup(m, id),
{
}

/// A record that is inserted after its key was removed is found again.
pub proof fn lemma_reinsert_after_remove(m: Map<Seq<u8>, CourseView>, record: CourseView)
    ensures
        lookup(with_record(m.remove(record.key()), record), record.course_id) == Some(record),
{
}

} // verus!

//! Keys of the index: the canonical form of an identifier and its order.
//!
//! Two identifiers name the same record when their lower-case forms are
//! equal. The canonical key of an identifier is the UTF-8 encoding of its
//! lower-case form, and keys are ordered lexicographically, byte by byte.

use vstd::prelude::*;
use vstd::string::*;

verus! {

/// The lower-case form of a string, as `str::to_lowercase` computes it.
pub uninterp spec fn lowercase(s: Seq<char>) -> Seq<char>;

/// The key under which a record with identifier `id` is filed.
pub open spec fn canonical_key(id: Seq<char>) -> Seq<u8> {
    vstd::utf8::encode_utf8(lowercase(id))
}

/// `a` and `b` agree on their first `n` bytes.
pub open spec fn same_prefix(a: Seq<u8>, b: Seq<u8>, n: int) -> bool {
    &&& 0 <= n <= a.len()
    &&& n <= b.len()
    &&& forall|j: int| 0 <= j < n ==> a[j] == b[j]
}

/// `a` comes before `b` with `n` as the place that decides it: the two agree
/// before `n`, and there `a` ends while `b` goes on, or `a` holds the
/// smaller byte.
pub open spec fn decided_at(a: Seq<u8>, b: Seq<u8>, n: int) -> bool {
    &&& same_prefix(a, b, n)
    &&& n < b.len()
    &&& (n == a.len() || a[n] < b[n])
}

/// The strict lexicographic order on keys.
pub open spec fn key_lt(a: Seq<u8>, b: Seq<u8>) -> bool {
    exists|n: int| decided_at(a, b, n)
}

/// How one key stands to another.
#[derive(Clone, Copy, PartialEq, Eq, Debug, Structural)]
pub enum KeyOrder {
    Before,
    Same,
    After,
}

/// The order of keys that `KeyOrder` reports: exactly one of the three holds
/// of any two keys.
pub open spec fn key_order(a: Seq<u8>, b: Seq<u8>) -> KeyOrder {
    if key_lt(a, b) {
        KeyOrder::Before
    } else if a == b {
        KeyOrder::Same
    } else {
        KeyOrder::After
    }
}

/// No key comes before itself.
pub proof fn lemma_key_lt_irreflexive(a: Seq<u8>)
    ensures
        !key_lt(a, a),
{
}

/// Two keys are never each before the other.
pub proof fn lemma_key_lt_asymmetric(a: Seq<u8>, b: Seq<u8>)
    requires
        key_lt(a, b),
    ensures
        !key_lt(b, a),
{
    let n = choose|n: int| decided_at(a, b, n);
    if key_lt(b, a) {
        let m = choose|m: int| decided_at(b, a, m);
        if n < m {
            assert(b[n] == a[n]);
        } else if m < n {
            assert(a[m] == b[m]);
        }
    }
}

/// The order is transitive.
pub proof fn lemma_key_lt_transitive(a: Seq<u8>, b: Seq<u8>, c: Seq<u8>)
    requires
        key_lt(a, b),
        key_lt(b, c),
    ensures
        key_lt(a, c),
{
    let n = choose|n: int| decided_at(a, b, n);
    let m = choose|m: int| decided_at(b, c, m);
    let k = if n <= m { n } else { m };
    assert(same_prefix(a, c, k)) by {
        assert forall|j: int| 0 <= j < k implies a[j] == c[j] by {
            assert(a[j] == b[j]);
            assert(b[j] == c[j]);
        }
    }
    if n < m {
        assert(b[n] == c[n]);
    } else if m < n {
        assert(a[m] == b[m]);
    }
    assert(decided_at(a, c, k));
}

/// Of two different keys one comes before the other.
pub proof fn lemma_key_lt_total(a: Seq<u8>, b: Seq<u8>)
    ensures
        key_lt(a, b) || a == b || key_lt(b, a),
{
    lemma_agree_or_decided(a, b, if a.len() <= b.len() { a.len() as int } else { b.len() as int });
    let n = if a.len() <= b.len() { a.len() as int } else { b.len() as int };
    if same_prefix(a, b, n) {
        if a.len() == b.len() {
            assert(a =~= b);
        } else if a.len() < b.len() {
            assert(decided_at(a, b, n));
        } else {
            assert(same_prefix(b, a, n));
            assert(decided_at(b, a, n));
        }
    }
}

/// Up to any place within both keys, either they agree or an earlier place
/// decides their order.
proof fn lemma_agree_or_decided(a: Seq<u8>, b: Seq<u8>, n: int)
    requires
        0 <= n <= a.len(),
        n <= b.len(),
    ensures
        same_prefix(a, b, n) || key_lt(a, b) || key_lt(b, a),
    decreases n,
{
    if n > 0 {
        lemma_agree_or_decided(a, b, n - 1);
        if same_prefix(a, b, n - 1) {
            if a[n - 1] < b[n - 1] {
                assert(decided_at(a, b, n - 1));
            } else if b[n - 1] < a[n - 1] {
                assert(same_prefix(b, a, n - 1));
                assert(decided_at(b, a, n - 1));
            } else {
                assert(same_prefix(a, b, n));
            }
        }
    }
}

/// Compares two keys.
pub fn compare_keys(a: &Vec<u8>, b: &Vec<u8>) -> (r: KeyOrder)
    ensures
        r == key_order(a@, b@),
{
    let mut i: usize = 0;
    while i < a.len() && i < b.len() && a[i] == b[i]
        invariant
            same_prefix(a@, b@, i as int),
        decreases a.len() - i,
    {
        i += 1;
    }
    if i == a.len() {
        if i == b.len() {
            proof {
                assert(a@ =~= b@);
                lemma_key_lt_irreflexive(a@);
            }
            KeyOrder::Same
        } else {
            assert(decided_at(a@, b@, i as int));
            KeyOrder::Before
        }
    } else if i < b.len() && a[i] < b[i] {
        assert(decided_at(a@, b@, i as int));
        KeyOrder::Before
    } else {
        proof {
            assert(same_prefix(b@, a@, i as int));
            assert(decided_at(b@, a@, i as int));
            lemma_key_lt_asymmetric(b@, a@);
        }
        KeyOrder::After
    }
}

/// Calls `str::to_lowercase`. The result is the string's lower-case form,
/// which depends on the string alone.
#[verifier::external_body]
fn to_lowercase(s: &str) -> (r: String)
    ensures
        r@ == lowercase(s@),
{
    s.to_lowercase()
}

/// Computes the canonical key of an identifier.
pub fn key_of(id: &str) -> (r: Vec<u8>)
    ensures
        r@ == canonical_key(id@),
{
    let lower = to_lowercase(id);
    lower.as_str().as_bytes_vec()
}

} // verus!

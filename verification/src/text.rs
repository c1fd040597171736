//! Lines of text: white space at their ends and fields between commas.

use vstd::prelude::*;
use vstd::string::*;

verus! {

/// Whether a character is white space, as `char::is_whitespace` tells it.
pub uninterp spec fn is_space(c: char) -> bool;

/// Calls `char::is_whitespace`. The answer depends on the character alone.
#[verifier::external_body]
fn is_whitespace(c: char) -> (r: bool)
    ensures
        r == is_space(c),
{
    c.is_whitespace()
}

/// What is left of `s` without the white space at its start.
pub open spec fn trim_start(s: Seq<char>) -> Seq<char>
    decreases s.len(),
{
    if s.len() > 0 && is_space(s[0]) {
        trim_start(s.drop_first())
    } else {
        s
    }
}

/// What is left of `s` without the white space at its end.
pub open spec fn trim_end(s: Seq<char>) -> Seq<char>
    decreases s.len(),
{
    if s.len() > 0 && is_space(s.last()) {
        trim_end(s.drop_last())
    } else {
        s
    }
}

/// What is left of `s` without the white space at its two ends.
pub open spec fn trimmed(s: Seq<char>) -> Seq<char> {
    trim_end(trim_start(s))
}

/// The fields of a line: the stretches of characters between its commas, of
/// which a line with `n` commas has `n + 1`. The characters of the line are
/// taken in one by one: a comma opens a new, empty field, any other character
/// joins the last field.
pub open spec fn fields(s: Seq<char>) -> Seq<Seq<char>>
    decreases s.len(),
{
    if s.len() == 0 {
        seq![Seq::<char>::empty()]
    } else if s.last() == ',' {
        fields(s.drop_last()).push(Seq::<char>::empty())
    } else {
        let before = fields(s.drop_last());
        before.drop_last().push(before.last().push(s.last()))
    }
}

/// The first `n` items, one after the other, with `between` between each
/// two.
pub open spec fn joined(items: Seq<Seq<char>>, between: Seq<char>, n: int) -> Seq<char>
    decreases n,
{
    if n <= 0 || n > items.len() {
        Seq::empty()
    } else if n == 1 {
        items[0]
    } else {
        joined(items, between, n - 1) + between + items[n - 1]
    }
}

/// What the first `n` items give when joined depends on these items alone.
pub proof fn lemma_joined_prefix(a: Seq<Seq<char>>, b: Seq<Seq<char>>, between: Seq<char>, n: int)
    requires
        0 <= n <= a.len(),
        n <= b.len(),
        forall|i: int| 0 <= i < n ==> a[i] == b[i],
    ensures
        joined(a, between, n) == joined(b, between, n),
    decreases n,
{
    if n > 1 {
        lemma_joined_prefix(a, b, between, n - 1);
    }
}

/// The fields of a line hold no comma, and joined by commas they give the
/// line again.
pub proof fn lemma_fields(s: Seq<char>)
    ensures
        fields(s).len() >= 1,
        forall|i: int| 0 <= i < fields(s).len() ==> !(#[trigger] fields(s)[i]).contains(','),
        joined(fields(s), seq![','], fields(s).len() as int) == s,
    decreases s.len(),
{
    let f = fields(s);
    let comma = seq![','];
    if s.len() == 0 {
        assert(joined(f, comma, 1) =~= s);
    } else {
        let front = s.drop_last();
        let before = fields(front);
        let n = before.len() as int;
        lemma_fields(front);
        if s.last() == ',' {
            lemma_joined_prefix(f, before, comma, n);
            assert(joined(f, comma, n + 1) =~= front.push(','));
            assert(front.push(',') =~= s);
        } else {
            let last = before.last().push(s.last());
            assert(f.len() == n);
            assert(f[n - 1] == last);
            assert forall|i: int| 0 <= i < f.len() implies !(#[trigger] f[i]).contains(',') by {
                if i == n - 1 {
                    assert(!before[n - 1].contains(','));
                    if last.contains(',') {
                        let j = choose|j: int| 0 <= j < last.len() && last[j] == ',';
                        assert(before[n - 1][j] == ',');
                    }
                } else {
                    assert(f[i] == before[i]);
                }
            }
            if n == 1 {
                assert(joined(f, comma, 1) =~= front.push(s.last()));
            } else {
                lemma_joined_prefix(f, before, comma, n - 1);
                assert(joined(f, comma, n) =~= joined(before, comma, n).push(s.last()));
            }
            assert(front.push(s.last()) =~= s);
        }
    }
}

/// Without the white space at its start, `s` is what follows its first
/// `a` characters, which are all white space, and begins with a character
/// that is none.
pub proof fn lemma_trim_start(s: Seq<char>) -> (a: int)
    ensures
        0 <= a <= s.len(),
        trim_start(s) == s.skip(a),
        forall|i: int| 0 <= i < a ==> is_space(#[trigger] s[i]),
        a < s.len() ==> !is_space(s[a]),
    decreases s.len(),
{
    if s.len() > 0 && is_space(s[0]) {
        let rest = s.drop_first();
        let b = lemma_trim_start(rest);
        assert(rest.skip(b) =~= s.skip(b + 1));
        assert forall|i: int| 0 <= i < b + 1 implies is_space(#[trigger] s[i]) by {
            if i > 0 {
                assert(rest[i - 1] == s[i]);
            }
        }
        b + 1
    } else {
        assert(s.skip(0) =~= s);
        0
    }
}

/// Without the white space at its end, `s` is its first `b` characters,
/// which end with a character that is no white space, and all that follows
/// them is white space.
pub proof fn lemma_trim_end(s: Seq<char>) -> (b: int)
    ensures
        0 <= b <= s.len(),
        trim_end(s) == s.take(b),
        forall|i: int| b <= i < s.len() ==> is_space(#[trigger] s[i]),
        b > 0 ==> !is_space(s[b - 1]),
    decreases s.len(),
{
    if s.len() > 0 && is_space(s.last()) {
        let front = s.drop_last();
        let b = lemma_trim_end(front);
        assert(front.take(b) =~= s.take(b));
        assert forall|i: int| b <= i < s.len() implies is_space(#[trigger] s[i]) by {
            if i < s.len() - 1 {
                assert(front[i] == s[i]);
            }
        }
        b
    } else {
        assert(s.take(s.len() as int) =~= s);
        s.len() as int
    }
}

/// The characters of a string, one by one.
pub fn chars_of(s: &str) -> (v: Vec<char>)
    ensures
        v@ == s@,
{
    let mut v: Vec<char> = Vec::new();
    for c in it: s.chars()
        invariant
            it.seq() == s@,
            v@ == s@.take(it.index() as int),
    {
        v.push(c);
        assert(v@ =~= s@.take(it.index() + 1));
    }
    assert(v@ =~= s@);
    v
}

/// Copies a string without the white space at its two ends.
pub fn trim(s: &str) -> (r: String)
    ensures
        r@ == trimmed(s@),
{
    let chars = chars_of(s);
    let n = chars.len();
    let mut a: usize = 0;
    assert(s@.skip(0) =~= s@);
    while a < n && is_whitespace(chars[a])
        invariant
            a <= n,
            n == s@.len(),
            chars@ == s@,
            trim_start(s@) == trim_start(s@.skip(a as int)),
        decreases n - a,
    {
        assert(s@.skip(a as int).drop_first() =~= s@.skip(a + 1));
        a += 1;
    }
    assert(trim_start(s@) == s@.skip(a as int));
    let mut b: usize = n;
    while b > a && is_whitespace(chars[b - 1])
        invariant
            a <= b <= n,
            n == s@.len(),
            chars@ == s@,
            trimmed(s@) == trim_end(s@.subrange(a as int, b as int)),
        decreases b,
    {
        assert(s@.subrange(a as int, b as int).drop_last() =~= s@.subrange(a as int, b - 1));
        b -= 1;
    }
    String::from_str(s.substring_char(a, b))
}

/// Splits a line at its commas.
pub fn split_fields(line: &str) -> (r: Vec<String>)
    ensures
        r.deep_view() == fields(line@),
{
    let chars = chars_of(line);
    let n = chars.len();
    let mut out: Vec<String> = Vec::new();
    let mut start: usize = 0;
    let mut i: usize = 0;
    assert(line@.subrange(0, 0) =~= Seq::<char>::empty());
    assert(out.deep_view().push(line@.subrange(0, 0)) =~= fields(line@.take(0)));
    while i < n
        invariant
            start <= i <= n,
            n == line@.len(),
            chars@ == line@,
            out.deep_view().push(line@.subrange(start as int, i as int)) == fields(
                line@.take(i as int),
            ),
        decreases n - i,
    {
        let ghost done = out.deep_view();
        let ghost prefix = line@.take(i + 1);
        assert(prefix.drop_last() =~= line@.take(i as int));
        assert(prefix.last() == line@[i as int]);
        if chars[i] == ',' {
            let ghost opened = start;
            out.push(String::from_str(line.substring_char(start, i)));
            start = i + 1;
            assert(out.deep_view() =~= done.push(line@.subrange(opened as int, i as int)));
            assert(line@.subrange(start as int, i + 1) =~= Seq::<char>::empty());
        } else {
            assert(line@.subrange(start as int, i + 1) =~= line@.subrange(
                start as int,
                i as int,
            ).push(line@[i as int]));
            assert(done.push(line@.subrange(start as int, i as int)).drop_last() =~= done);
        }
        i += 1;
    }
    assert(line@.take(n as int) =~= line@);
    let ghost done = out.deep_view();
    out.push(String::from_str(line.substring_char(start, n)));
    assert(out.deep_view() =~= done.push(line@.subrange(start as int, n as int)));
    out
}

} // verus!

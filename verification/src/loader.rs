//! Reading course records from the lines of a text.
//!
//! A line holds one course: its fields, between commas, are the identifier,
//! the name, and the identifiers of the prerequisites. A prerequisite counts
//! only if some line of the text declares a course of that identifier.

use vstd::prelude::*;
use vstd::string::*;
use crate::course::{Course, CourseView};
use crate::text::{fields, lemma_fields, split_fields, trim, trimmed};
use crate::tree::{after_inserts, AVLTree};

verus! {

/// The line holds white space only.
pub open spec fn is_blank(line: Seq<char>) -> bool {
    trimmed(line).len() == 0
}

/// The identifier that a line declares: its first field without the white
/// space round it.
pub open spec fn declared_id(line: Seq<char>) -> Seq<char> {
    trimmed(fields(line)[0])
}

/// The identifiers that the first `n` lines declare, in their order: one for
/// each line that is not blank and whose identifier is not empty.
pub open spec fn declared(lines: Seq<Seq<char>>, n: int) -> Seq<Seq<char>>
    decreases n,
{
    if n <= 0 || n > lines.len() {
        Seq::empty()
    } else if is_blank(lines[n - 1]) || declared_id(lines[n - 1]).len() == 0 {
        declared(lines, n - 1)
    } else {
        declared(lines, n - 1).push(declared_id(lines[n - 1]))
    }
}

/// Those of the first `n` candidates that are among the known identifiers,
/// in their order.
pub open spec fn known_among(known: Seq<Seq<char>>, candidates: Seq<Seq<char>>, n: int) -> Seq<
    Seq<char>,
>
    decreases n,
{
    if n <= 0 || n > candidates.len() {
        Seq::empty()
    } else if known.contains(candidates[n - 1]) {
        known_among(known, candidates, n - 1).push(candidates[n - 1])
    } else {
        known_among(known, candidates, n - 1)
    }
}

/// The course that a line describes: none if the line is blank or has fewer
/// than two fields, and else the course of its first two fields, as written,
/// with those of its further fields that are known identifiers.
pub open spec fn parsed(known: Seq<Seq<char>>, line: Seq<char>) -> Option<CourseView> {
    let f = fields(line);
    if is_blank(line) || f.len() < 2 {
        None
    } else {
        Some(
            CourseView {
                course_id: f[0],
                course_name: f[1],
                prereqs: known_among(known, f.skip(2), f.len() - 2),
            },
        )
    }
}

/// The courses that the first `n` lines describe, in their order.
pub open spec fn records_of(known: Seq<Seq<char>>, lines: Seq<Seq<char>>, n: int) -> Seq<
    CourseView,
>
    decreases n,
{
    if n <= 0 || n > lines.len() {
        Seq::empty()
    } else {
        match parsed(known, lines[n - 1]) {
            Some(record) => records_of(known, lines, n - 1).push(record),
            None => records_of(known, lines, n - 1),
        }
    }
}

/// The courses that a text describes, in the order of its lines: a
/// prerequisite is known if some line of the text declares it.
pub open spec fn courses_of(lines: Seq<Seq<char>>) -> Seq<CourseView> {
    records_of(declared(lines, lines.len() as int), lines, lines.len() as int)
}

/// Tells whether a line holds white space only.
pub fn is_blank_line(line: &str) -> (r: bool)
    ensures
        r == is_blank(line@),
{
    trim(line).as_str().is_empty()
}

/// Tells whether `id` is one of `ids`.
pub fn contains_id(ids: &Vec<String>, id: &String) -> (r: bool)
    ensures
        r == ids.deep_view().contains(id@),
{
    let mut i: usize = 0;
    while i < ids.len()
        invariant
            i <= ids.len(),
            forall|j: int| 0 <= j < i ==> ids.deep_view()[j] != id@,
        decreases ids.len() - i,
    {
        if ids[i] == *id {
            assert(ids.deep_view()[i as int] == id@);
            return true;
        }
        i += 1;
    }
    false
}

/// Gathers the identifiers that the lines of a text declare.
pub fn declared_ids(lines: &Vec<String>) -> (ids: Vec<String>)
    ensures
        ids.deep_view() == declared(lines.deep_view(), lines.len() as int),
{
    let mut ids: Vec<String> = Vec::new();
    let mut i: usize = 0;
    assert(ids.deep_view() =~= declared(lines.deep_view(), 0));
    while i < lines.len()
        invariant
            i <= lines.len(),
            ids.deep_view() == declared(lines.deep_view(), i as int),
        decreases lines.len() - i,
    {
        let ghost before = ids.deep_view();
        let line = lines[i].as_str();
        assert(lines.deep_view()[i as int] == line@);
        if !is_blank_line(line) {
            let parts = split_fields(line);
            proof {
                lemma_fields(line@);
                assert(parts.deep_view()[0] == parts[0]@);
            }
            let id = trim(parts[0].as_str());
            if !id.as_str().is_empty() {
                ids.push(id);
                assert(ids.deep_view() =~= before.push(declared_id(line@)));
            }
        }
        i += 1;
    }
    ids
}

/// Reads the course that a line describes; `ids` holds the known
/// identifiers.
pub fn parse_course(line: &str, ids: &Vec<String>) -> (r: Option<Course>)
    ensures
        match r {
            Some(course) => parsed(ids.deep_view(), line@) == Some(course@),
            None => parsed(ids.deep_view(), line@) is None,
        },
{
    if is_blank_line(line) {
        return None;
    }
    let parts = split_fields(line);
    if parts.len() < 2 {
        return None;
    }
    let ghost f = fields(line@);
    let mut prereqs: Vec<String> = Vec::new();
    let mut j: usize = 2;
    assert(prereqs.deep_view() =~= known_among(ids.deep_view(), f.skip(2), 0));
    while j < parts.len()
        invariant
            2 <= j <= parts.len(),
            parts.deep_view() == f,
            prereqs.deep_view() == known_among(ids.deep_view(), f.skip(2), j - 2),
        decreases parts.len() - j,
    {
        let ghost before = prereqs.deep_view();
        assert(f.skip(2)[j - 2] == parts[j as int]@) by {
            assert(parts.deep_view()[j as int] == parts[j as int]@);
        }
        if contains_id(ids, &parts[j]) {
            prereqs.push(parts[j].clone());
            assert(prereqs.deep_view() =~= before.push(parts[j as int]@));
        }
        j += 1;
    }
    assert(parts.deep_view()[0] == parts[0]@);
    assert(parts.deep_view()[1] == parts[1]@);
    Some(Course::new(parts[0].clone(), parts[1].clone(), prereqs))
}

/// Loads the courses that the lines of a text describe into the tree, line
/// by line. A course whose key the tree holds already is passed over.
pub fn load_courses(tree: &mut AVLTree, lines: &Vec<String>)
    requires
        old(tree)@.len() + lines.len() < usize::MAX,
    ensures
        final(tree).well_formed(),
        final(tree)@ == after_inserts(old(tree)@, courses_of(lines.deep_view())),
{
    let ghost text = lines.deep_view();
    let ghost start = tree@;
    let ids = declared_ids(lines);
    let mut i: usize = 0;
    let _ = tree.len();
    proof {
        use_type_invariant(&*tree);
    }
    while i < lines.len()
        invariant
            i <= lines.len(),
            text == lines.deep_view(),
            tree.well_formed(),
            tree@.dom().finite(),
            tree@ == after_inserts(start, records_of(ids.deep_view(), text, i as int)),
            tree@.len() <= start.len() + i,
            start.len() + lines.len() < usize::MAX,
        decreases lines.len() - i,
    {
        let line = lines[i].as_str();
        assert(text[i as int] == line@);
        match parse_course(line, &ids) {
            Some(course) => {
                assert(records_of(ids.deep_view(), text, i + 1).drop_last() =~= records_of(
                    ids.deep_view(),
                    text,
                    i as int,
                ));
                tree.insert(course);
            },
            None => {},
        }
        let _ = tree.len();
        i += 1;
    }
}

} // verus!

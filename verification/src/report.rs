//! The text in which a course is shown.

use vstd::prelude::*;
use vstd::string::*;
use crate::course::{Course, CourseView};
use crate::text::joined;

verus! {

/// The text that shows a course: an empty line, the identifier, the name,
/// and, where there are prerequisites, a line that lists them.
pub open spec fn course_text(c: CourseView) -> Seq<char> {
    let head = "\nID: "@ + c.course_id + "\nName: "@ + c.course_name + "\n"@;
    if c.prereqs.len() > 0 {
        head + "Prerequisites: "@ + joined(c.prereqs, ", "@, c.prereqs.len() as int) + "\n"@
    } else {
        head
    }
}

/// The text that shows what a search came to: the course, or that there is
/// none.
pub open spec fn report_text(found: Option<CourseView>) -> Seq<char> {
    match found {
        Some(c) => course_text(c),
        None => "\nERROR: Course not found.\n"@,
    }
}

/// Writes the text that shows a course.
pub fn describe_course(course: &Course) -> (text: String)
    ensures
        text@ == course_text(course@),
{
    let mut text = String::from_str("\nID: ");
    text.append(course.course_id());
    text.append("\nName: ");
    text.append(course.course_name());
    text.append("\n");
    let prereqs = course.prereqs();
    if prereqs.len() > 0 {
        let ghost items = prereqs.deep_view();
        text.append("Prerequisites: ");
        let ghost head = text@;
        let mut i: usize = 0;
        assert(text@ =~= head + joined(items, ", "@, 0));
        while i < prereqs.len()
            invariant
                i <= prereqs.len(),
                items == prereqs.deep_view(),
                text@ == head + joined(items, ", "@, i as int),
            decreases prereqs.len() - i,
        {
            assert(items[i as int] == prereqs[i as int]@);
            if i > 0 {
                text.append(", ");
            }
            text.append(prereqs[i].as_str());
            assert(text@ =~= head + joined(items, ", "@, i + 1));
            i += 1;
        }
        text.append("\n");
        assert(text@ =~= course_text(course@));
    }
    text
}

/// Writes the text that shows what a search came to.
pub fn describe(found: Option<&Course>) -> (text: String)
    ensures
        text@ == report_text(
            match found {
                Some(course) => Some(course@),
                None => None,
            },
        ),
{
    match found {
        Some(course) => describe_course(course),
        None => String::from_str("\nERROR: Course not found.\n"),
    }
}

} // verus!

//! The records that the index holds.

use vstd::prelude::*;
use vstd::string::*;
use crate::key::canonical_key;

verus! {

/// What a course record says: its identifier, its name, and the identifiers
/// of the courses to be taken before it, in the order given.
pub ghost struct CourseView {
    pub course_id: Seq<char>,
    pub course_name: Seq<char>,
    pub prereqs: Seq<Seq<char>>,
}

impl CourseView {
    /// The key under which this record is filed.
    pub open spec fn key(self) -> Seq<u8> {
        canonical_key(self.course_id)
    }
}

/// Represents a course with an ID, name, and prerequisites.
pub struct Course {
    /// Unique identifier for the course.
    pub(crate) course_id: String,
    /// Name of the course.
    pub(crate) course_name: String,
    /// List of prerequisite course IDs.
    pub(crate) prereqs: Vec<String>,
}

impl View for Course {
    type V = CourseView;

    open(crate) spec fn view(&self) -> CourseView {
        CourseView {
            course_id: self.course_id@,
            course_name: self.course_name@,
            prereqs: self.prereqs.deep_view(),
        }
    }
}

impl Course {
    /// Makes a record from its three parts. The identifier is kept as
    /// written.
    pub fn new(course_id: String, course_name: String, prereqs: Vec<String>) -> (c: Course)
        ensures
            c@ == (CourseView {
                course_id: course_id@,
                course_name: course_name@,
                prereqs: prereqs.deep_view(),
            }),
    {
        Course { course_id, course_name, prereqs }
    }

    /// The identifier, as it was written when the record was made.
    pub fn course_id(&self) -> (r: &str)
        ensures
            r@ == self@.course_id,
    {
        self.course_id.as_str()
    }

    /// The name of the course.
    pub fn course_name(&self) -> (r: &str)
        ensures
            r@ == self@.course_name,
    {
        self.course_name.as_str()
    }

    /// The identifiers of the prerequisites, in the order given.
    pub fn prereqs(&self) -> (r: &Vec<String>)
        ensures
            r.deep_view() == self@.prereqs,
    {
        &self.prereqs
    }
}

} // verus!

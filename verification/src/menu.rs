//! The choices of the menu.

use vstd::prelude::*;
use vstd::string::*;
use crate::text::{trim, trimmed};

verus! {

/// What the user asks for.
#[derive(Clone, Copy, PartialEq, Eq, Debug, Structural)]
pub enum MenuChoice {
    /// Load the courses.
    Load,
    /// Show all courses in order.
    List,
    /// Show one course.
    Find,
    /// Leave.
    Exit,
    /// Anything else.
    Invalid,
}

/// The choice that a line of input stands for, white space at its ends
/// aside: `1` loads, `2` lists, `3` finds, `9` leaves.
pub open spec fn choice_of(input: Seq<char>) -> MenuChoice {
    let word = trimmed(input);
    if word == "1"@ {
        MenuChoice::Load
    } else if word == "2"@ {
        MenuChoice::List
    } else if word == "3"@ {
        MenuChoice::Find
    } else if word == "9"@ {
        MenuChoice::Exit
    } else {
        MenuChoice::Invalid
    }
}

/// Reads the user's choice from a line of input.
pub fn read_choice(input: &str) -> (choice: MenuChoice)
    ensures
        choice == choice_of(input@),
{
    let word = trim(input);
    if word == String::from_str("1") {
        MenuChoice::Load
    } else if word == String::from_str("2") {
        MenuChoice::List
    } else if word == String::from_str("3") {
        MenuChoice::Find
    } else if word == String::from_str("9") {
        MenuChoice::Exit
    } else {
        MenuChoice::Invalid
    }
}

} // verus!

//! An ordered index of course records, kept as a height-balanced binary
//! search tree. Records are found by their identifier without regard to
//! letter case, and are enumerated in ascending order of that identifier.

pub mod key;
pub mod text;
pub mod course;
pub mod node;
pub mod tree;
pub mod loader;
pub mod report;
pub mod menu;
mod balance;
mod insert;
mod remove;
pub mod bound;
pub mod listing;
pub mod laws;

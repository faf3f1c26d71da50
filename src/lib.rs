//! Tracks ownership, moves, clones, borrows and scopes over a trace of
//! operations, and reports every violation of the ownership discipline.
pub mod borrow;
pub mod diagnostic;
pub mod driver;
pub mod laws;
pub mod resource;
pub mod samples;
pub mod scope;

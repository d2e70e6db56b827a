//! The invariants of the search for strongly connected components, and
//! the order in which the search lists them.

pub mod descent;
pub mod finish;
pub mod harvest;
pub mod search;

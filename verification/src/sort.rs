//! The invariants of the topological sort.

pub mod fifo;
pub mod sweep;

//! Directed graphs over the vertices `0..n`: construction, topological
//! sorting in first-come-first-served order, and the strongly connected
//! components that hold a cycle, each with a proved contract.
//!
//! `graph` holds the data structure and its queries, `model` the
//! mathematical graph that the contracts speak of, `sort` and `components`
//! the invariants of the two algorithms, and `laws` what follows from the
//! contracts.

pub mod components;
pub mod graph;
pub mod laws;
pub mod model;
pub mod sort;

//! The mathematical graph: edge lists, walks, cycles, and what editing a
//! graph does to them.

pub mod counting;
pub mod cycles;
pub mod edits;
pub mod paths;
pub mod topology;

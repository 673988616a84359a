//! Graphs over string identifiers, with breadth-first and depth-first
//! traversal orders proved against a mathematical model.

pub mod analysis;
pub mod graph;
pub mod model;
pub mod reachability;
pub mod seqs;
pub mod traversal;

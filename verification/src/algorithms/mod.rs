//! Graph algorithms.

pub mod adjacency;
pub mod communities;
pub mod queries;
pub mod refinement;

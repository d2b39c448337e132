//! Indexes over the columns of segments.

pub mod arrow_ipc;
pub mod csr_graph;
pub mod gpu;
pub mod nvrtc;

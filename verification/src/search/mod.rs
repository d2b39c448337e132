//! The search server: its settings, its open tables, and the requests that it
//! answers.

pub mod aggs;
pub mod meaning;
pub mod qdrant;
pub mod qdrant_types;
pub mod results;
pub mod sql;
pub mod state;

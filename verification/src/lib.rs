//! Core logic of a streaming table engine with vector, graph and search indexes.

use vstd::prelude::*;

pub mod fault_injection;
pub mod algorithms;
pub mod avro;
pub mod avro_schema;
pub mod bitmap;
pub mod catalog;
pub mod cli;
pub mod commit;
pub mod iceberg;
pub mod index;
pub mod json;
pub mod le;
pub mod manifest;
pub mod memory;
pub mod merge;
pub mod order;
pub mod reader;
pub mod resources;
pub mod search;
pub mod segment;
pub mod store;
pub mod text;
pub mod textmap;
pub mod vacuum;
pub mod wikipedia;

verus! {

} // verus!

//! Iceberg metadata: manifest lists, manifests and delete files.

pub mod delete;
pub mod writer;

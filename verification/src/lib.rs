//! An in-memory index of typed, directed links between entities named by
//! opaque strings. It answers two structural queries: which entities point at
//! a given one, and which entities can be reached from a given one within a
//! bounded number of hops.

pub mod error;
pub mod graph;
pub mod model;
pub mod names;
pub mod store;
pub mod table;
pub mod text;

pub use error::GraphError;
pub use graph::GraphIndex;

//! Shortest paths over a graph of table rows: two rows are joined by a
//! zero-length edge whenever they agree on one of two key fields.

pub mod bounds;
pub mod builder;
pub mod engine;
pub mod error;
pub mod frontier;
pub mod graph;
pub mod paths;
pub mod records;

pub use builder::build;
pub use engine::{dijkstra, shortest_paths};
pub use error::GraphError;
pub use frontier::{entry_le, Entry, Frontier};
pub use graph::{AdjacencyList, Distance, Edge, Graph, Outedge, Vertex};

//! A relationship-based access-control graph: typed nodes joined by typed,
//! directed edges, with a breadth-first reachability query.

mod fifo;
pub mod graph;
pub mod laws;

pub use graph::{Graph, Node, NodeType, RelationType, Status};

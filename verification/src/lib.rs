//! An in-memory directed graph with deduplicating insertion, swap-with-last
//! node removal, breadth-first distance, shortest-path reconstruction and
//! boundary (sink) detection. Nodes and edges are identified by their
//! position in two flat sequences; removal reuses the freed index.

pub mod node;
pub mod graph;
pub mod bfs;
pub mod paths;

pub use node::DataTypes;
pub use node::Node;
pub use node::NodeModel;
pub use graph::Edge;
pub use graph::Graph;

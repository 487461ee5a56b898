//! Steady-state circuit engine over a dynamically editable graph of
//! two-terminal elements.
//!
//! The engine keeps a signed-incidence graph of the network, maintains a
//! spanning forest per connected component, and derives the fundamental-cycle
//! (loop) matrix whenever the topology changes. A numeric front end reads that
//! matrix each tick to run the mesh-analysis solve; everything structural is
//! verified here.

pub mod circuit;
pub mod element;

mod bfs;
mod graph;
mod matrix;
mod spanning_forest;

pub use bfs::bfs_nodes_as_undirected;
pub use graph::CircuitGraph;
pub use matrix::MatrixGraph;
pub use matrix::NodeIndex;
pub use spanning_forest::SpanningForest;
pub use circuit::Circuit;
pub use circuit::CircuitElement;
pub use circuit::CircuitError;
pub use circuit::ElementId;
pub use circuit::Hovered;
pub use element::ElementPos;
pub use element::ElementType;
pub use element::Wire;

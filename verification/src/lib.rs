//! Exact tree decompositions of undirected graphs.
//!
//! The crate stores a graph as a dense adjacency matrix, enumerates its
//! minimal vertex separators of bounded cardinality, builds witness tree
//! decompositions, and validates them against the decomposition properties.

pub mod decomp;
pub mod graph;
pub mod msg;
pub mod reach;
pub mod topo;
pub mod tree;
pub mod tree_decomposition;
pub mod vertex_set;

pub use graph::Graph;
pub use msg::MinimalSeparatorGenerator;
pub use tree::Tree;
pub use tree::optimal_tree_decomposition;
pub use tree_decomposition::TreeDecomposition;
pub use tree_decomposition::optimal_decomposition;
pub use vertex_set::VertexSet;

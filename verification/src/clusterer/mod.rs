//! Clusterers that group chunks by their keys or hashes.

pub mod eq_clusterer;
pub mod graph_clusterer;

pub use eq_clusterer::EqClusterer;
pub use graph_clusterer::GraphClusterer;

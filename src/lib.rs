// Structural statistics of a directed graph: shortest hop distances (one
// pair by breadth-first search, all pairs by Floyd-Warshall relaxation),
// a sampled average distance, the out-degree histogram, closeness and
// traversal-frequency centrality, and the edge-list reader's line logic.

pub mod agreement;
pub mod centrality;
pub mod degree;
pub mod frequency;
pub mod graph;
pub mod loader;
pub mod matrix;
pub mod path;
pub mod sampling;
pub mod summary;

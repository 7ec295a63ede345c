//! An adjacency store that keeps a compacted base neighbor list and an
//! append-only delta log for every vertex, and whole-graph analytics
//! (breadth-first search, strongly and weakly connected components) that run
//! over the resolved adjacency.
pub mod types;
pub mod fxset;
pub mod resolve;
pub mod graph;
pub mod scc;
mod tarjan;
pub mod connectivity;
pub mod wcc;
pub mod bfs;
pub mod handle;
pub mod binding;

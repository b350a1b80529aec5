//! Finds an optimal and readable diff between two syntax trees, as a shortest
//! route through the graph of the ways to match them up.

pub mod arena;
pub mod best_first;
pub mod changes;
pub mod distances;
pub mod estimate;
pub mod fringe;
pub mod graph;
pub mod heap;
pub mod laws;
pub mod listing;
pub mod mark;
pub mod paths;
pub mod predecessors;
pub mod route;
pub mod search;
pub mod syntax;

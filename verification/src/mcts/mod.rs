//! The search: positions as nodes of a graph, and the tree that grows it.

pub mod descent;
pub mod advance;
pub mod graph;
pub mod grow;
pub mod node;
pub mod policy;
pub mod prune;
pub mod rounds;
pub mod score;
pub mod search;
pub mod tree;
pub mod update;

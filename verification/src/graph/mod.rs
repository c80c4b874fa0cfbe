//! The graph structures.

pub mod ancestry;
pub mod directed_graph;
pub mod export;
pub mod union_find_tree;
pub mod view;

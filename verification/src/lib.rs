//! Directed lineage graphs whose ancestry view is always a forest, and a
//! deterministic union-find structure over the same kind of node index.
//!
//! * [`node`] and [`edge`] say what a node index, a node and an edge have to
//!   offer, and give the plain implementations of them.
//! * [`graph::directed_graph`] is the graph: nodes, strong and weak edges,
//!   and the parent and children indexes that the ancestry queries read.
//!   [`graph::view`] says what it holds and what adding to it changes.
//! * [`graph::union_find_tree`] is the disjoint-set structure.
//! * [`graph::ancestry`] defines what following parent pointers means, for
//!   both of them.
//! * [`graph::export`] defines the GML and DOT text of a graph.
//! * [`collections`] holds the containers underneath: a map kept in key
//!   order, and the hash set of node handles.
//!
//! Every structure has a view, a plain mathematical value, and every
//! function says over the views what it returns and what it changes.

pub mod collections;
pub mod edge;
pub mod error;
pub mod graph;
pub mod node;
pub mod text;

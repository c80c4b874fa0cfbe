//! Containers the graph structures are built from.

pub mod handle_set;
pub mod ordered_key;
pub mod ordered_map;

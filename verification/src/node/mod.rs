//! Nodes of a graph.

pub mod basic_node;
pub mod metadata_node;
pub mod node_index;

use crate::node::node_index::NodeIndex;
use vstd::prelude::*;

verus! {

/// A node: an index, and whatever else the implementor attaches to it.
pub trait Node: core::fmt::Debug + Clone + Eq + Ord + core::hash::Hash + Default {
    type NodeIndex: NodeIndex;

    /// The view of the node's index.
    spec fn key(&self) -> <Self::NodeIndex as View>::V;

    /// The text the node is printed as.
    spec fn caption(&self) -> Seq<char>;

    /// Whether the node is what implicit construction makes for its index.
    spec fn implicit(&self) -> bool;

    /// The node that stands for an index which was never declared: all it
    /// carries besides the index is at its default.
    fn implicit_new(index: &Self::NodeIndex) -> (n: Self)
        ensures
            n.key() == index@,
            n.implicit(),
    ;

    fn index(&self) -> (i: &Self::NodeIndex)
        ensures
            i@ == self.key(),
    ;

    /// An independent copy of this node.
    fn duplicate(&self) -> (n: Self)
        ensures
            n == *self,
    ;

    fn to_text(&self) -> (s: String)
        ensures
            s@ == self.caption(),
    ;
}

} // verus!

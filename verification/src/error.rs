//! What a graph query can fail with.

use crate::node::Node;
use vstd::prelude::*;

verus! {

#[derive(Debug, PartialEq, Eq)]
pub enum GraphError<TNode: Node> {
    /// The graph holds no node with this index.
    NodeNotExists(TNode::NodeIndex),
    /// Writing the graph out failed; the text says how.
    IoError(String),
}

} // verus!

//! A node that is nothing but its index.

use crate::collections::ordered_key::OrderedKey;
use crate::node::node_index::NodeIndex;
use crate::node::Node;
use vstd::prelude::*;

verus! {

#[derive(Debug, Clone, PartialEq, Eq, PartialOrd, Ord, Hash, Default)]
pub struct BasicNode<T: NodeIndex> {
    index: T,
}

impl<T: NodeIndex> Node for BasicNode<T> {
    type NodeIndex = T;

    closed spec fn key(&self) -> T::V {
        self.index@
    }

    closed spec fn caption(&self) -> Seq<char> {
        T::caption(self.index@)
    }

    open spec fn implicit(&self) -> bool {
        true
    }

    fn implicit_new(index: &Self::NodeIndex) -> (n: Self) {
        Self::new(index)
    }

    fn index(&self) -> (i: &Self::NodeIndex) {
        &self.index
    }

    fn duplicate(&self) -> (n: Self) {
        BasicNode { index: self.index.duplicate() }
    }

    fn to_text(&self) -> (s: String) {
        self.index.to_text()
    }
}

impl<T: NodeIndex> BasicNode<T> {
    /// A node with a copy of this index.
    pub fn new(index: &T) -> (n: Self)
        ensures
            n.key() == index@,
            n.caption() == T::caption(index@),
    {
        Self { index: index.duplicate() }
    }
}

} // verus!

//! A node that carries a piece of metadata beside its index.

use crate::collections::ordered_key::OrderedKey;
use crate::node::node_index::NodeIndex;
use crate::node::Node;
use vstd::prelude::*;
use vstd::string::StringExecFns;

verus! {

#[derive(Debug, Clone, PartialEq, Eq, PartialOrd, Ord, Hash, Default)]
pub struct MetadataNode<T: NodeIndex, TMetadata: NodeIndex> {
    index: T,
    metadata: TMetadata,
}

impl<T: NodeIndex, TMetadata: NodeIndex> MetadataNode<T, TMetadata> {
    /// The view of the metadata.
    pub closed spec fn metadata_key(&self) -> TMetadata::V {
        self.metadata@
    }

    /// A node with copies of this index and this metadata.
    pub fn new(index: &T, metadata: &TMetadata) -> (n: Self)
        ensures
            n.key() == index@,
            n.metadata_key() == metadata@,
    {
        Self { index: index.duplicate(), metadata: metadata.duplicate() }
    }

    /// The metadata the node carries.
    pub fn metadata(&self) -> (m: &TMetadata)
        ensures
            m@ == self.metadata_key(),
    {
        &self.metadata
    }
}

impl<T: NodeIndex, TMetadata: NodeIndex> Node for MetadataNode<T, TMetadata> {
    type NodeIndex = T;

    closed spec fn key(&self) -> T::V {
        self.index@
    }

    /// The metadata, a blank, and the index in round brackets.
    open spec fn caption(&self) -> Seq<char> {
        TMetadata::caption(self.metadata_key()) + " ("@ + T::caption(self.key()) + ")"@
    }

    open spec fn implicit(&self) -> bool {
        self.metadata_key() == TMetadata::default_key()
    }

    fn implicit_new(index: &Self::NodeIndex) -> (n: Self) {
        let metadata = TMetadata::default_index();
        Self { index: index.duplicate(), metadata }
    }

    fn index(&self) -> (i: &Self::NodeIndex) {
        &self.index
    }

    fn duplicate(&self) -> (n: Self) {
        MetadataNode { index: self.index.duplicate(), metadata: self.metadata.duplicate() }
    }

    fn to_text(&self) -> (s: String) {
        let mut s = self.metadata.to_text();
        s.append(" (");
        let index = self.index.to_text();
        s.append(index.as_str());
        s.append(")");
        s
    }
}

} // verus!

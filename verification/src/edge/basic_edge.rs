//! An edge that is its two endpoints and a label.

use crate::collections::ordered_key::OrderedKey;
use crate::edge::Edge;
use crate::node::Node;
use vstd::prelude::*;

verus! {

#[derive(Debug, Clone, PartialEq, Eq, PartialOrd, Ord, Hash, Default)]
pub struct BasicEdge<T: Node> {
    parent: <T as Node>::NodeIndex,
    child: <T as Node>::NodeIndex,
    label: String,
}

impl<T: Node> BasicEdge<T> {
    /// An edge from `parent` to `child` with this label.
    pub fn new(
        parent: &<T as Node>::NodeIndex,
        child: &<T as Node>::NodeIndex,
        label: String,
    ) -> (e: Self)
        ensures
            e.parent_key() == parent@,
            e.child_key() == child@,
            e.label_text() == label@,
    {
        Self { parent: parent.duplicate(), child: child.duplicate(), label }
    }
}

impl<T: Node> Edge for BasicEdge<T> {
    type Node = T;

    closed spec fn parent_key(&self) -> <<T as Node>::NodeIndex as View>::V {
        self.parent@
    }

    closed spec fn child_key(&self) -> <<T as Node>::NodeIndex as View>::V {
        self.child@
    }

    closed spec fn label_text(&self) -> Seq<char> {
        self.label@
    }

    fn parent(&self) -> (p: &<Self::Node as Node>::NodeIndex) {
        &self.parent
    }

    fn child(&self) -> (c: &<Self::Node as Node>::NodeIndex) {
        &self.child
    }

    fn label(&self) -> (l: &String) {
        &self.label
    }

    fn duplicate(&self) -> (e: Self) {
        BasicEdge {
            parent: self.parent.duplicate(),
            child: self.child.duplicate(),
            label: self.label.clone(),
        }
    }
}

} // verus!

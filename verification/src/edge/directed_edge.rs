//! The key under which a graph stores an edge: its two endpoints, without the
//! label.

use crate::collections::ordered_key::OrderedKey;
use crate::edge::Edge;
use crate::node::Node;
use vstd::prelude::*;

verus! {

#[derive(Debug, Clone, PartialEq, Eq, PartialOrd, Ord, Hash)]
pub struct DirectedEdge<TEdge: Edge> {
    parent: <TEdge::Node as Node>::NodeIndex,
    child: <TEdge::Node as Node>::NodeIndex,
}

impl<TEdge: Edge> View for DirectedEdge<TEdge> {
    type V = (
        <<TEdge::Node as Node>::NodeIndex as View>::V,
        <<TEdge::Node as Node>::NodeIndex as View>::V,
    );

    closed spec fn view(&self) -> Self::V {
        (self.parent@, self.child@)
    }
}

impl<TEdge: Edge> DirectedEdge<TEdge> {
    /// The key of an edge from `parent` to `child`.
    pub fn new(
        parent: &<TEdge::Node as Node>::NodeIndex,
        child: &<TEdge::Node as Node>::NodeIndex,
    ) -> (key: Self)
        ensures
            key@ == (parent@, child@),
    {
        Self { parent: parent.duplicate(), child: child.duplicate() }
    }

    /// The key of `edge`.
    pub fn from(edge: &TEdge) -> (key: Self)
        ensures
            key@ == (edge.parent_key(), edge.child_key()),
    {
        Self { parent: edge.parent().duplicate(), child: edge.child().duplicate() }
    }

    pub fn parent(&self) -> (p: &<TEdge::Node as Node>::NodeIndex)
        ensures
            p@ == self@.0,
    {
        &self.parent
    }

    pub fn child(&self) -> (c: &<TEdge::Node as Node>::NodeIndex)
        ensures
            c@ == self@.1,
    {
        &self.child
    }
}

/// Edge keys are ordered by parent first and by child second.
impl<TEdge: Edge> OrderedKey for DirectedEdge<TEdge> {
    open spec fn key_lt(a: Self::V, b: Self::V) -> bool {
        ||| <TEdge::Node as Node>::NodeIndex::key_lt(a.0, b.0)
        ||| a.0 == b.0 && <TEdge::Node as Node>::NodeIndex::key_lt(a.1, b.1)
    }

    proof fn lemma_irreflexive(a: Self::V) {
        <TEdge::Node as Node>::NodeIndex::lemma_irreflexive(a.0);
        <TEdge::Node as Node>::NodeIndex::lemma_irreflexive(a.1);
    }

    proof fn lemma_transitive(a: Self::V, b: Self::V, c: Self::V) {
        <TEdge::Node as Node>::NodeIndex::lemma_irreflexive(b.0);
        if a.0 == b.0 && b.0 == c.0 {
            <TEdge::Node as Node>::NodeIndex::lemma_transitive(a.1, b.1, c.1);
        } else if a.0 != b.0 && b.0 != c.0 {
            <TEdge::Node as Node>::NodeIndex::lemma_transitive(a.0, b.0, c.0);
        }
    }

    proof fn lemma_connected(a: Self::V, b: Self::V) {
        <TEdge::Node as Node>::NodeIndex::lemma_connected(a.0, b.0);
        <TEdge::Node as Node>::NodeIndex::lemma_connected(a.1, b.1);
    }

    fn same(&self, other: &Self) -> (r: bool) {
        self.parent.same(&other.parent) && self.child.same(&other.child)
    }

    fn before(&self, other: &Self) -> (r: bool) {
        self.parent.before(&other.parent) || (self.parent.same(&other.parent)
            && self.child.before(&other.child))
    }

    fn duplicate(&self) -> (r: Self) {
        DirectedEdge { parent: self.parent.duplicate(), child: self.child.duplicate() }
    }
}

} // verus!

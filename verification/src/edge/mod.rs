//! Edges of a graph.

pub mod basic_edge;
pub mod directed_edge;

use crate::node::Node;
use vstd::prelude::*;

verus! {

/// The index type of the nodes that edges of type `E` join.
pub type IndexOf<E> = <<E as Edge>::Node as Node>::NodeIndex;

/// The view of such an index: what identifies a node in contracts.
pub type KeyOf<E> = <<<E as Edge>::Node as Node>::NodeIndex as View>::V;

/// An edge from a parent node to a child node, with a label.
pub trait Edge: core::fmt::Debug + Clone + Eq + Ord + Default {
    type Node: Node;

    spec fn parent_key(&self) -> <<Self::Node as Node>::NodeIndex as View>::V;

    spec fn child_key(&self) -> <<Self::Node as Node>::NodeIndex as View>::V;

    spec fn label_text(&self) -> Seq<char>;

    fn parent(&self) -> (p: &<Self::Node as Node>::NodeIndex)
        ensures
            p@ == self.parent_key(),
    ;

    fn child(&self) -> (c: &<Self::Node as Node>::NodeIndex)
        ensures
            c@ == self.child_key(),
    ;

    fn label(&self) -> (l: &String)
        ensures
            l@ == self.label_text(),
    ;

    /// An independent copy of this edge.
    fn duplicate(&self) -> (e: Self)
        ensures
            e == *self,
    ;
}

} // verus!

//! What a graph holds, and what adding to it changes, as plain mathematics.

use crate::edge::{Edge, KeyOf};
use crate::graph::ancestry::{
    acyclic, lemma_hops, lemma_settles, lemma_walk_stable, rank, reaches, root, settles, walk,
};
use crate::node::Node;
use vstd::prelude::*;

verus! {

/// What a graph holds, as plain maps and sets over the views of the indices.
#[verifier::ext_equal]
pub struct GraphView<TEdge: Edge> {
    pub name: Seq<char>,
    /// Whether the graph keeps the children and parent indexes at all.
    pub indexed: bool,
    /// Whether a node that has a parent may get another one.
    pub allow_reparent: bool,
    /// The nodes by index.
    pub nodes: Map<KeyOf<TEdge>, TEdge::Node>,
    /// The strong edges by parent and child.
    pub edges: Map<(KeyOf<TEdge>, KeyOf<TEdge>), TEdge>,
    /// The weak edges by parent and child.
    pub weak_edges: Map<(KeyOf<TEdge>, KeyOf<TEdge>), TEdge>,
    /// For every node the children that strong edges give it.
    pub children: Map<KeyOf<TEdge>, Set<KeyOf<TEdge>>>,
    /// For every node but the roots the parent it had last.
    pub parent: Map<KeyOf<TEdge>, KeyOf<TEdge>>,
}

impl<TEdge: Edge> GraphView<TEdge> {
    /// Every walk up the parent pointers ends at a root within as many steps
    /// as there are nodes.
    pub open spec fn is_forest(self) -> bool {
        forall|k: KeyOf<TEdge>| #[trigger] settles(self.parent, k, self.nodes.len())
    }

    /// Every edge is stored under its own endpoints, and both are nodes.
    pub open spec fn edges_closed(self, edges: Map<(KeyOf<TEdge>, KeyOf<TEdge>), TEdge>) -> bool {
        forall|p: KeyOf<TEdge>, c: KeyOf<TEdge>| #[trigger]
            edges.contains_key((p, c)) ==> {
                &&& self.nodes.contains_key(p)
                &&& self.nodes.contains_key(c)
                &&& edges[(p, c)].parent_key() == p
                &&& edges[(p, c)].child_key() == c
            }
    }

    /// What holds of every graph, whatever was added to it and in what order.
    pub open spec fn well_formed(self) -> bool {
        &&& self.nodes.dom().finite()
        &&& forall|k: KeyOf<TEdge>|
            self.nodes.contains_key(k) ==> (#[trigger] self.nodes[k]).key() == k
        &&& self.edges_closed(self.edges)
        &&& self.edges_closed(self.weak_edges)
        &&& forall|p: KeyOf<TEdge>, c: KeyOf<TEdge>| #[trigger]
            self.edges.contains_key((p, c)) ==> p != c
        &&& self.children.dom() == if self.indexed {
            self.nodes.dom()
        } else {
            Set::empty()
        }
        &&& !self.indexed ==> self.parent.dom() == Set::<KeyOf<TEdge>>::empty()
        &&& forall|p: KeyOf<TEdge>, c: KeyOf<TEdge>|
            self.children.contains_key(p) ==> (#[trigger] self.children[p].contains(c)
                <==> self.edges.contains_key((p, c)))
        &&& forall|c: KeyOf<TEdge>| #[trigger]
            self.parent.contains_key(c) ==> self.edges.contains_key((self.parent[c], c))
        &&& acyclic(self.parent)
        &&& self.is_forest()
    }

    /// Whether an edge from `p` to `c` has to be weak. It has to where it
    /// joins a node to itself. In a graph that keeps the indexes it also has
    /// to where both nodes are under one root already, and, unless nodes may
    /// change their parent, where `c` has a parent.
    pub open spec fn demotes(self, p: KeyOf<TEdge>, c: KeyOf<TEdge>) -> bool {
        p == c || (self.indexed && (root(self.parent, p) == root(self.parent, c) || (
        !self.allow_reparent && self.parent.contains_key(c))))
    }

    /// The children index once `k` has a node: a new entry is empty, and a
    /// graph that keeps no indexes has no entries.
    pub open spec fn entered(self, k: KeyOf<TEdge>) -> Map<KeyOf<TEdge>, Set<KeyOf<TEdge>>> {
        if self.indexed {
            declared(self.children, k)
        } else {
            self.children
        }
    }

    /// The children index once both `p` and `c` have a node.
    pub open spec fn entered_both(self, p: KeyOf<TEdge>, c: KeyOf<TEdge>) -> Map<
        KeyOf<TEdge>,
        Set<KeyOf<TEdge>>,
    > {
        if self.indexed {
            declared(declared(self.children, p), c)
        } else {
            self.children
        }
    }

    /// The graph once `node` is stored in it.
    pub open spec fn with_node(self, node: TEdge::Node) -> Self {
        GraphView {
            nodes: self.nodes.insert(node.key(), node),
            children: self.entered(node.key()),
            ..self
        }
    }

    /// The graph once `edge` is on record as a weak edge, where `nodes` are
    /// the nodes it has then.
    pub open spec fn with_weak_edge(
        self,
        nodes: Map<KeyOf<TEdge>, TEdge::Node>,
        edge: TEdge,
    ) -> Self {
        GraphView {
            nodes,
            weak_edges: self.weak_edges.insert((edge.parent_key(), edge.child_key()), edge),
            children: self.entered_both(edge.parent_key(), edge.child_key()),
            ..self
        }
    }

    /// The graph once `edge` is a strong edge, where `nodes` are the nodes it
    /// has then: in a graph that keeps the indexes the child end is a child
    /// of the parent end and has it as its parent.
    pub open spec fn with_strong_edge(
        self,
        nodes: Map<KeyOf<TEdge>, TEdge::Node>,
        edge: TEdge,
    ) -> Self {
        let p = edge.parent_key();
        let c = edge.child_key();
        if self.indexed {
            GraphView {
                nodes,
                edges: self.edges.insert((p, c), edge),
                children: linked(self.entered_both(p, c), p, c),
                parent: self.parent.insert(c, p),
                ..self
            }
        } else {
            GraphView { nodes, edges: self.edges.insert((p, c), edge), ..self }
        }
    }

    /// The graph once `edge` is added, where `nodes` are the nodes it has
    /// then.
    pub open spec fn with_edge(self, nodes: Map<KeyOf<TEdge>, TEdge::Node>, edge: TEdge) -> Self {
        if self.demotes(edge.parent_key(), edge.child_key()) {
            self.with_weak_edge(nodes, edge)
        } else {
            self.with_strong_edge(nodes, edge)
        }
    }

    /// Storing a node a second time changes nothing.
    pub proof fn lemma_with_node_twice(self, node: TEdge::Node)
        ensures
            self.with_node(node).with_node(node) == self.with_node(node),
    {
        let once = self.with_node(node);
        assert(once.nodes.insert(node.key(), node) =~= once.nodes);
        assert(once.with_node(node) =~= once);
    }

    /// The node `k` has an entry in the children index, and an empty one.
    pub open spec fn is_leaf(self, k: KeyOf<TEdge>) -> bool {
        self.children.contains_key(k) && forall|c: KeyOf<TEdge>| !self.children[k].contains(c)
    }

    /// The node `k` has no parent.
    pub open spec fn is_root(self, k: KeyOf<TEdge>) -> bool {
        self.nodes.contains_key(k) && !self.parent.contains_key(k)
    }

    /// The nodes without children.
    pub open spec fn leaves(self) -> Set<KeyOf<TEdge>> {
        Set::new(|k: KeyOf<TEdge>| self.is_leaf(k))
    }

    /// The nodes without children that have `top` above them, or are `top`.
    pub open spec fn leaves_under(self, top: KeyOf<TEdge>) -> Set<KeyOf<TEdge>> {
        Set::new(|k: KeyOf<TEdge>| self.is_leaf(k) && reaches(self.parent, k, top))
    }

    /// The nodes without a parent.
    pub open spec fn roots(self) -> Set<KeyOf<TEdge>> {
        Set::new(|k: KeyOf<TEdge>| self.is_root(k))
    }

    /// In a well-formed graph whatever has a parent is a node, and so is the
    /// parent.
    pub proof fn lemma_parents_are_nodes(self)
        requires
            self.well_formed(),
        ensures
            self.parent.dom().subset_of(self.nodes.dom()),
            forall|k: KeyOf<TEdge>|
                self.parent.contains_key(k) ==> self.nodes.contains_key(#[trigger] self.parent[k]),
    {
        assert forall|k: KeyOf<TEdge>| self.parent.contains_key(k) implies self.nodes.contains_key(
            k,
        ) && self.nodes.contains_key(#[trigger] self.parent[k]) by {
            assert(self.edges.contains_key((self.parent[k], k)));
        }
    }

    /// In a well-formed graph the way up from any index ends at a root
    /// within as many steps as there are nodes: the parent pointers never run
    /// in a circle.
    pub proof fn lemma_forest(self, k: KeyOf<TEdge>)
        requires
            self.well_formed(),
        ensures
            settles(self.parent, k, self.nodes.len()),
            !self.parent.contains_key(root(self.parent, k)),
            root(self.parent, k) == walk(self.parent, k, self.nodes.len()),
            rank(self.parent, k) <= self.nodes.len(),
    {
        self.lemma_parents_are_nodes();
        vstd::set_lib::lemma_len_subset(self.parent.dom(), self.nodes.dom());
        lemma_settles(self.parent, k);
        lemma_walk_stable(self.parent, k, self.parent.len(), self.nodes.len());
        lemma_hops(self.parent, k, self.parent.len());
    }

    /// In a well-formed graph no node is its own child or its own parent,
    /// and no strong edge joins a node to itself.
    pub proof fn lemma_no_self_loops(self, k: KeyOf<TEdge>)
        requires
            self.well_formed(),
        ensures
            !self.edges.contains_key((k, k)),
            self.children.contains_key(k) ==> !self.children[k].contains(k),
            self.parent.contains_key(k) ==> self.parent[k] != k,
    {
        if self.parent.contains_key(k) {
            assert(self.edges.contains_key((self.parent[k], k)));
        }
    }
}

/// The children index once `k` has an entry in it: a new entry is empty.
pub open spec fn declared<K>(children: Map<K, Set<K>>, k: K) -> Map<K, Set<K>> {
    if children.contains_key(k) {
        children
    } else {
        children.insert(k, Set::empty())
    }
}

/// The node store once the index `k` has a node: what was there stays, and a
/// node that had to be made for `k` is the implicit one.
pub open spec fn node_declared<N: Node>(
    pre: Map<<N::NodeIndex as View>::V, N>,
    post: Map<<N::NodeIndex as View>::V, N>,
    k: <N::NodeIndex as View>::V,
) -> bool {
    if pre.contains_key(k) {
        post == pre
    } else {
        post == pre.insert(k, post[k]) && post[k].key() == k && post[k].implicit()
    }
}

/// The node store once both ends of an edge have a node.
pub open spec fn endpoints_declared<N: Node>(
    pre: Map<<N::NodeIndex as View>::V, N>,
    post: Map<<N::NodeIndex as View>::V, N>,
    p: <N::NodeIndex as View>::V,
    c: <N::NodeIndex as View>::V,
) -> bool {
    &&& post.dom() == pre.dom().insert(p).insert(c)
    &&& forall|k: <N::NodeIndex as View>::V| pre.contains_key(k) ==> #[trigger] post[k] == pre[k]
    &&& forall|k: <N::NodeIndex as View>::V|
        post.contains_key(k) && !pre.contains_key(k) ==> (#[trigger] post[k]).key() == k
            && post[k].implicit()
}

/// Declaring first the one end and then the other declares both.
pub proof fn lemma_endpoints_declared<N: Node>(
    pre: Map<<N::NodeIndex as View>::V, N>,
    mid: Map<<N::NodeIndex as View>::V, N>,
    post: Map<<N::NodeIndex as View>::V, N>,
    p: <N::NodeIndex as View>::V,
    c: <N::NodeIndex as View>::V,
)
    requires
        node_declared(pre, mid, p),
        node_declared(mid, post, c),
    ensures
        endpoints_declared(pre, post, p, c),
{
    assert(mid.dom() =~= pre.dom().insert(p));
    assert(post.dom() =~= mid.dom().insert(c));
}

/// The children index once `c` is a child of `p`.
pub open spec fn linked<K>(children: Map<K, Set<K>>, p: K, c: K) -> Map<K, Set<K>> {
    children.insert(p, children[p].insert(c))
}

} // verus!

//! A directed graph of parent/child edges whose ancestry view is always a
//! forest.
//!
//! Every edge that is added is kept. An edge that would close a cycle, or
//! that joins a node to itself, is kept as a weak edge: it is on record, but
//! it takes no part in the parent and children indexes that the ancestry
//! queries read.

use crate::collections::handle_set::{handle_set_items, HandleSet};
use crate::collections::ordered_key::{
    canonical, lemma_filter_canonical, lemma_filter_step, views_of, OrderedKey,
};
use crate::collections::ordered_map::OrderedMap;
use crate::edge::directed_edge::DirectedEdge;
use crate::edge::{Edge, IndexOf, KeyOf};
use crate::error::GraphError;
use crate::graph::ancestry::{
    ancestors, lemma_acyclic_insert, lemma_hops, lemma_lineage_index,
    lemma_other_root_never_met, lemma_settles, lemma_walk_last, lemma_walk_stable, on_path, rank,
    reaches, root, settles, walk,
};
use crate::graph::export::{
    dot, dot_edges, dot_nodes, gml, gml_edges, gml_nodes, id_of, write_dot_edge, write_dot_node,
    write_gml_edge, write_gml_head, write_gml_node,
};
use crate::graph::view::{
    endpoints_declared, lemma_endpoints_declared, linked, node_declared, GraphView,
};
use crate::node::Node;
use vstd::prelude::*;
use vstd::string::StringExecFns;

verus! {

/// The graph. Its view is a [`GraphView`].
#[derive(Debug)]
pub struct DirectedGraph<TEdge: Edge> {
    name: String,
    indexed: bool,
    allow_reparent: bool,
    node: OrderedMap<IndexOf<TEdge>, TEdge::Node>,
    edge: OrderedMap<DirectedEdge<TEdge>, TEdge>,
    weak_edge: OrderedMap<DirectedEdge<TEdge>, TEdge>,
    /// The handle of every node: its place in `children`.
    handle: OrderedMap<IndexOf<TEdge>, usize>,
    /// By handle of a node, the handles of its children.
    children: Vec<HandleSet>,
    parent: OrderedMap<IndexOf<TEdge>, IndexOf<TEdge>>,
}

/// The children of the node `k`, read off the handle sets.
spec fn child_set<K>(handle: Map<K, usize>, sets: Seq<HandleSet>, k: K) -> Set<K> {
    Set::new(
        |j: K|
            handle.contains_key(j) && handle_set_items(sets[handle[k] as int]).contains(handle[j]),
    )
}

/// The node that a handle stands for.
spec fn owner<K>(handle: Map<K, usize>, h: usize) -> K {
    choose|k: K| handle.contains_key(k) && handle[k] == h
}

/// Handles and nodes stand one for one, and the sets hold handles only.
spec fn handles_fit<K>(handle: Map<K, usize>, sets: Seq<HandleSet>) -> bool {
    &&& forall|k: K| handle.contains_key(k) ==> (#[trigger] handle[k]) < sets.len()
    &&& forall|j: K, k: K|
        handle.contains_key(j) && handle.contains_key(k) && #[trigger] handle[j]
            == #[trigger] handle[k] ==> j == k
    &&& forall|h: usize|
        h < sets.len() ==> handle.contains_key(#[trigger] owner(handle, h)) && handle[owner(
            handle,
            h,
        )] == h
    &&& forall|i: int, h: usize|
        0 <= i < sets.len() && #[trigger] handle_set_items(sets[i]).contains(h) ==> h
            < sets.len()
}

/// Giving a new node the next handle, with an empty set of children, keeps
/// handles and nodes in step and changes the children of no other node.
proof fn lemma_fresh_handle<K>(handle: Map<K, usize>, sets: Seq<HandleSet>, k: K, set: HandleSet)
    requires
        handles_fit(handle, sets),
        !handle.contains_key(k),
        handle_set_items(set) == Set::<usize>::empty(),
        sets.len() < usize::MAX,
    ensures
        handles_fit(handle.insert(k, sets.len() as usize), sets.push(set)),
        child_set(handle.insert(k, sets.len() as usize), sets.push(set), k) == Set::<K>::empty(),
        forall|p: K|
            handle.contains_key(p) ==> #[trigger] child_set(
                handle.insert(k, sets.len() as usize),
                sets.push(set),
                p,
            ) == child_set(handle, sets, p),
{
    let h = sets.len() as usize;
    let handle2 = handle.insert(k, h);
    let sets2 = sets.push(set);
    assert forall|x: usize| x < sets2.len() implies handle2.contains_key(
        #[trigger] owner(handle2, x),
    ) && handle2[owner(handle2, x)] == x by {
        if x < sets.len() {
            let w = owner(handle, x);
            assert(handle2.contains_key(w) && handle2[w] == x);
        } else {
            assert(handle2.contains_key(k) && handle2[k] == x);
        }
    }
    assert forall|i: int, x: usize|
        0 <= i < sets2.len() && #[trigger] handle_set_items(sets2[i]).contains(x) implies x
        < sets2.len() by {
        if i < sets.len() {
            assert(handle_set_items(sets[i]).contains(x));
        }
    }
    assert(child_set(handle2, sets2, k) =~= Set::<K>::empty());
    assert forall|p: K| handle.contains_key(p) implies #[trigger] child_set(handle2, sets2, p)
        == child_set(handle, sets, p) by {
        assert(sets2[handle2[p] as int] == sets[handle[p] as int]);
        assert forall|j: K| child_set(handle2, sets2, p).contains(j) <==> child_set(
            handle,
            sets,
            p,
        ).contains(j) by {
            if j == k {
                if handle_set_items(sets[handle[p] as int]).contains(h) {
                    assert(h < sets.len());
                }
            }
        }
        assert(child_set(handle2, sets2, p) =~= child_set(handle, sets, p));
    }
}

/// Putting the handle of `c` into the set of `p` makes `c` a child of `p`
/// and changes the children of no other node.
proof fn lemma_child_added<K>(
    handle: Map<K, usize>,
    sets: Seq<HandleSet>,
    sets2: Seq<HandleSet>,
    p: K,
    c: K,
)
    requires
        handles_fit(handle, sets),
        handle.contains_key(p),
        handle.contains_key(c),
        sets2 == sets.update(handle[p] as int, sets2[handle[p] as int]),
        handle_set_items(sets2[handle[p] as int]) == handle_set_items(
            sets[handle[p] as int],
        ).insert(handle[c]),
    ensures
        handles_fit(handle, sets2),
        child_set(handle, sets2, p) == child_set(handle, sets, p).insert(c),
        forall|q: K|
            handle.contains_key(q) && q != p ==> #[trigger] child_set(handle, sets2, q)
                == child_set(handle, sets, q),
{
    let hp = handle[p] as int;
    assert forall|i: int, x: usize|
        0 <= i < sets2.len() && #[trigger] handle_set_items(sets2[i]).contains(x) implies x
        < sets2.len() by {
        if i != hp {
            assert(handle_set_items(sets[i]).contains(x));
        } else if x != handle[c] {
            assert(handle_set_items(sets[i]).contains(x));
        }
    }
    assert forall|x: usize| x < sets2.len() implies handle.contains_key(
        #[trigger] owner(handle, x),
    ) && handle[owner(handle, x)] == x by {
        assert(x < sets.len());
    }
    assert(child_set(handle, sets2, p) =~= child_set(handle, sets, p).insert(c));
    assert forall|q: K| handle.contains_key(q) && q != p implies #[trigger] child_set(
        handle,
        sets2,
        q,
    ) == child_set(handle, sets, q) by {
        assert(handle[q] != handle[p]);
        assert(sets2[handle[q] as int] == sets[handle[q] as int]);
        assert(child_set(handle, sets2, q) =~= child_set(handle, sets, q));
    }
}

impl<TEdge: Edge> View for DirectedGraph<TEdge> {
    type V = GraphView<TEdge>;

    closed spec fn view(&self) -> GraphView<TEdge> {
        GraphView {
            name: self.name@,
            indexed: self.indexed,
            allow_reparent: self.allow_reparent,
            nodes: self.node@,
            edges: self.edge@,
            weak_edges: self.weak_edge@,
            children: Map::new(
                |k: KeyOf<TEdge>| self.handle@.contains_key(k),
                |k: KeyOf<TEdge>| child_set(self.handle@, self.children@, k),
            ),
            parent: self.parent@.map_values(|i: IndexOf<TEdge>| i@),
        }
    }
}

impl<TEdge: Edge> DirectedGraph<TEdge> {
    /// The maps are in order, the handles fit, and the view is well formed.
    pub closed spec fn wf(&self) -> bool {
        &&& self.node.wf()
        &&& self.edge.wf()
        &&& self.weak_edge.wf()
        &&& self.handle.wf()
        &&& self.parent.wf()
        &&& self.handle@.dom() == if self.indexed {
            self.node@.dom()
        } else {
            Set::empty()
        }
        &&& handles_fit(self.handle@, self.children@)
        &&& self@.well_formed()
    }

    /// A well-formed graph has a well-formed view.
    pub proof fn lemma_wf(&self)
        requires
            self.wf(),
        ensures
            self@.well_formed(),
    {
    }

    /// An empty graph that keeps the indexes and lets nodes change their
    /// parent.
    pub fn new(name: String) -> (graph: Self)
        ensures
            graph.wf(),
            graph@ == (GraphView::<TEdge> {
                name: name@,
                indexed: true,
                allow_reparent: true,
                nodes: Map::empty(),
                edges: Map::empty(),
                weak_edges: Map::empty(),
                children: Map::empty(),
                parent: Map::empty(),
            }),
    {
        Self::with_policy(name, true, true)
    }

    /// An empty graph. With `with_ancestry_index` the graph keeps the
    /// children and parent indexes, and keeps out of them every edge that
    /// would close a cycle; without it, it keeps the nodes and the edges
    /// only. With `allow_reparent` a strong edge to a node that has a parent
    /// gives it the new one; without it, such an edge is a weak edge.
    pub fn with_policy(name: String, with_ancestry_index: bool, allow_reparent: bool) -> (graph:
        Self)
        ensures
            graph.wf(),
            graph@ == (GraphView::<TEdge> {
                name: name@,
                indexed: with_ancestry_index,
                allow_reparent: allow_reparent,
                nodes: Map::empty(),
                edges: Map::empty(),
                weak_edges: Map::empty(),
                children: Map::empty(),
                parent: Map::empty(),
            }),
    {
        let graph = Self {
            name,
            indexed: with_ancestry_index,
            allow_reparent,
            node: OrderedMap::new(),
            edge: OrderedMap::new(),
            weak_edge: OrderedMap::new(),
            handle: OrderedMap::new(),
            children: Vec::new(),
            parent: OrderedMap::new(),
        };
        proof {
            assert(graph@.children =~= Map::empty());
            assert(graph@.parent =~= Map::empty());
            assert(graph@.nodes.dom() =~= Set::empty());
            assert(graph@.children.dom() =~= Set::empty());
            assert(graph@.parent.dom() =~= Set::empty());
        }
        graph
    }

    /// Stores `node` under its index, in place of the node that was stored
    /// under that index before, if there was one. A node that is new to the
    /// graph starts without children.
    pub fn add_node(&mut self, node: &TEdge::Node)
        requires
            old(self).wf(),
        ensures
            final(self).wf(),
            final(self)@ == old(self)@.with_node(*node),
    {
        let ghost before = *self;
        let ghost key = node.key();
        let known = !self.indexed || self.handle.contains_key(node.index());
        if !known {
            let h = self.children.len();
            let set = HandleSet::new();
            self.children.push(set);
            proof {
                assert(self.children.len() == self.children@.len());
                lemma_fresh_handle(before.handle@, before.children@, key, set);
            }
            self.handle.insert(node.index().duplicate(), h);
        }
        self.node.insert(node.index().duplicate(), node.duplicate());
        proof {
            let pre = before@;
            let post = self@;
            assert(post.nodes == pre.nodes.insert(key, *node));
            if self.indexed {
                assert(self.handle@.dom() =~= self.node@.dom());
            }
            assert(post.children =~= pre.entered(key)) by {
                assert forall|k: KeyOf<TEdge>|
                    post.children.contains_key(k) implies #[trigger] post.children[k]
                    == pre.entered(key)[k] by {
                    if known {
                    } else if k == key {
                    } else {
                        assert(before.handle@.contains_key(k));
                    }
                }
            }
            assert(post.parent == pre.parent);
            assert(post.nodes.len() >= pre.nodes.len()) by {
                if pre.nodes.contains_key(key) {
                    assert(pre.nodes.insert(key, *node).dom() =~= pre.nodes.dom());
                }
            }
            assert forall|k: KeyOf<TEdge>| #[trigger]
                settles(post.parent, k, post.nodes.len()) by {
                assert(settles(pre.parent, k, pre.nodes.len()));
                lemma_walk_stable(pre.parent, k, pre.nodes.len(), post.nodes.len());
            }
            assert forall|p: KeyOf<TEdge>, c: KeyOf<TEdge>|
                post.children.contains_key(p) implies (#[trigger] post.children[p].contains(c)
                <==> post.edges.contains_key((p, c))) by {
                if pre.children.contains_key(p) {
                    assert(pre.children[p].contains(c) <==> pre.edges.contains_key((p, c)));
                } else {
                    assert(!pre.edges.contains_key((p, c)));
                }
            }
            assert(post.well_formed());
            assert(post =~= pre.with_node(*node));
        }
    }

    /// The parent pointers of the view are the stored ones.
    spec fn parent_shown(&self) -> bool {
        &&& self@.parent.dom() == self.parent@.dom()
        &&& forall|k: KeyOf<TEdge>|
            self.parent@.contains_key(k) ==> #[trigger] self@.parent[k] == self.parent@[k]@
    }

    /// What the stored parent pointers say, in terms of the view.
    proof fn lemma_parent(&self)
        requires
            self.wf(),
        ensures
            self.parent_shown(),
            self@.parent.dom() == self.parent@.dom(),
            self@.parent.dom().finite(),
            self@.parent.len() == self.parent@.len(),
            self@.parent.len() <= self@.nodes.len(),
            forall|k: KeyOf<TEdge>| #[trigger] settles(self@.parent, k, self@.parent.len()),
    {
        let view = self@;
        self.parent.lemma_ordered_keys();
        assert(view.parent.dom() =~= self.parent@.dom());
        assert forall|k: KeyOf<TEdge>| #[trigger] settles(view.parent, k, view.parent.len()) by {
            lemma_settles(view.parent, k);
        }
        assert(view.parent.len() <= view.nodes.len()) by {
            view.lemma_parents_are_nodes();
            vstd::set_lib::lemma_len_subset(view.parent.dom(), view.nodes.dom());
        }
    }

    /// The node stored under the index `node`, if there is one.
    pub fn get_node(&self, node: &IndexOf<TEdge>) -> (r: Option<&TEdge::Node>)
        requires
            self.wf(),
        ensures
            match r {
                Some(n) => self@.nodes.contains_key(node@) && *n == self@.nodes[node@],
                None => !self@.nodes.contains_key(node@),
            },
    {
        self.node.get(node)
    }

    /// The strong edge from the one end of `arrow` to the other, if there is one.
    pub fn get_edge(&self, arrow: &DirectedEdge<TEdge>) -> (r: Option<&TEdge>)
        requires
            self.wf(),
        ensures
            match r {
                Some(e) => self@.edges.contains_key(arrow@) && *e == self@.edges[arrow@],
                None => !self@.edges.contains_key(arrow@),
            },
    {
        self.edge.get(arrow)
    }

    /// The weak edge from the one end of `arrow` to the other, if there is one.
    pub fn get_weak_edge(&self, arrow: &DirectedEdge<TEdge>) -> (r: Option<&TEdge>)
        requires
            self.wf(),
        ensures
            match r {
                Some(e) => self@.weak_edges.contains_key(arrow@) && *e == self@.weak_edges[arrow@],
                None => !self@.weak_edges.contains_key(arrow@),
            },
    {
        self.weak_edge.get(arrow)
    }

    /// The parent of `child`; a root, and an index that the graph does not
    /// know, has none.
    pub fn parent_of(&self, child: &IndexOf<TEdge>) -> (r: Option<&IndexOf<TEdge>>)
        requires
            self.wf(),
        ensures
            match r {
                Some(p) => self@.parent.contains_key(child@) && p@ == self@.parent[child@],
                None => !self@.parent.contains_key(child@),
            },
    {
        proof {
            self.lemma_parent();
        }
        self.parent.get(child)
    }

    /// The root above `node`.
    pub fn root_of<'a>(&'a self, node: &'a IndexOf<TEdge>) -> (r: Result<
        &'a IndexOf<TEdge>,
        GraphError<TEdge::Node>,
    >)
        requires
            self.wf(),
        ensures
            match r {
                Ok(top) => self@.nodes.contains_key(node@) && top@ == root(self@.parent, node@)
                    && !self@.parent.contains_key(top@),
                Err(e) => !self@.nodes.contains_key(node@) && e == GraphError::<
                    TEdge::Node,
                >::NodeNotExists(*node),
            },
    {
        if !self.node.contains_key(node) {
            return Err(GraphError::NodeNotExists(node.duplicate()));
        }
        let mut cur: &IndexOf<TEdge> = node;
        let ghost mut i: nat = 0;
        proof {
            self.lemma_parent();
        }
        loop
            invariant
                self.wf(),
                self.parent_shown(),
                cur@ == walk(self@.parent, node@, i),
                i <= self@.parent.len(),
                settles(self@.parent, node@, self@.parent.len()),
                self@.nodes.contains_key(node@),
            decreases self@.parent.len() - i,
        {
            match self.parent.get(cur) {
                None => {
                    proof {
                        lemma_walk_stable(self@.parent, node@, i, self@.parent.len());
                    }
                    return Ok(cur);
                },
                Some(up) => {
                    proof {
                        lemma_walk_last(self@.parent, node@, i);
                        i = i + 1;
                    }
                    cur = up;
                },
            }
        }
    }

    /// Makes sure that `index` has a node: one that is missing is made
    /// implicitly.
    fn declare(&mut self, index: &IndexOf<TEdge>)
        requires
            old(self).wf(),
        ensures
            final(self).wf(),
            node_declared(old(self)@.nodes, final(self)@.nodes, index@),
            final(self)@.nodes.contains_key(index@),
            final(self)@ == (GraphView::<TEdge> {
                nodes: final(self)@.nodes,
                children: old(self)@.entered(index@),
                ..old(self)@
            }),
    {
        if self.get_node(index).is_none() {
            let node = TEdge::Node::implicit_new(index);
            self.add_node(&node);
        } else {
            proof {
                assert(self@ =~= (GraphView::<TEdge> {
                    nodes: self@.nodes,
                    children: self@.entered(index@),
                    ..self@
                }));
            }
        }
    }

    /// Puts `edge` on record as a weak edge, in place of the weak edge
    /// between the same two nodes, if there was one. An end of the edge that
    /// has no node yet gets an implicit one.
    pub fn add_weak_edge(&mut self, edge: &TEdge)
        requires
            old(self).wf(),
        ensures
            final(self).wf(),
            endpoints_declared(
                old(self)@.nodes,
                final(self)@.nodes,
                edge.parent_key(),
                edge.child_key(),
            ),
            final(self)@ == old(self)@.with_weak_edge(final(self)@.nodes, *edge),
    {
        let ghost pre = self@;
        self.declare(edge.parent());
        let ghost mid = self@;
        self.declare(edge.child());
        let ghost healed = self@;
        self.weak_edge.insert(DirectedEdge::from(edge), edge.duplicate());
        proof {
            let post = self@;
            lemma_endpoints_declared(
                pre.nodes,
                mid.nodes,
                healed.nodes,
                edge.parent_key(),
                edge.child_key(),
            );
            assert(post =~= (GraphView::<TEdge> {
                weak_edges: healed.weak_edges.insert(
                    (edge.parent_key(), edge.child_key()),
                    *edge,
                ),
                ..healed
            }));
            assert(post.well_formed());
        }
    }

    /// Makes `edge` a strong edge: `edge.child()` becomes a child of
    /// `edge.parent()` and gets it as its parent.
    fn link(&mut self, edge: &TEdge)
        requires
            old(self).wf(),
            old(self)@.nodes.contains_key(edge.parent_key()),
            old(self)@.nodes.contains_key(edge.child_key()),
            old(self)@.indexed,
            !old(self)@.demotes(edge.parent_key(), edge.child_key()),
        ensures
            final(self).wf(),
            final(self)@ == (GraphView::<TEdge> {
                edges: old(self)@.edges.insert((edge.parent_key(), edge.child_key()), *edge),
                children: linked(old(self)@.children, edge.parent_key(), edge.child_key()),
                parent: old(self)@.parent.insert(edge.child_key(), edge.parent_key()),
                ..old(self)@
            }),
    {
        let ghost before = *self;
        let ghost pre = self@;
        let ghost p = edge.parent_key();
        let ghost c = edge.child_key();
        proof {
            self.lemma_parent();
            lemma_other_root_never_met(pre.parent, p, c, pre.parent.len());
            lemma_acyclic_insert(pre.parent, c, p);
        }
        let hp = *self.handle.get(edge.parent()).unwrap();
        let hc = *self.handle.get(edge.child()).unwrap();
        self.edge.insert(DirectedEdge::from(edge), edge.duplicate());
        let set = &mut self.children[hp];
        set.insert(hc);
        self.parent.insert(edge.child().duplicate(), edge.parent().duplicate());
        proof {
            let post = self@;
            lemma_child_added(before.handle@, before.children@, self.children@, p, c);
            assert(post.parent =~= pre.parent.insert(c, p));
            assert(post.children =~= linked(pre.children, p, c));
            self.parent.lemma_ordered_keys();
            assert(post.parent.dom() =~= self.parent@.dom());
            assert forall|x: KeyOf<TEdge>| #[trigger]
                post.parent.contains_key(x) implies post.edges.contains_key(
                (post.parent[x], x),
            ) by {
                if x != c {
                    assert(pre.parent.contains_key(x));
                    assert(pre.edges.contains_key((pre.parent[x], x)));
                }
            }
            assert(post.parent.dom().subset_of(post.nodes.dom())) by {
                assert forall|k: KeyOf<TEdge>|
                    post.parent.dom().contains(k) implies post.nodes.dom().contains(k) by {
                    assert(post.edges.contains_key((post.parent[k], k)));
                }
            }
            vstd::set_lib::lemma_len_subset(post.parent.dom(), post.nodes.dom());
            assert forall|k: KeyOf<TEdge>| #[trigger]
                settles(post.parent, k, post.nodes.len()) by {
                lemma_settles(post.parent, k);
                lemma_walk_stable(post.parent, k, post.parent.len(), post.nodes.len());
            }
            assert forall|x: KeyOf<TEdge>, y: KeyOf<TEdge>|
                post.children.contains_key(x) implies (#[trigger] post.children[x].contains(y)
                <==> post.edges.contains_key((x, y))) by {
                assert(pre.children[x].contains(y) <==> pre.edges.contains_key((x, y)));
            }
            assert(post.well_formed());
            assert(post =~= (GraphView::<TEdge> {
                edges: pre.edges.insert((p, c), *edge),
                children: linked(pre.children, p, c),
                parent: pre.parent.insert(c, p),
                ..pre
            }));
        }
    }

    /// Makes `edge` a strong edge of a graph that keeps no indexes.
    fn record(&mut self, edge: &TEdge)
        requires
            old(self).wf(),
            old(self)@.nodes.contains_key(edge.parent_key()),
            old(self)@.nodes.contains_key(edge.child_key()),
            !old(self)@.indexed,
            edge.parent_key() != edge.child_key(),
        ensures
            final(self).wf(),
            final(self)@ == (GraphView::<TEdge> {
                edges: old(self)@.edges.insert((edge.parent_key(), edge.child_key()), *edge),
                ..old(self)@
            }),
    {
        let ghost pre = self@;
        self.edge.insert(DirectedEdge::from(edge), edge.duplicate());
        proof {
            let post = self@;
            assert(post =~= (GraphView::<TEdge> {
                edges: pre.edges.insert((edge.parent_key(), edge.child_key()), *edge),
                ..pre
            }));
            assert forall|x: KeyOf<TEdge>| #[trigger]
                post.parent.contains_key(x) implies false by {
                assert(pre.parent.dom().contains(x));
            }
            assert(post.well_formed());
        }
    }

    /// Adds `edge` to the graph. An end of the edge that has no node yet gets
    /// an implicit one. The edge becomes a weak edge where the graph demotes
    /// it; else it becomes a strong edge, and in a graph that keeps the
    /// indexes its parent end becomes the parent of its child end, whatever
    /// parent that one had before.
    pub fn add_edge(&mut self, edge: &TEdge)
        requires
            old(self).wf(),
        ensures
            final(self).wf(),
            final(self)@.is_forest(),
            endpoints_declared(
                old(self)@.nodes,
                final(self)@.nodes,
                edge.parent_key(),
                edge.child_key(),
            ),
            final(self)@ == old(self)@.with_edge(final(self)@.nodes, *edge),
    {
        let ghost pre = self@;
        let ghost p = edge.parent_key();
        let ghost c = edge.child_key();
        self.declare(edge.parent());
        let ghost mid = self@;
        self.declare(edge.child());
        let ghost healed = self@;
        proof {
            lemma_endpoints_declared(pre.nodes, mid.nodes, healed.nodes, p, c);
            assert(healed.children =~= pre.entered_both(p, c));
        }
        let demoted = if edge.parent().same(edge.child()) {
            true
        } else if self.indexed {
            let under_one_root = match (self.root_of(edge.parent()), self.root_of(edge.child())) {
                (Ok(left), Ok(right)) => left.same(right),
                _ => false,
            };
            proof {
                self.lemma_parent();
            }
            under_one_root || (!self.allow_reparent && self.parent.contains_key(edge.child()))
        } else {
            false
        };
        if demoted {
            self.add_weak_edge(edge);
            proof {
                assert(self@.nodes =~= healed.nodes);
                assert(self@ =~= (GraphView::<TEdge> {
                    weak_edges: healed.weak_edges.insert((p, c), *edge),
                    ..healed
                }));
            }
        } else if self.indexed {
            self.link(edge);
        } else {
            self.record(edge);
        }
    }

    /// The number of parent pointers between `node` and its root.
    pub fn rank_of(&self, node: &IndexOf<TEdge>) -> (r: Result<usize, GraphError<TEdge::Node>>)
        requires
            self.wf(),
        ensures
            match r {
                Ok(n) => self@.nodes.contains_key(node@) && n == rank(self@.parent, node@),
                Err(e) => !self@.nodes.contains_key(node@) && e == GraphError::<
                    TEdge::Node,
                >::NodeNotExists(*node),
            },
    {
        if !self.node.contains_key(node) {
            return Err(GraphError::NodeNotExists(node.duplicate()));
        }
        let limit = self.parent.len();
        let mut cur: &IndexOf<TEdge> = node;
        let mut count: usize = 0;
        proof {
            self.lemma_parent();
            lemma_hops(self@.parent, node@, self@.parent.len());
        }
        loop
            invariant
                self.wf(),
                self.parent_shown(),
                limit == self@.parent.len(),
                cur@ == walk(self@.parent, node@, count as nat),
                count <= rank(self@.parent, node@) <= limit,
                settles(self@.parent, node@, self@.parent.len()),
                forall|t: nat|
                    t < rank(self@.parent, node@) ==> self@.parent.contains_key(
                        #[trigger] walk(self@.parent, node@, t),
                    ),
                walk(self@.parent, node@, rank(self@.parent, node@)) == walk(
                    self@.parent,
                    node@,
                    self@.parent.len(),
                ),
                self@.nodes.contains_key(node@),
            decreases limit - count,
        {
            match self.parent.get(cur) {
                None => {
                    return Ok(count);
                },
                Some(up) => {
                    proof {
                        lemma_walk_last(self@.parent, node@, count as nat);
                    }
                    cur = up;
                    count = count + 1;
                },
            }
        }
    }

    /// The ancestors of `node`, from its root down to its parent.
    pub fn predecessors_of(&self, node: &IndexOf<TEdge>) -> (r: Result<
        Vec<&IndexOf<TEdge>>,
        GraphError<TEdge::Node>,
    >)
        requires
            self.wf(),
        ensures
            match r {
                Ok(v) => self@.nodes.contains_key(node@) && views_of(v@) == ancestors(
                    self@.parent,
                    node@,
                ),
                Err(e) => !self@.nodes.contains_key(node@) && e == GraphError::<
                    TEdge::Node,
                >::NodeNotExists(*node),
            },
    {
        if !self.node.contains_key(node) {
            return Err(GraphError::NodeNotExists(node.duplicate()));
        }
        let limit = self.parent.len();
        let mut cur: &IndexOf<TEdge> = node;
        let mut ups: Vec<&IndexOf<TEdge>> = Vec::new();
        let ghost height = rank(self@.parent, node@);
        proof {
            self.lemma_parent();
            lemma_hops(self@.parent, node@, self@.parent.len());
        }
        loop
            invariant_except_break
                cur@ == walk(self@.parent, node@, ups@.len() as nat),
            invariant
                self.wf(),
                self.parent_shown(),
                limit == self@.parent.len(),
                height == rank(self@.parent, node@),
                ups@.len() <= height <= limit,
                forall|t: int|
                    0 <= t < ups@.len() ==> (#[trigger] ups@[t])@ == walk(
                        self@.parent,
                        node@,
                        (t + 1) as nat,
                    ),
                forall|t: nat|
                    t < height ==> self@.parent.contains_key(
                        #[trigger] walk(self@.parent, node@, t),
                    ),
                walk(self@.parent, node@, height) == walk(
                    self@.parent,
                    node@,
                    self@.parent.len(),
                ),
                settles(self@.parent, node@, self@.parent.len()),
            ensures
                ups@.len() == height,
            decreases limit - ups@.len(),
        {
            match self.parent.get(cur) {
                None => {
                    break ;
                },
                Some(up) => {
                    proof {
                        lemma_walk_last(self@.parent, node@, ups@.len() as nat);
                    }
                    cur = up;
                    ups.push(up);
                },
            }
        }
        let total = ups.len();
        let mut out: Vec<&IndexOf<TEdge>> = Vec::new();
        let mut j: usize = 0;
        while j < total
            invariant
                total == ups@.len(),
                j <= total,
                out@.len() == j,
                forall|t: int| 0 <= t < j ==> (#[trigger] out@[t])@ == ups@[total - 1 - t]@,
            decreases total - j,
        {
            let ghost so_far = out@;
            out.push(ups[total - 1 - j]);
            proof {
                assert forall|t: int| 0 <= t < j + 1 implies (#[trigger] out@[t])@ == ups@[total - 1
                    - t]@ by {
                    if t < j {
                        assert(out@[t] == so_far[t]);
                    }
                }
            }
            j = j + 1;
        }
        proof {
            let line = ancestors(self@.parent, node@);
            assert(line.len() == height);
            assert forall|t: int| 0 <= t < height implies views_of(out@)[t] == line[t] by {
                lemma_lineage_index(self@.parent, node@, self@.parent.len(), t);
            }
            assert(views_of(out@) =~= line);
        }
        Ok(out)
    }

    /// The ancestors of `node`, from its root down to its parent, and then
    /// `node` itself.
    pub fn self_and_its_predecessors_of(&self, node: &IndexOf<TEdge>) -> (r: Result<
        Vec<&IndexOf<TEdge>>,
        GraphError<TEdge::Node>,
    >)
        requires
            self.wf(),
        ensures
            match r {
                Ok(v) => self@.nodes.contains_key(node@) && views_of(v@) == ancestors(
                    self@.parent,
                    node@,
                ).push(node@),
                Err(e) => !self@.nodes.contains_key(node@) && e == GraphError::<
                    TEdge::Node,
                >::NodeNotExists(*node),
            },
    {
        let mut res = match self.predecessors_of(node) {
            Ok(res) => res,
            Err(why) => {
                return Err(why);
            },
        };
        match self.get_node(node) {
            Some(stored) => {
                let ghost above = res@;
                res.push(stored.index());
                proof {
                    assert(views_of(res@) =~= views_of(above).push(node@));
                }
            },
            None => {
                return Err(GraphError::NodeNotExists(node.duplicate()));
            },
        }
        Ok(res)
    }

    /// Whether `to` is `from` itself or an ancestor of `from`.
    pub fn are_on_the_path(&self, from: &IndexOf<TEdge>, to: &IndexOf<TEdge>) -> (r: bool)
        requires
            self.wf(),
        ensures
            r == reaches(self@.parent, from@, to@),
    {
        let mut cur: &IndexOf<TEdge> = from;
        let ghost mut i: nat = 0;
        proof {
            self.lemma_parent();
        }
        loop
            invariant
                self.wf(),
                self.parent_shown(),
                cur@ == walk(self@.parent, from@, i),
                i <= self@.parent.len(),
                settles(self@.parent, from@, self@.parent.len()),
                reaches(self@.parent, from@, to@) == on_path(
                    self@.parent,
                    cur@,
                    to@,
                    (self@.parent.len() - i) as nat,
                ),
            decreases self@.parent.len() - i,
        {
            if cur.same(to) {
                return true;
            }
            match self.parent.get(cur) {
                None => {
                    return false;
                },
                Some(up) => {
                    proof {
                        lemma_walk_last(self@.parent, from@, i);
                        if i == self@.parent.len() {
                            assert(false);
                        }
                        i = i + 1;
                    }
                    cur = up;
                },
            }
        }
    }

    /// Whether `node` is its own root.
    pub fn is_root(&self, node: &IndexOf<TEdge>) -> (r: Result<bool, GraphError<TEdge::Node>>)
        requires
            self.wf(),
        ensures
            match r {
                Ok(b) => self@.nodes.contains_key(node@) && b == (root(self@.parent, node@)
                    == node@) && b == self@.is_root(node@),
                Err(e) => !self@.nodes.contains_key(node@) && e == GraphError::<
                    TEdge::Node,
                >::NodeNotExists(*node),
            },
    {
        match self.root_of(node) {
            Ok(top) => {
                proof {
                    self.lemma_parent();
                    if self@.parent.contains_key(node@) {
                        assert(self@.parent.dom().contains(node@));
                        assert(self@.parent.len() >= 1) by {
                            if self@.parent.len() == 0 {
                                assert(self@.parent.dom() =~= Set::empty());
                            }
                        }
                        assert(walk(self@.parent, node@, self@.parent.len()) != node@);
                    }
                }
                Ok(top.same(node))
            },
            Err(why) => Err(why),
        }
    }

    /// What the stored handles say, in terms of the view.
    proof fn lemma_handles(&self)
        requires
            self.wf(),
        ensures
            self.handle.ordered_keys() == canonical::<IndexOf<TEdge>>(self@.children.dom()),
            self.node.ordered_keys() == canonical::<IndexOf<TEdge>>(self@.nodes.dom()),
            self.handle@.dom() == self@.children.dom(),
            forall|k: KeyOf<TEdge>|
                self@.children.contains_key(k) ==> self.handle@.contains_key(k)
                    && self.handle@[k] < self.children@.len() && #[trigger] self@.children[k]
                    == child_set(self.handle@, self.children@, k),
            forall|k: KeyOf<TEdge>|
                self@.children.contains_key(k) ==> (self@.is_leaf(k) <==> handle_set_items(
                    self.children@[self.handle@[k] as int],
                ) == Set::<usize>::empty()),
    {
        assert(self.handle@.dom() =~= self@.children.dom());
        assert forall|k: KeyOf<TEdge>| self@.children.contains_key(k) implies (self@.is_leaf(k)
            <==> handle_set_items(self.children@[self.handle@[k] as int]) == Set::<
            usize,
        >::empty()) by {
            let items = handle_set_items(self.children@[self.handle@[k] as int]);
            if items == Set::<usize>::empty() {
                assert(self@.is_leaf(k));
            } else {
                assert(!(items =~= Set::<usize>::empty()));
                let x = choose|x: usize| items.contains(x);
                assert(items.contains(x));
                assert(x < self.children@.len());
                let c = owner(self.handle@, x);
                assert(self.handle@.contains_key(c) && self.handle@[c] == x);
                assert(child_set(self.handle@, self.children@, k).contains(c));
                assert(self@.children[k].contains(c));
            }
        }
    }

    /// The children of `parent` in ascending order.
    pub fn children_of(&self, parent: &IndexOf<TEdge>) -> (r: Option<Vec<&IndexOf<TEdge>>>)
        requires
            self.wf(),
        ensures
            match r {
                Some(v) => self@.children.contains_key(parent@) && views_of(v@) == canonical::<
                    IndexOf<TEdge>,
                >(self@.children[parent@]),
                None => !self@.children.contains_key(parent@),
            },
    {
        let at = match self.handle.get(parent) {
            Some(h) => *h,
            None => {
                return None;
            },
        };
        proof {
            self.lemma_handles();
            self.handle.lemma_ordered_keys();
        }
        let set = &self.children[at];
        let n = self.handle.len();
        let ghost order = self.handle.ordered_keys();
        let ghost pick = |k: KeyOf<TEdge>| self@.children[parent@].contains(k);
        let mut out: Vec<&IndexOf<TEdge>> = Vec::new();
        let mut i: usize = 0;
        while i < n
            invariant
                self.wf(),
                order == self.handle.ordered_keys(),
                order == canonical::<IndexOf<TEdge>>(self@.children.dom()),
                n == order.len(),
                n == self.handle@.len(),
                i <= n,
                self.handle@.contains_key(parent@),
                at == self.handle@[parent@],
                at < self.children@.len(),
                *set == self.children@[at as int],
                self@.children[parent@] == child_set(self.handle@, self.children@, parent@),
                pick == |k: KeyOf<TEdge>| self@.children[parent@].contains(k),
                views_of(out@) == order.take(i as int).filter(pick),
            decreases n - i,
        {
            let key = self.handle.key_at(i);
            let h = *self.handle.value_at(i);
            let ghost so_far = out@;
            if set.contains(h) {
                out.push(key);
                proof {
                    assert(views_of(out@) =~= views_of(so_far).push(key@));
                }
            }
            proof {
                lemma_filter_step(order, pick, i as int);
            }
            i = i + 1;
        }
        proof {
            assert(order.take(n as int) =~= order);
            assert forall|x: KeyOf<TEdge>|
                #![trigger self@.children[parent@].contains(x)]
                #![trigger order.contains(x)]
                self@.children[parent@].contains(x) <==> order.contains(x) && pick(x) by {
                if self@.children[parent@].contains(x) {
                    assert(self.handle@.contains_key(x));
                }
            }
            lemma_filter_canonical::<IndexOf<TEdge>>(order, pick, self@.children[parent@]);
        }
        Some(out)
    }

    /// The nodes without children, in ascending order.
    pub fn leaves(&self) -> (r: Vec<&IndexOf<TEdge>>)
        requires
            self.wf(),
        ensures
            views_of(r@) == canonical::<IndexOf<TEdge>>(self@.leaves()),
    {
        proof {
            self.lemma_handles();
            self.handle.lemma_ordered_keys();
        }
        let n = self.handle.len();
        let ghost order = self.handle.ordered_keys();
        let ghost pick = |k: KeyOf<TEdge>| self@.is_leaf(k);
        let mut out: Vec<&IndexOf<TEdge>> = Vec::new();
        let mut i: usize = 0;
        while i < n
            invariant
                self.wf(),
                order == self.handle.ordered_keys(),
                order == canonical::<IndexOf<TEdge>>(self@.children.dom()),
                n == order.len(),
                n == self.handle@.len(),
                i <= n,
                pick == |k: KeyOf<TEdge>| self@.is_leaf(k),
                views_of(out@) == order.take(i as int).filter(pick),
            decreases n - i,
        {
            let key = self.handle.key_at(i);
            let h = *self.handle.value_at(i);
            let ghost so_far = out@;
            proof {
                self.lemma_handles();
            }
            if self.children[h].is_empty() {
                out.push(key);
                proof {
                    assert(views_of(out@) =~= views_of(so_far).push(key@));
                }
            }
            proof {
                lemma_filter_step(order, pick, i as int);
            }
            i = i + 1;
        }
        proof {
            assert(order.take(n as int) =~= order);
            lemma_filter_canonical::<IndexOf<TEdge>>(order, pick, self@.leaves());
        }
        out
    }

    /// The nodes without children that have `node` above them or are `node`,
    /// in ascending order.
    pub fn leaves_of(&self, node: &IndexOf<TEdge>) -> (r: Result<
        Vec<&IndexOf<TEdge>>,
        GraphError<TEdge::Node>,
    >)
        requires
            self.wf(),
        ensures
            match r {
                Ok(v) => self@.nodes.contains_key(node@) && views_of(v@) == canonical::<
                    IndexOf<TEdge>,
                >(self@.leaves_under(node@)),
                Err(e) => !self@.nodes.contains_key(node@) && e == GraphError::<
                    TEdge::Node,
                >::NodeNotExists(*node),
            },
    {
        if !self.node.contains_key(node) {
            return Err(GraphError::NodeNotExists(node.duplicate()));
        }
        proof {
            self.lemma_handles();
            self.handle.lemma_ordered_keys();
        }
        let n = self.handle.len();
        let ghost order = self.handle.ordered_keys();
        let ghost pick = |k: KeyOf<TEdge>|
            self@.is_leaf(k) && reaches(self@.parent, k, node@);
        let mut out: Vec<&IndexOf<TEdge>> = Vec::new();
        let mut i: usize = 0;
        while i < n
            invariant
                self.wf(),
                order == self.handle.ordered_keys(),
                order == canonical::<IndexOf<TEdge>>(self@.children.dom()),
                n == order.len(),
                n == self.handle@.len(),
                i <= n,
                pick == |k: KeyOf<TEdge>| self@.is_leaf(k) && reaches(self@.parent, k, node@),
                views_of(out@) == order.take(i as int).filter(pick),
            decreases n - i,
        {
            let key = self.handle.key_at(i);
            let h = *self.handle.value_at(i);
            let ghost so_far = out@;
            proof {
                self.lemma_handles();
            }
            if self.children[h].is_empty() && self.are_on_the_path(key, node) {
                out.push(key);
                proof {
                    assert(views_of(out@) =~= views_of(so_far).push(key@));
                }
            }
            proof {
                lemma_filter_step(order, pick, i as int);
            }
            i = i + 1;
        }
        proof {
            assert(order.take(n as int) =~= order);
            lemma_filter_canonical::<IndexOf<TEdge>>(order, pick, self@.leaves_under(node@));
        }
        Ok(out)
    }

    /// The nodes without a parent, in ascending order.
    pub fn roots(&self) -> (r: Vec<&IndexOf<TEdge>>)
        requires
            self.wf(),
        ensures
            views_of(r@) == canonical::<IndexOf<TEdge>>(self@.roots()),
    {
        proof {
            self.lemma_handles();
            self.lemma_parent();
            self.node.lemma_ordered_keys();
        }
        let n = self.node.len();
        let ghost order = self.node.ordered_keys();
        let ghost pick = |k: KeyOf<TEdge>| self@.is_root(k);
        let mut out: Vec<&IndexOf<TEdge>> = Vec::new();
        let mut i: usize = 0;
        while i < n
            invariant
                self.wf(),
                order == self.node.ordered_keys(),
                order == canonical::<IndexOf<TEdge>>(self@.nodes.dom()),
                n == order.len(),
                n == self.node@.len(),
                i <= n,
                self@.parent.dom() == self.parent@.dom(),
                pick == |k: KeyOf<TEdge>| self@.is_root(k),
                views_of(out@) == order.take(i as int).filter(pick),
            decreases n - i,
        {
            let key = self.node.key_at(i);
            let ghost so_far = out@;
            if !self.parent.contains_key(key) {
                out.push(key);
                proof {
                    assert(views_of(out@) =~= views_of(so_far).push(key@));
                }
            }
            proof {
                lemma_filter_step(order, pick, i as int);
            }
            i = i + 1;
        }
        proof {
            assert(order.take(n as int) =~= order);
            lemma_filter_canonical::<IndexOf<TEdge>>(order, pick, self@.roots());
        }
        out
    }

    /// The nodes in ascending order of their indices.
    pub fn nodes(&self) -> (r: Vec<&TEdge::Node>)
        requires
            self.wf(),
        ensures
            r@.len() == self@.nodes.len(),
            forall|i: int|
                0 <= i < r@.len() ==> *#[trigger] r@[i] == self@.nodes[canonical::<IndexOf<TEdge>>(
                    self@.nodes.dom(),
                )[i]],
    {
        self.node.values()
    }

    /// The strong edges in ascending order of parent and child.
    pub fn edges(&self) -> (r: Vec<&TEdge>)
        requires
            self.wf(),
        ensures
            r@.len() == self@.edges.len(),
            forall|i: int|
                0 <= i < r@.len() ==> *#[trigger] r@[i] == self@.edges[canonical::<
                    DirectedEdge<TEdge>,
                >(self@.edges.dom())[i]],
    {
        self.edge.values()
    }

    /// The weak edges in ascending order of parent and child.
    pub fn weak_edges(&self) -> (r: Vec<&TEdge>)
        requires
            self.wf(),
        ensures
            r@.len() == self@.weak_edges.len(),
            forall|i: int|
                0 <= i < r@.len() ==> *#[trigger] r@[i] == self@.weak_edges[canonical::<
                    DirectedEdge<TEdge>,
                >(self@.weak_edges.dom())[i]],
    {
        self.weak_edge.values()
    }

    /// The number that `index` is written under, if it is a node.
    fn written_id(&self, index: &IndexOf<TEdge>) -> (r: Option<usize>)
        requires
            self.wf(),
        ensures
            match r {
                Some(id) => self@.nodes.contains_key(index@) && id == id_of::<TEdge>(
                    self@.nodes,
                    index@,
                ),
                None => !self@.nodes.contains_key(index@),
            },
    {
        proof {
            self.node.lemma_ordered_keys();
        }
        let r = self.node.position(index);
        proof {
            if let Some(id) = r {
                let order = self.node.ordered_keys();
                assert(order[id as int] == index@);
                assert(order.contains(index@));
                let at = order.index_of(index@);
                assert(0 <= at < order.len() && order[at] == index@);
            }
        }
        r
    }

    /// Appends the graph to `file` as GML text.
    pub fn gml_write(&self, file: &mut String) -> (r: Result<(), GraphError<TEdge::Node>>)
        requires
            self.wf(),
        ensures
            r is Ok,
            final(file)@ == old(file)@ + gml::<TEdge>(self@.name, self@.nodes, self@.edges),
    {
        let mut out = String::new();
        write_gml_head(&mut out, self.name.as_str());
        let ghost head = out@;
        let n = self.node.len();
        let mut i: usize = 0;
        while i < n
            invariant
                self.wf(),
                n == self@.nodes.len(),
                n == self.node.ordered_keys().len(),
                i <= n,
                out@ == head + gml_nodes::<TEdge>(self@.nodes, i as nat),
            decreases n - i,
        {
            let ghost so_far = out@;
            let node = self.node.value_at(i);
            let label = node.to_text();
            write_gml_node(&mut out, i, label.as_str());
            proof {
                assert(out@ =~= head + gml_nodes::<TEdge>(self@.nodes, (i + 1) as nat));
            }
            i = i + 1;
        }
        let ghost body = out@;
        let m = self.edge.len();
        let mut j: usize = 0;
        while j < m
            invariant
                self.wf(),
                m == self@.edges.len(),
                m == self.edge.ordered_keys().len(),
                j <= m,
                out@ == body + gml_edges::<TEdge>(self@.nodes, self@.edges, j as nat),
            decreases m - j,
        {
            let edge = self.edge.value_at(j);
            match (self.written_id(edge.parent()), self.written_id(edge.child())) {
                (Some(source), Some(target)) => {
                    write_gml_edge(&mut out, source, target, edge.label().as_str());
                },
                _ => {},
            }
            proof {
                assert(out@ =~= body + gml_edges::<TEdge>(
                    self@.nodes,
                    self@.edges,
                    (j + 1) as nat,
                ));
            }
            j = j + 1;
        }
        out.append("]\n");
        file.append(out.as_str());
        proof {
            assert(file@ =~= old(file)@ + gml::<TEdge>(self@.name, self@.nodes, self@.edges));
        }
        Ok(())
    }

    /// Appends the graph to `file` as DOT text.
    pub fn dot_write(&self, file: &mut String) -> (r: Result<(), GraphError<TEdge::Node>>)
        requires
            self.wf(),
        ensures
            r is Ok,
            final(file)@ == old(file)@ + dot::<TEdge>(self@.nodes, self@.edges),
    {
        let mut out = String::new();
        out.append("digraph {\n");
        let ghost head = out@;
        let n = self.node.len();
        let mut i: usize = 0;
        while i < n
            invariant
                self.wf(),
                n == self@.nodes.len(),
                n == self.node.ordered_keys().len(),
                i <= n,
                out@ == head + dot_nodes::<TEdge>(self@.nodes, i as nat),
            decreases n - i,
        {
            let node = self.node.value_at(i);
            let label = node.to_text();
            write_dot_node(&mut out, i, label.as_str());
            proof {
                assert(out@ =~= head + dot_nodes::<TEdge>(self@.nodes, (i + 1) as nat));
            }
            i = i + 1;
        }
        let ghost body = out@;
        let m = self.edge.len();
        let mut j: usize = 0;
        while j < m
            invariant
                self.wf(),
                m == self@.edges.len(),
                m == self.edge.ordered_keys().len(),
                j <= m,
                out@ == body + dot_edges::<TEdge>(self@.nodes, self@.edges, j as nat),
            decreases m - j,
        {
            let edge = self.edge.value_at(j);
            match (self.written_id(edge.parent()), self.written_id(edge.child())) {
                (Some(source), Some(target)) => {
                    write_dot_edge(&mut out, source, target, edge.label().as_str());
                },
                _ => {},
            }
            proof {
                assert(out@ =~= body + dot_edges::<TEdge>(
                    self@.nodes,
                    self@.edges,
                    (j + 1) as nat,
                ));
            }
            j = j + 1;
        }
        out.append("}\n");
        file.append(out.as_str());
        proof {
            assert(file@ =~= old(file)@ + dot::<TEdge>(self@.nodes, self@.edges));
        }
        Ok(())
    }
}

} // verus!

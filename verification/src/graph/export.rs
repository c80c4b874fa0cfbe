//! The two text forms a graph is written out in: GML and DOT.
//!
//! Nodes are numbered in ascending order of their indices, from 0, and are
//! written in that order. Edges follow in ascending order of parent and
//! child, and name their ends by those numbers. An edge with an end that is
//! no node is left out. What is written therefore depends on what the graph
//! holds, and on nothing else.

use crate::collections::ordered_key::canonical;
use crate::edge::directed_edge::DirectedEdge;
use crate::edge::{Edge, IndexOf, KeyOf};
use crate::node::Node;
use crate::text::{decimal, push_decimal};
use vstd::prelude::*;
use vstd::string::StringExecFns;

verus! {

/// The number a node is written under: its place among the nodes in
/// ascending order.
pub open spec fn id_of<TEdge: Edge>(
    nodes: Map<KeyOf<TEdge>, TEdge::Node>,
    k: KeyOf<TEdge>,
) -> int {
    canonical::<IndexOf<TEdge>>(nodes.dom()).index_of(k)
}

/// What a GML text starts with.
pub open spec fn gml_head(name: Seq<char>) -> Seq<char> {
    "graph [\n"@ + "  directed 1\n"@ + "  name \""@ + name + "\"\n"@
}

/// The GML text of one node.
pub open spec fn gml_node(id: nat, label: Seq<char>) -> Seq<char> {
    "  node [\n"@ + "    id "@ + decimal(id) + "\n"@ + "    label \""@ + label + "\"\n"@
        + "  ]\n"@
}

/// The GML text of one edge.
pub open spec fn gml_edge(source: nat, target: nat, label: Seq<char>) -> Seq<char> {
    "  edge [\n"@ + "    source "@ + decimal(source) + "\n"@ + "    target "@ + decimal(target)
        + "\n"@ + "    label \""@ + label + "\"\n"@ + "  ]\n"@
}

/// The DOT text of one node.
pub open spec fn dot_node(id: nat, label: Seq<char>) -> Seq<char> {
    "  "@ + decimal(id) + " [label=\""@ + label + "\"]\n"@
}

/// The DOT text of one edge.
pub open spec fn dot_edge(source: nat, target: nat, label: Seq<char>) -> Seq<char> {
    "  "@ + decimal(source) + " -> "@ + decimal(target) + " [label=\""@ + label + "\"]\n"@
}

/// The GML text of the first `upto` nodes.
pub open spec fn gml_nodes<TEdge: Edge>(nodes: Map<KeyOf<TEdge>, TEdge::Node>, upto: nat) -> Seq<
    char,
>
    decreases upto,
{
    if upto == 0 {
        Seq::empty()
    } else {
        let at = (upto - 1) as nat;
        let k = canonical::<IndexOf<TEdge>>(nodes.dom())[at as int];
        gml_nodes::<TEdge>(nodes, at) + gml_node(at, nodes[k].caption())
    }
}

/// The DOT text of the first `upto` nodes.
pub open spec fn dot_nodes<TEdge: Edge>(nodes: Map<KeyOf<TEdge>, TEdge::Node>, upto: nat) -> Seq<
    char,
>
    decreases upto,
{
    if upto == 0 {
        Seq::empty()
    } else {
        let at = (upto - 1) as nat;
        let k = canonical::<IndexOf<TEdge>>(nodes.dom())[at as int];
        dot_nodes::<TEdge>(nodes, at) + dot_node(at, nodes[k].caption())
    }
}

/// Whether both ends of `edge` are nodes.
pub open spec fn is_written<TEdge: Edge>(
    nodes: Map<KeyOf<TEdge>, TEdge::Node>,
    edge: TEdge,
) -> bool {
    nodes.contains_key(edge.parent_key()) && nodes.contains_key(edge.child_key())
}

/// The GML text of the first `upto` edges.
pub open spec fn gml_edges<TEdge: Edge>(
    nodes: Map<KeyOf<TEdge>, TEdge::Node>,
    edges: Map<(KeyOf<TEdge>, KeyOf<TEdge>), TEdge>,
    upto: nat,
) -> Seq<char>
    decreases upto,
{
    if upto == 0 {
        Seq::empty()
    } else {
        let at = (upto - 1) as nat;
        let edge = edges[canonical::<DirectedEdge<TEdge>>(edges.dom())[at as int]];
        gml_edges::<TEdge>(nodes, edges, at) + if is_written::<TEdge>(nodes, edge) {
            gml_edge(
                id_of::<TEdge>(nodes, edge.parent_key()) as nat,
                id_of::<TEdge>(nodes, edge.child_key()) as nat,
                edge.label_text(),
            )
        } else {
            Seq::empty()
        }
    }
}

/// The DOT text of the first `upto` edges.
pub open spec fn dot_edges<TEdge: Edge>(
    nodes: Map<KeyOf<TEdge>, TEdge::Node>,
    edges: Map<(KeyOf<TEdge>, KeyOf<TEdge>), TEdge>,
    upto: nat,
) -> Seq<char>
    decreases upto,
{
    if upto == 0 {
        Seq::empty()
    } else {
        let at = (upto - 1) as nat;
        let edge = edges[canonical::<DirectedEdge<TEdge>>(edges.dom())[at as int]];
        dot_edges::<TEdge>(nodes, edges, at) + if is_written::<TEdge>(nodes, edge) {
            dot_edge(
                id_of::<TEdge>(nodes, edge.parent_key()) as nat,
                id_of::<TEdge>(nodes, edge.child_key()) as nat,
                edge.label_text(),
            )
        } else {
            Seq::empty()
        }
    }
}

/// The GML text of a graph with this name, these nodes and these strong
/// edges.
pub open spec fn gml<TEdge: Edge>(
    name: Seq<char>,
    nodes: Map<KeyOf<TEdge>, TEdge::Node>,
    edges: Map<(KeyOf<TEdge>, KeyOf<TEdge>), TEdge>,
) -> Seq<char> {
    gml_head(name) + gml_nodes::<TEdge>(nodes, nodes.len()) + gml_edges::<TEdge>(
        nodes,
        edges,
        edges.len(),
    ) + "]\n"@
}

/// The DOT text of a graph with these nodes and these strong edges.
pub open spec fn dot<TEdge: Edge>(
    nodes: Map<KeyOf<TEdge>, TEdge::Node>,
    edges: Map<(KeyOf<TEdge>, KeyOf<TEdge>), TEdge>,
) -> Seq<char> {
    "digraph {\n"@ + dot_nodes::<TEdge>(nodes, nodes.len()) + dot_edges::<TEdge>(
        nodes,
        edges,
        edges.len(),
    ) + "}\n"@
}

/// Appends the start of a GML text to `out`.
pub fn write_gml_head(out: &mut String, name: &str)
    ensures
        final(out)@ == old(out)@ + gml_head(name@),
{
    out.append("graph [\n");
    out.append("  directed 1\n");
    out.append("  name \"");
    out.append(name);
    out.append("\"\n");
    assert(out@ =~= old(out)@ + gml_head(name@));
}

/// Appends the GML text of one node to `out`.
pub fn write_gml_node(out: &mut String, id: usize, label: &str)
    ensures
        final(out)@ == old(out)@ + gml_node(id as nat, label@),
{
    out.append("  node [\n");
    out.append("    id ");
    push_decimal(out, id as u64);
    out.append("\n");
    out.append("    label \"");
    out.append(label);
    out.append("\"\n");
    out.append("  ]\n");
    assert(out@ =~= old(out)@ + gml_node(id as nat, label@));
}

/// Appends the GML text of one edge to `out`.
pub fn write_gml_edge(out: &mut String, source: usize, target: usize, label: &str)
    ensures
        final(out)@ == old(out)@ + gml_edge(source as nat, target as nat, label@),
{
    out.append("  edge [\n");
    out.append("    source ");
    push_decimal(out, source as u64);
    out.append("\n");
    out.append("    target ");
    push_decimal(out, target as u64);
    out.append("\n");
    out.append("    label \"");
    out.append(label);
    out.append("\"\n");
    out.append("  ]\n");
    assert(out@ =~= old(out)@ + gml_edge(source as nat, target as nat, label@));
}

/// Appends the DOT text of one node to `out`.
pub fn write_dot_node(out: &mut String, id: usize, label: &str)
    ensures
        final(out)@ == old(out)@ + dot_node(id as nat, label@),
{
    out.append("  ");
    push_decimal(out, id as u64);
    out.append(" [label=\"");
    out.append(label);
    out.append("\"]\n");
    assert(out@ =~= old(out)@ + dot_node(id as nat, label@));
}

/// Appends the DOT text of one edge to `out`.
pub fn write_dot_edge(out: &mut String, source: usize, target: usize, label: &str)
    ensures
        final(out)@ == old(out)@ + dot_edge(source as nat, target as nat, label@),
{
    out.append("  ");
    push_decimal(out, source as u64);
    out.append(" -> ");
    push_decimal(out, target as u64);
    out.append(" [label=\"");
    out.append(label);
    out.append("\"]\n");
    assert(out@ =~= old(out)@ + dot_edge(source as nat, target as nat, label@));
}

/// What is written depends on the name, the nodes and the strong edges
/// only: two graphs that agree in these are written alike, however they came
/// to hold what they hold.
pub proof fn lemma_written_alike<TEdge: Edge>(
    name_a: Seq<char>,
    nodes_a: Map<KeyOf<TEdge>, TEdge::Node>,
    edges_a: Map<(KeyOf<TEdge>, KeyOf<TEdge>), TEdge>,
    name_b: Seq<char>,
    nodes_b: Map<KeyOf<TEdge>, TEdge::Node>,
    edges_b: Map<(KeyOf<TEdge>, KeyOf<TEdge>), TEdge>,
)
    requires
        name_a =~= name_b,
        nodes_a =~= nodes_b,
        edges_a =~= edges_b,
    ensures
        gml::<TEdge>(name_a, nodes_a, edges_a) == gml::<TEdge>(name_b, nodes_b, edges_b),
        dot::<TEdge>(nodes_a, edges_a) == dot::<TEdge>(nodes_b, edges_b),
{
}

} // verus!

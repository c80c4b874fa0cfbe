use lineage_graph::edge::basic_edge::BasicEdge;
use lineage_graph::graph::directed_graph::DirectedGraph;
use lineage_graph::graph::export::{write_dot_edge, write_dot_node, write_gml_edge, write_gml_node};
use lineage_graph::node::basic_node::BasicNode;
use lineage_graph::node::metadata_node::MetadataNode;
use lineage_graph::text::{decimal_text, push_decimal};

type TestGraphNode = BasicNode<String>;
type TestGraphEdge = BasicEdge<TestGraphNode>;

const EXPECTED_GML: &str = "graph [
  directed 1
  name \"test\"
  node [
    id 0
    label \"node_1\"
  ]
  node [
    id 1
    label \"node_2\"
  ]
  node [
    id 2
    label \"node_3\"
  ]
  node [
    id 3
    label \"node_4\"
  ]
  edge [
    source 0
    target 1
    label \"1->2\"
  ]
  edge [
    source 0
    target 2
    label \"1->3\"
  ]
  edge [
    source 2
    target 3
    label \"3->4\"
  ]
]
";

const EXPECTED_DOT: &str = "digraph {
  0 [label=\"node_1\"]
  1 [label=\"node_2\"]
  2 [label=\"node_3\"]
  3 [label=\"node_4\"]
  0 -> 1 [label=\"1->2\"]
  0 -> 2 [label=\"1->3\"]
  2 -> 3 [label=\"3->4\"]
}
";

#[test]
fn test_directed_graph_xxx_write() {
    let node_1_index = String::from("node_1");
    let node_2_index = String::from("node_2");
    let node_3_index = String::from("node_3");
    let node_4_index = String::from("node_4");

    let mut graph = DirectedGraph::new(String::from("test"));
    /*
       (1)
       / \
     (2) (3)
          |
         (4)
    */
    graph.add_edge(&TestGraphEdge::new(
        &node_1_index,
        &node_2_index,
        String::from("1->2"),
    ));
    graph.add_edge(&TestGraphEdge::new(
        &node_1_index,
        &node_3_index,
        String::from("1->3"),
    ));
    graph.add_edge(&TestGraphEdge::new(
        &node_3_index,
        &node_4_index,
        String::from("3->4"),
    ));

    {
        let mut out_gml = String::new();
        assert!(graph.gml_write(&mut out_gml).is_ok());
        assert_eq!(out_gml, EXPECTED_GML);
    }

    {
        let mut out_dot = String::new();
        assert!(graph.dot_write(&mut out_dot).is_ok());
        assert_eq!(out_dot, EXPECTED_DOT);
    }
}

#[test]
fn writing_does_not_depend_on_the_order_of_insertion() {
    let a = String::from("a");
    let b = String::from("b");
    let c = String::from("c");
    let d = String::from("d");

    let mut first = DirectedGraph::new(String::from("g"));
    first.add_node(&TestGraphNode::new(&d));
    first.add_edge(&TestGraphEdge::new(&a, &b, String::from("ab")));
    first.add_edge(&TestGraphEdge::new(&a, &c, String::from("ac")));
    first.add_edge(&TestGraphEdge::new(&c, &d, String::from("cd")));

    let mut second = DirectedGraph::new(String::from("g"));
    second.add_edge(&TestGraphEdge::new(&c, &d, String::from("cd")));
    second.add_node(&TestGraphNode::new(&b));
    second.add_edge(&TestGraphEdge::new(&a, &c, String::from("ac")));
    second.add_node(&TestGraphNode::new(&a));
    second.add_edge(&TestGraphEdge::new(&a, &b, String::from("ab")));

    let mut gml_first = String::new();
    let mut gml_second = String::new();
    assert!(first.gml_write(&mut gml_first).is_ok());
    assert!(second.gml_write(&mut gml_second).is_ok());
    assert_eq!(gml_first, gml_second);

    let mut dot_first = String::new();
    let mut dot_second = String::new();
    assert!(first.dot_write(&mut dot_first).is_ok());
    assert!(second.dot_write(&mut dot_second).is_ok());
    assert_eq!(dot_first, dot_second);

    let mut again = String::new();
    assert!(first.gml_write(&mut again).is_ok());
    assert_eq!(again, gml_first);
}

#[test]
fn writing_appends_to_what_the_buffer_holds() {
    let graph = DirectedGraph::<TestGraphEdge>::new(String::from("empty"));
    let mut out = String::from("# head\n");
    assert!(graph.dot_write(&mut out).is_ok());
    assert_eq!(out, "# head\ndigraph {\n}\n");

    let mut gml = String::new();
    assert!(graph.gml_write(&mut gml).is_ok());
    assert_eq!(gml, "graph [\n  directed 1\n  name \"empty\"\n]\n");
}

#[test]
fn weak_edges_are_not_written() {
    let one = String::from("1");
    let two = String::from("2");
    let mut graph = DirectedGraph::new(String::from("t"));
    graph.add_edge(&TestGraphEdge::new(&one, &two, String::from("x")));
    graph.add_edge(&TestGraphEdge::new(&two, &one, String::from("back")));
    graph.add_edge(&TestGraphEdge::new(&two, &two, String::from("loop")));
    let mut out = String::new();
    assert!(graph.dot_write(&mut out).is_ok());
    assert_eq!(
        out,
        "digraph {\n  0 [label=\"1\"]\n  1 [label=\"2\"]\n  0 -> 1 [label=\"x\"]\n}\n"
    );
}

#[test]
fn numbers_are_written_in_decimal() {
    assert_eq!(decimal_text(0), "0");
    assert_eq!(decimal_text(7), "7");
    assert_eq!(decimal_text(10), "10");
    assert_eq!(decimal_text(1234567890), "1234567890");
    assert_eq!(decimal_text(u64::MAX), "18446744073709551615");
    let mut out = String::from("n=");
    push_decimal(&mut out, 405);
    assert_eq!(out, "n=405");
}

#[test]
fn blocks_have_the_documented_shape() {
    let mut out = String::new();
    write_gml_node(&mut out, 12, "k");
    assert_eq!(out, "  node [\n    id 12\n    label \"k\"\n  ]\n");

    let mut out = String::new();
    write_gml_edge(&mut out, 3, 40, "e");
    assert_eq!(
        out,
        "  edge [\n    source 3\n    target 40\n    label \"e\"\n  ]\n"
    );

    let mut out = String::new();
    write_dot_node(&mut out, 5, "n");
    assert_eq!(out, "  5 [label=\"n\"]\n");

    let mut out = String::new();
    write_dot_edge(&mut out, 5, 6, "l");
    assert_eq!(out, "  5 -> 6 [label=\"l\"]\n");
}

#[test]
fn integer_indices_order_by_value_not_by_text() {
    type Edge = BasicEdge<BasicNode<usize>>;
    let mut graph = DirectedGraph::new(String::from("n"));
    graph.add_edge(&Edge::new(&10, &9, String::from("down")));
    let mut out = String::new();
    assert!(graph.dot_write(&mut out).is_ok());
    assert_eq!(
        out,
        "digraph {\n  0 [label=\"9\"]\n  1 [label=\"10\"]\n  1 -> 0 [label=\"down\"]\n}\n"
    );
}

#[test]
fn metadata_nodes_are_labelled_with_metadata_and_index() {
    type MetaNode = MetadataNode<usize, String>;
    type Edge = BasicEdge<MetaNode>;
    let mut graph = DirectedGraph::<Edge>::new(String::from("m"));
    graph.add_node(&MetaNode::new(&1, &String::from("first")));
    graph.add_edge(&Edge::new(&1, &2, String::from("e")));
    let mut out = String::new();
    assert!(graph.dot_write(&mut out).is_ok());
    assert_eq!(
        out,
        "digraph {\n  0 [label=\"first (1)\"]\n  1 [label=\" (2)\"]\n  0 -> 1 [label=\"e\"]\n}\n"
    );
}

use hashbrown::HashSet;
use lineage_graph::edge::basic_edge::BasicEdge;
use lineage_graph::edge::directed_edge::DirectedEdge;
use lineage_graph::error::GraphError;
use lineage_graph::graph::directed_graph::DirectedGraph;
use lineage_graph::node::basic_node::BasicNode;
use lineage_graph::node::Node;

type TestGraphNode = BasicNode<String>;
type TestGraphEdge = BasicEdge<TestGraphNode>;

fn as_set<'a>(items: Vec<&'a String>) -> HashSet<&'a String> {
    items.into_iter().collect()
}

#[test]
fn test_directed_graph_node() {
    let node_1_index = String::from("node_1");
    let no_such_node_sha1 = String::from("no_such_node");

    let mut graph = DirectedGraph::<TestGraphEdge>::new(String::from("test"));

    let node_1 = TestGraphNode::new(&node_1_index);
    graph.add_node(&node_1);

    assert_eq!(graph.get_node(&node_1_index), Some(&node_1));
    assert_eq!(graph.get_node(&no_such_node_sha1), None);
}

#[test]
fn test_directed_graph_edge() {
    let node_1_index = String::from("node_1");
    let node_2_index = String::from("node_2");
    let node_3_index = String::from("node_3");
    let node_4_index = String::from("node_4");
    let node_5_index = String::from("node_5");
    let no_such_node_sha1 = String::from("no_such_node");

    let mut graph = DirectedGraph::new(String::from("test"));
    /*
       (1)
       / \
     (2) (3)
          |
         (4)
          |
         (5)
    */
    graph.add_node(&TestGraphNode::new(&node_1_index));
    graph.add_node(&TestGraphNode::new(&node_2_index));
    graph.add_node(&TestGraphNode::new(&node_3_index));
    graph.add_node(&TestGraphNode::new(&node_4_index));
    graph.add_node(&TestGraphNode::new(&node_5_index));
    graph.add_edge(&TestGraphEdge::new(
        &node_1_index,
        &node_2_index,
        String::from("1->2"),
    ));
    graph.add_edge(&TestGraphEdge::new(
        &node_1_index,
        &node_3_index,
        String::from("1->3"),
    ));
    graph.add_edge(&TestGraphEdge::new(
        &node_3_index,
        &node_4_index,
        String::from("3->4"),
    ));
    graph.add_edge(&TestGraphEdge::new(
        &node_4_index,
        &node_5_index,
        String::from("4->5"),
    ));

    println!("[*] graph = {:#?}", graph);

    assert_eq!(graph.parent_of(&node_1_index), None);
    assert_eq!(graph.parent_of(&node_2_index), Some(&node_1_index));
    assert_eq!(graph.parent_of(&node_3_index), Some(&node_1_index));

    assert!(graph.are_on_the_path(&node_2_index, &node_1_index));
    assert!(graph.are_on_the_path(&node_5_index, &node_1_index));

    assert_eq!(graph.root_of(&node_1_index), Ok(&node_1_index));
    assert_eq!(graph.root_of(&node_4_index), Ok(&node_1_index));
    assert_eq!(graph.root_of(&node_5_index), Ok(&node_1_index));
    assert_eq!(
        graph.root_of(&no_such_node_sha1),
        Err(GraphError::NodeNotExists(no_such_node_sha1.clone()))
    );

    assert_eq!(
        graph.predecessors_of(&node_5_index),
        Ok(vec![&node_1_index, &node_3_index, &node_4_index])
    );

    assert_eq!(
        as_set(graph.leaves()),
        HashSet::from_iter(vec![&node_2_index, &node_5_index])
    );
    assert_eq!(
        graph.leaves_of(&node_1_index).map(as_set),
        Ok(HashSet::from_iter([&node_2_index, &node_5_index]))
    );
    assert_eq!(
        graph.leaves_of(&node_3_index).map(as_set),
        Ok(HashSet::from_iter([&node_5_index]))
    );

    assert_eq!(as_set(graph.roots()), HashSet::from_iter(vec![&node_1_index]));

    assert_eq!(graph.rank_of(&node_1_index), Ok(0));
    assert_eq!(graph.rank_of(&node_5_index), Ok(3));
}

#[test]
fn test_directed_graph_missing_explicit_node_decl() {
    let node_1_index = String::from("node_1");
    let node_2_index = String::from("node_2");
    let node_3_index = String::from("node_3");

    let mut graph = DirectedGraph::new(String::from("test"));
    /*
       (1)
       / \
     (2) (3)
    */
    graph.add_edge(&TestGraphEdge::new(
        &node_1_index,
        &node_2_index,
        String::from("1->2"),
    ));
    graph.add_edge(&TestGraphEdge::new(
        &node_1_index,
        &node_3_index,
        String::from("1->3"),
    ));

    assert_eq!(
        graph
            .nodes()
            .into_iter()
            .map(|v| v.index())
            .collect::<HashSet<&String>>(),
        HashSet::from_iter([&node_1_index, &node_2_index, &node_3_index])
    );

    assert_eq!(
        as_set(graph.leaves()),
        HashSet::from_iter(vec![&node_2_index, &node_3_index])
    );

    assert_eq!(as_set(graph.roots()), HashSet::from_iter(vec![&node_1_index]));
}

#[test]
fn test_directed_graph_cycle_graph() {
    let node_1_index = String::from("node_1");
    let node_2_index = String::from("node_2");
    let node_3_index = String::from("node_3");

    let mut graph = DirectedGraph::new(String::from("test"));
    /*
       (1)
       / \
     (2)-(3)
    */
    graph.add_edge(&TestGraphEdge::new(
        &node_1_index,
        &node_2_index,
        String::from("1->2"),
    ));
    graph.add_edge(&TestGraphEdge::new(
        &node_2_index,
        &node_3_index,
        String::from("2->3"),
    ));
    graph.add_edge(&TestGraphEdge::new(
        &node_3_index,
        &node_1_index,
        String::from("3->1"),
    ));

    assert_eq!(as_set(graph.roots()), HashSet::from_iter(vec![&node_1_index]));
    assert_eq!(graph.root_of(&node_2_index), Ok(&node_1_index));
    assert_eq!(graph.root_of(&node_3_index), Ok(&node_1_index));
}

#[test]
fn test_directed_graph_with_self_loop() {
    let node_1_index = String::from("node_1");
    let node_2_index = String::from("node_2");

    let mut graph = DirectedGraph::new(String::from("test"));
    /*
       (1)
        |
       (2)
     ↺
    */
    graph.add_edge(&TestGraphEdge::new(
        &node_1_index,
        &node_2_index,
        String::from("1->2"),
    ));
    graph.add_edge(&TestGraphEdge::new(
        &node_2_index,
        &node_2_index,
        String::from("2->2"),
    ));

    assert_eq!(graph.parent_of(&node_2_index), Some(&node_1_index));
}

#[test]
fn test_directed_graph_real_sample() {
    type Edge = BasicEdge<BasicNode<u64>>;

    let mut graph = DirectedGraph::new(String::from("test"));
    graph.add_edge(&Edge::new(&0x421493, &0x41c2d9, String::from("1")));
    graph.add_edge(&Edge::new(&0x41c2d9, &0x402566, String::from("2")));
    graph.add_edge(&Edge::new(&0x41c33c, &0x421493, String::from("3")));
}

#[test]
fn test_directed_graph_multi_root() {
    let node_1_index = String::from("node_1");
    let node_2_index = String::from("node_2");
    let node_3_index = String::from("node_3");

    let mut graph = DirectedGraph::new(String::from("test"));
    /*
      (1) (3)
        \ /
        (2)
    */
    graph.add_edge(&TestGraphEdge::new(
        &node_1_index,
        &node_2_index,
        String::from("1->2"),
    ));
    graph.add_edge(&TestGraphEdge::new(
        &node_3_index,
        &node_2_index,
        String::from("3->2"),
    ));

    assert!(graph.are_on_the_path(&node_2_index, &node_3_index));
}

#[test]
fn cycle_closing_edge_is_kept_as_weak_edge() {
    let one = String::from("node_1");
    let two = String::from("node_2");
    let three = String::from("node_3");

    let mut graph = DirectedGraph::new(String::from("test"));
    graph.add_edge(&TestGraphEdge::new(&one, &two, String::from("1->2")));
    graph.add_edge(&TestGraphEdge::new(&two, &three, String::from("2->3")));
    let closing = TestGraphEdge::new(&three, &one, String::from("3->1"));
    graph.add_edge(&closing);

    let key = DirectedEdge::<TestGraphEdge>::new(&three, &one);
    assert_eq!(graph.get_edge(&key), None);
    assert_eq!(graph.get_weak_edge(&key), Some(&closing));
    assert_eq!(graph.weak_edges(), vec![&closing]);
    assert_eq!(graph.edges().len(), 2);
    assert_eq!(graph.parent_of(&one), None);
}

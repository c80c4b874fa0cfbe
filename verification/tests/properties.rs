use lineage_graph::collections::ordered_key::OrderedKey;
use lineage_graph::collections::ordered_map::OrderedMap;
use lineage_graph::edge::basic_edge::BasicEdge;
use lineage_graph::edge::directed_edge::DirectedEdge;
use lineage_graph::edge::Edge;
use lineage_graph::error::GraphError;
use lineage_graph::graph::directed_graph::DirectedGraph;
use lineage_graph::graph::union_find_tree::UnionFindTree;
use lineage_graph::node::basic_node::BasicNode;
use lineage_graph::node::metadata_node::MetadataNode;
use lineage_graph::node::node_index::NodeIndex;
use lineage_graph::node::Node;

type N = BasicNode<usize>;
type E = BasicEdge<N>;

fn edge(p: usize, c: usize) -> E {
    E::new(&p, &c, format!("{}->{}", p, c))
}

fn chain() -> DirectedGraph<E> {
    let mut graph = DirectedGraph::new(String::from("chain"));
    graph.add_edge(&edge(1, 2));
    graph.add_edge(&edge(1, 3));
    graph.add_edge(&edge(3, 4));
    graph.add_edge(&edge(4, 5));
    graph
}

#[test]
fn every_walk_up_ends_within_the_number_of_nodes() {
    let mut graph = DirectedGraph::new(String::from("f"));
    let edges = [
        (1, 2), (2, 3), (3, 1), (4, 3), (3, 4), (5, 1), (1, 5), (2, 2), (6, 7), (7, 4), (4, 6),
        (5, 6), (8, 8), (3, 8), (8, 5),
    ];
    for (p, c) in edges {
        graph.add_edge(&edge(p, c));
        let count = graph.nodes().len();
        for node in graph.nodes() {
            let rank = graph.rank_of(node.index()).unwrap();
            assert!(rank < count);
            let top = graph.root_of(node.index()).unwrap();
            assert_eq!(graph.parent_of(top), None);
            assert_eq!(graph.predecessors_of(node.index()).unwrap().len(), rank);
        }
    }
}

#[test]
fn cycle_is_demoted() {
    let mut graph = DirectedGraph::new(String::from("c"));
    graph.add_edge(&edge(1, 2));
    graph.add_edge(&edge(2, 3));
    graph.add_edge(&edge(3, 1));
    assert_eq!(graph.roots(), vec![&1]);
    assert_eq!(graph.root_of(&2), Ok(&1));
    assert_eq!(graph.root_of(&3), Ok(&1));
    let key = DirectedEdge::<E>::new(&3, &1);
    assert!(graph.get_edge(&key).is_none());
    assert_eq!(graph.get_weak_edge(&key), Some(&edge(3, 1)));
    assert_eq!(graph.edges(), vec![&edge(1, 2), &edge(2, 3)]);
}

#[test]
fn self_loop_stays_out_of_the_indexes() {
    let mut graph = DirectedGraph::new(String::from("s"));
    graph.add_edge(&edge(2, 2));
    assert_eq!(graph.children_of(&2), Some(vec![]));
    assert_eq!(graph.parent_of(&2), None);
    assert!(graph.edges().is_empty());
    assert_eq!(graph.weak_edges(), vec![&edge(2, 2)]);
    graph.add_edge(&edge(1, 2));
    graph.add_edge(&edge(2, 2));
    assert_eq!(graph.children_of(&2), Some(vec![]));
    assert_eq!(graph.parent_of(&2), Some(&1));
    assert_eq!(graph.is_root(&2), Ok(false));
}

#[test]
fn edge_declares_its_ends() {
    let mut graph = DirectedGraph::new(String::from("i"));
    graph.add_edge(&edge(1, 2));
    assert_eq!(graph.nodes(), vec![&N::new(&1), &N::new(&2)]);
    assert_eq!(graph.get_node(&1), Some(&N::implicit_new(&1)));
    assert_eq!(graph.get_node(&3), None);
}

#[test]
fn implicit_node_has_default_metadata() {
    type M = MetadataNode<usize, usize>;
    type ME = BasicEdge<M>;
    let mut graph = DirectedGraph::<ME>::new(String::from("m"));
    graph.add_node(&M::new(&1, &77));
    graph.add_edge(&ME::new(&1, &2, String::from("e")));
    assert_eq!(graph.get_node(&1).map(|n| *n.metadata()), Some(77));
    assert_eq!(graph.get_node(&2).map(|n| *n.metadata()), Some(0));
    // last write wins
    graph.add_node(&M::new(&2, &5));
    assert_eq!(graph.get_node(&2).map(|n| *n.metadata()), Some(5));
    assert_eq!(graph.parent_of(&2), Some(&1));
    assert_eq!(graph.children_of(&1), Some(vec![&2]));
}

#[test]
fn ancestry_of_the_chain() {
    let graph = chain();
    assert_eq!(graph.predecessors_of(&5), Ok(vec![&1, &3, &4]));
    assert_eq!(graph.self_and_its_predecessors_of(&5), Ok(vec![&1, &3, &4, &5]));
    assert_eq!(graph.self_and_its_predecessors_of(&1), Ok(vec![&1]));
    assert_eq!(graph.rank_of(&5), Ok(3));
    assert_eq!(graph.rank_of(&1), Ok(0));
    assert_eq!(graph.leaves(), vec![&2, &5]);
    assert_eq!(graph.leaves_of(&3), Ok(vec![&5]));
    assert_eq!(graph.leaves_of(&1), Ok(vec![&2, &5]));
    assert_eq!(graph.leaves_of(&2), Ok(vec![&2]));
    assert_eq!(graph.children_of(&1), Some(vec![&2, &3]));
    assert_eq!(graph.children_of(&5), Some(vec![]));
    assert_eq!(graph.children_of(&9), None);
    assert_eq!(graph.is_root(&1), Ok(true));
    assert_eq!(graph.is_root(&4), Ok(false));
    assert!(graph.are_on_the_path(&5, &5));
    assert!(graph.are_on_the_path(&5, &3));
    assert!(!graph.are_on_the_path(&3, &5));
    assert!(!graph.are_on_the_path(&2, &3));
    assert!(graph.are_on_the_path(&42, &42));
    assert!(!graph.are_on_the_path(&42, &1));
}

#[test]
fn unknown_index_is_reported() {
    let graph = chain();
    let missing = || GraphError::<N>::NodeNotExists(9);
    assert_eq!(graph.root_of(&9), Err(missing()));
    assert_eq!(graph.rank_of(&9), Err(missing()));
    assert_eq!(graph.predecessors_of(&9), Err(missing()));
    assert_eq!(graph.self_and_its_predecessors_of(&9), Err(missing()));
    assert_eq!(graph.leaves_of(&9), Err(missing()));
    assert_eq!(graph.is_root(&9), Err(missing()));
    assert_ne!(missing(), GraphError::<N>::IoError(String::from("9")));
}

#[test]
fn second_parent_replaces_the_first() {
    let mut graph = DirectedGraph::new(String::from("r"));
    graph.add_edge(&edge(1, 2));
    graph.add_edge(&edge(3, 2));
    assert_eq!(graph.parent_of(&2), Some(&3));
    assert_eq!(graph.root_of(&2), Ok(&3));
    // both strong edges stay, and so do both children entries
    assert_eq!(graph.edges(), vec![&edge(1, 2), &edge(3, 2)]);
    assert_eq!(graph.children_of(&1), Some(vec![&2]));
    assert_eq!(graph.children_of(&3), Some(vec![&2]));
    assert_eq!(graph.roots(), vec![&1, &3]);
    assert_eq!(graph.leaves(), vec![&2]);
    assert_eq!(graph.leaves_of(&1), Ok(vec![]));
}

#[test]
fn repeated_edge_goes_to_the_weak_edges() {
    let mut graph = DirectedGraph::new(String::from("w"));
    graph.add_edge(&E::new(&1, &2, String::from("first")));
    graph.add_edge(&E::new(&1, &2, String::from("second")));
    let key = DirectedEdge::<E>::new(&1, &2);
    assert_eq!(graph.get_edge(&key).map(|e| e.label().clone()), Some(String::from("first")));
    assert_eq!(
        graph.get_weak_edge(&key).map(|e| e.label().clone()),
        Some(String::from("second"))
    );
    graph.add_edge(&E::new(&1, &2, String::from("third")));
    assert_eq!(
        graph.get_weak_edge(&key).map(|e| e.label().clone()),
        Some(String::from("third"))
    );
    assert_eq!(graph.weak_edges().len(), 1);
}

#[test]
fn weak_edge_declares_its_ends_and_nothing_else() {
    let mut graph = DirectedGraph::new(String::from("w"));
    graph.add_weak_edge(&edge(1, 2));
    assert_eq!(graph.nodes().len(), 2);
    assert_eq!(graph.parent_of(&2), None);
    assert_eq!(graph.children_of(&1), Some(vec![]));
    assert!(graph.edges().is_empty());
    assert_eq!(graph.roots(), vec![&1, &2]);
    assert_eq!(graph.leaves(), vec![&1, &2]);
}

#[test]
fn adding_a_node_twice_changes_nothing() {
    let mut graph = chain();
    graph.add_node(&N::new(&3));
    graph.add_node(&N::new(&3));
    assert_eq!(graph.nodes().len(), 5);
    assert_eq!(graph.children_of(&3), Some(vec![&4]));
    assert_eq!(graph.parent_of(&3), Some(&1));
}

#[test]
fn union_find_laws() {
    let mut tree = UnionFindTree::<N>::new();
    assert_eq!(tree.number_of_nodes(), 0);
    assert_eq!(tree.find(&7), 7);
    tree.unite(&5, &5);
    assert_eq!(tree.number_of_nodes(), 0);
    tree.unite(&5, &9);
    tree.unite(&9, &5);
    assert_eq!(tree.number_of_nodes(), 1);
    tree.unite(&9, &12);
    tree.unite(&3, &4);
    for x in 0..14usize {
        assert!(tree.same(&x, &x));
        for y in 0..14usize {
            assert_eq!(tree.same(&x, &y), tree.same(&y, &x));
            for z in 0..14usize {
                if tree.same(&x, &y) && tree.same(&y, &z) {
                    assert!(tree.same(&x, &z));
                }
            }
        }
    }
    assert!(tree.same(&5, &12));
    assert!(!tree.same(&5, &4));
    assert_eq!(tree.find(&12), 5);
    assert_eq!(tree.find(&4), 3);
    assert_eq!(tree.find(&100), 100);
    tree.unite(&12, &4);
    assert_eq!(tree.find(&12), 3);
    assert_eq!(tree.find(&9), 3);
    assert_eq!(tree.find(&5), 3);
    assert_eq!(tree.number_of_nodes(), 4);
}

#[test]
fn union_find_over_strings() {
    type S = BasicNode<String>;
    let mut tree = UnionFindTree::<S>::new();
    let pear = String::from("pear");
    let apple = String::from("apple");
    let fig = String::from("fig");
    tree.unite(&pear, &fig);
    assert_eq!(tree.find(&pear), fig);
    tree.unite(&pear, &apple);
    assert_eq!(tree.find(&pear), apple);
    assert_eq!(tree.find(&fig), apple);
}

#[test]
fn strings_order_by_code_point() {
    let a = String::from("a");
    let b = String::from("b");
    let ab = String::from("ab");
    let upper = String::from("B");
    let accented = String::from("\u{e9}");
    let empty = String::new();
    assert!(a.before(&b));
    assert!(!b.before(&a));
    assert!(!a.before(&a));
    assert!(a.before(&ab));
    assert!(ab.before(&b));
    assert!(upper.before(&a));
    assert!(b.before(&accented));
    assert!(empty.before(&a));
    assert!(!a.before(&empty));
    assert!(a.same(&String::from("a")));
    assert!(!a.same(&ab));
    assert_eq!(a.duplicate(), a);
}

#[test]
fn indices_print_and_default() {
    assert_eq!(42usize.to_text(), "42");
    assert_eq!(42u64.to_text(), "42");
    assert_eq!(String::from("x y").to_text(), "x y");
    assert_eq!(usize::default_index(), 0);
    assert_eq!(u64::default_index(), 0);
    assert_eq!(String::default_index(), "");
    assert!(3usize.before(&4));
    assert!(!4u64.before(&4));
    assert!(4u64.same(&4));
    assert_eq!(N::new(&8).to_text(), "8");
    assert_eq!(MetadataNode::<usize, String>::new(&8, &String::from("m")).to_text(), "m (8)");
}

#[test]
fn edge_keys_order_by_parent_then_child() {
    let small = DirectedEdge::<E>::new(&1, &9);
    let large = DirectedEdge::<E>::new(&2, &0);
    let larger = DirectedEdge::<E>::new(&2, &1);
    assert!(small.before(&large));
    assert!(large.before(&larger));
    assert!(!larger.before(&large));
    assert!(large.same(&DirectedEdge::from(&edge(2, 0))));
    assert_eq!(*small.parent(), 1);
    assert_eq!(*small.child(), 9);
    assert_eq!(small.duplicate(), small);
}

#[test]
fn ordered_map_keeps_ascending_order() {
    let mut map = OrderedMap::<usize, &str>::new();
    for (k, v) in [(5, "five"), (1, "one"), (9, "nine"), (3, "three"), (5, "cinq")] {
        map.insert(k, v);
    }
    assert_eq!(map.len(), 4);
    assert_eq!(map.values(), vec![&"one", &"three", &"cinq", &"nine"]);
    assert_eq!(map.get(&5), Some(&"cinq"));
    assert_eq!(map.get(&4), None);
    assert!(map.contains_key(&9));
    assert!(!map.contains_key(&0));
    assert_eq!(map.position(&9), Some(3));
    assert_eq!(map.position(&2), None);
    assert_eq!(*map.key_at(0), 1);
    assert_eq!(*map.value_at(1), "three");
}

#[test]
fn without_reparenting_a_second_parent_is_a_weak_edge() {
    let mut graph = DirectedGraph::with_policy(String::from("p"), true, false);
    graph.add_edge(&edge(1, 2));
    graph.add_edge(&edge(3, 2));
    assert_eq!(graph.parent_of(&2), Some(&1));
    assert_eq!(graph.root_of(&2), Ok(&1));
    assert_eq!(graph.edges(), vec![&edge(1, 2)]);
    assert_eq!(graph.weak_edges(), vec![&edge(3, 2)]);
    assert_eq!(graph.children_of(&3), Some(vec![]));
    assert_eq!(graph.children_of(&1), Some(vec![&2]));
    assert_eq!(graph.roots(), vec![&1, &3]);
    // a node without a parent still gets one
    graph.add_edge(&edge(3, 1));
    assert_eq!(graph.parent_of(&1), Some(&3));
    assert_eq!(graph.root_of(&2), Ok(&3));
    assert_eq!(graph.leaves_of(&3), Ok(vec![&2]));
}

#[test]
fn without_indexes_only_nodes_and_edges_are_kept() {
    let mut graph = DirectedGraph::with_policy(String::from("plain"), false, true);
    graph.add_node(&N::new(&7));
    graph.add_edge(&edge(1, 2));
    graph.add_edge(&edge(2, 1));
    graph.add_edge(&edge(2, 2));
    assert_eq!(graph.nodes().len(), 3);
    assert_eq!(graph.edges(), vec![&edge(1, 2), &edge(2, 1)]);
    assert_eq!(graph.weak_edges(), vec![&edge(2, 2)]);
    assert_eq!(graph.parent_of(&2), None);
    assert_eq!(graph.children_of(&1), None);
    assert_eq!(graph.root_of(&2), Ok(&2));
    assert_eq!(graph.rank_of(&2), Ok(0));
    assert_eq!(graph.leaves(), Vec::<&usize>::new());
    assert_eq!(graph.roots(), vec![&1, &2, &7]);
    assert_eq!(graph.root_of(&9), Err(GraphError::NodeNotExists(9)));
    let mut out = String::new();
    assert!(graph.dot_write(&mut out).is_ok());
    assert_eq!(
        out,
        "digraph {\n  0 [label=\"1\"]\n  1 [label=\"2\"]\n  2 [label=\"7\"]\n  0 -> 1 [label=\"1->2\"]\n  1 -> 0 [label=\"2->1\"]\n}\n"
    );
}

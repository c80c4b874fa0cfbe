use lineage_graph::graph::union_find_tree::UnionFindTree;
use lineage_graph::node::basic_node::BasicNode;
use lineage_graph::node::Node;

#[test]
fn test_union_find_tree() {
    let node_1 = BasicNode::<usize>::new(&1);
    let node_2 = BasicNode::<usize>::new(&2);
    let node_3 = BasicNode::<usize>::new(&3);
    let node_4 = BasicNode::<usize>::new(&4);

    #[allow(non_snake_case)]
    let mut T = UnionFindTree::<BasicNode<usize>>::new();

    // Graph updates
    assert_eq!(T.unite(&node_1.index(), &node_2.index()), ());
    assert_eq!(T.unite(&node_1.index(), &node_3.index()), ());
    assert_eq!(T.unite(&node_2.index(), &node_3.index()), ()); // Make a cycle

    // Introspection
    assert_eq!(T.find(&node_2.index()), 1);
    assert_eq!(T.find(&node_4.index()), 4);
    assert_eq!(T.same(&node_2.index(), &node_3.index()), true);
    assert_eq!(T.same(&node_1.index(), &node_4.index()), false);
}

#[test]
fn test_union_find_tree_reversed() {
    let node_1 = BasicNode::<usize>::new(&1);
    let node_2 = BasicNode::<usize>::new(&2);
    let node_3 = BasicNode::<usize>::new(&3);

    #[allow(non_snake_case)]
    let mut T = UnionFindTree::<BasicNode<usize>>::new();

    // Graph updates
    assert_eq!(T.unite(&node_2.index(), &node_1.index()), ());
    assert_eq!(T.unite(&node_3.index(), &node_1.index()), ());
    assert_eq!(T.unite(&node_3.index(), &node_2.index()), ()); // Make a cycle

    // Introspection
    assert_eq!(T.find(&node_2.index()), 1);
    assert_eq!(T.same(&node_2.index(), &node_3.index()), true);
}

use a_star::graph::{GraphError, WeightedDirectedGraph};

#[test]
fn test_graph() {
    let mut graph = WeightedDirectedGraph::<&str>::new();

    // Add some vertices
    assert!(graph.add_vertex("one").is_ok());
    assert!(graph.add_vertex("two").is_ok());
    assert!(graph.add_vertex("three").is_ok());
    assert!(graph.add_vertex("five").is_ok());
    assert!(graph.add_vertex("six").is_ok());

    // Add some edges
    assert!(graph.add_edge("two", "one", 3).is_ok());
    assert!(graph.add_edge("three", "two", 4).is_ok());
    assert!(graph.add_edge("three", "five", 2).is_ok());
    assert!(graph.add_edge("one", "five", 1).is_ok());

    // Add some bad edges
    assert!(graph.add_edge("two", "four", 3).is_err());
    assert!(graph.add_edge("four", "two", 3).is_err());

    // Get neighbors
    assert_eq!(graph.get_neighbors("one"), vec![("five", 1)]);
    assert_eq!(graph.get_neighbors("three"), vec![("two", 4), ("five", 2)]);
    assert_eq!(graph.get_neighbors("two"), vec![("one", 3)]);
    assert_eq!(graph.get_neighbors("six"), vec![]);

    // Test get_weight
    assert_eq!(graph.get_weight("two", "one").unwrap(), vec![("one", 3)]);
    assert!(graph.get_weight("five", "one").is_err()); // No edge exists
}

#[test]
fn test_graph_error_variants() {
    let mut graph = WeightedDirectedGraph::<&str>::new();
    assert!(graph.add_vertex("a").is_ok());
    assert!(graph.add_vertex("b").is_ok());

    assert_eq!(
        graph.add_vertex("a").unwrap_err(),
        GraphError::VertexAlreadyExists
    );
    assert_eq!(
        graph.add_edge("missing", "b", 1).unwrap_err(),
        GraphError::FromNotFound
    );
    assert_eq!(
        graph.add_edge("a", "missing", 1).unwrap_err(),
        GraphError::ToNotFound
    );
    assert_eq!(
        graph.get_weight("a", "b").unwrap_err(),
        GraphError::EdgeNotFound
    );
    assert_eq!(
        graph.get_weight("missing", "b").unwrap_err(),
        GraphError::FromNotFound
    );
    assert_eq!(
        graph.get_weight("a", "missing").unwrap_err(),
        GraphError::ToNotFound
    );
}

#[test]
fn test_graph_full() {
    // the underlying table has 101 slots
    let mut graph = WeightedDirectedGraph::<u64>::new();
    for v in 0..101u64 {
        assert!(graph.add_vertex(v).is_ok());
    }
    assert_eq!(graph.add_vertex(101).unwrap_err(), GraphError::GraphFull);
    assert!(graph.contains_vertex(&0));
    assert!(!graph.contains_vertex(&101));
}

#[test]
fn test_add_edge_is_directed() {
    // add_edge(a, b, w) makes (b, w) appear among a's neighbors but adds no
    // reverse edge, and a failed add_edge leaves the graph unchanged
    let mut graph = WeightedDirectedGraph::<&str>::new();
    assert!(graph.add_vertex("a").is_ok());
    assert!(graph.add_vertex("b").is_ok());
    assert!(graph.add_edge("a", "b", 7).is_ok());
    assert_eq!(graph.get_neighbors("a"), vec![("b", 7)]);
    assert_eq!(graph.get_neighbors("b"), vec![]);

    assert!(graph.add_edge("a", "zzz", 1).is_err());
    assert_eq!(graph.get_neighbors("a"), vec![("b", 7)]);

    // parallel edges and self-loops are retained
    assert!(graph.add_edge("a", "b", 9).is_ok());
    assert!(graph.add_edge("a", "a", 0).is_ok());
    assert_eq!(graph.get_neighbors("a"), vec![("b", 7), ("b", 9), ("a", 0)]);
    assert_eq!(graph.get_weight("a", "b").unwrap(), vec![("b", 7), ("b", 9)]);
}

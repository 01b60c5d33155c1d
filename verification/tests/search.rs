use a_star::graph::{GraphError, WeightedDirectedGraph};
use a_star::isqrt;
use a_star::location::Location;
use a_star::search::{a_star, heuristic, AStarError};

fn place(name: &str, lat: u32, long: u32) -> Location {
    Location {
        name: name.to_string(),
        lat,
        long,
    }
}

fn create_graph(
    locations: &Vec<Location>,
    roads: Vec<(usize, usize, u64)>,
) -> Result<WeightedDirectedGraph<Location>, GraphError> {
    let mut graph = WeightedDirectedGraph::<Location>::new();

    // Add our vertices
    for loc in locations {
        graph.add_vertex(loc.clone())?;
    }

    // Add edges
    for (from_idx, to_idx, distance) in roads {
        let from_loc = locations[from_idx].clone();
        let to_loc = locations[to_idx].clone();
        graph.add_edge(from_loc, to_loc, distance)?;
    }

    Ok(graph)
}

#[test]
fn test_create_graph_with_edges() {
    // Create test locations - we'll use planets
    let locations = vec![
        place("Mercury", 0, 0),
        place("Venus", 10, 5),
        place("Earth", 15, 10),
    ];

    // Define space routes by index: (from_idx, to_idx, distance)
    let roads = vec![
        (0, 1, 50),  // Mercury -> Venus
        (0, 2, 100), // Mercury -> Earth
        (1, 0, 50),  // Venus -> Mercury
        (1, 2, 40),  // Venus -> Earth
        (2, 1, 40),  // Earth -> Venus
    ];

    // Create graph with edges
    let graph = create_graph(&locations, roads).unwrap();

    // Verify edges exist
    let mercury_neighbors = graph.get_neighbors(locations[0].clone());
    assert_eq!(
        mercury_neighbors.len(),
        2,
        "Mercury should have 2 outgoing routes"
    );
    assert!(
        mercury_neighbors
            .iter()
            .any(|(loc, weight)| loc.name == "Venus" && *weight == 50),
        "Mercury should have route to Venus"
    );
    assert!(
        mercury_neighbors
            .iter()
            .any(|(loc, weight)| loc.name == "Earth" && *weight == 100),
        "Mercury should have route to Earth"
    );

    // Verify Venus neighbors
    let venus_neighbors = graph.get_neighbors(locations[1].clone());
    assert_eq!(
        venus_neighbors.len(),
        2,
        "Venus should have 2 outgoing routes"
    );
    assert!(
        venus_neighbors
            .iter()
            .any(|(loc, weight)| loc.name == "Mercury" && *weight == 50),
        "Venus should have route to Mercury"
    );
    assert!(
        venus_neighbors
            .iter()
            .any(|(loc, weight)| loc.name == "Earth" && *weight == 40),
        "Venus should have route to Earth"
    );
}

#[test]
fn test_create_graph_bidirectional() {
    let locations = vec![place("Mars", 0, 0), place("Jupiter", 20, 15)];

    let roads = vec![
        (0, 1, 200), // Mars -> Jupiter
        (1, 0, 200), // Jupiter -> Mars
    ];

    let graph = create_graph(&locations, roads).unwrap();

    // Verify bidirectional routes
    let mars_neighbors = graph.get_neighbors(locations[0].clone());
    assert_eq!(mars_neighbors.len(), 1, "Mars should have 1 outgoing route");
    assert!(
        mars_neighbors.iter().any(|(loc, _)| *loc == locations[1]),
        "Mars should have route to Jupiter"
    );

    let jupiter_neighbors = graph.get_neighbors(locations[1].clone());
    assert_eq!(
        jupiter_neighbors.len(),
        1,
        "Jupiter should have 1 outgoing route"
    );
    assert!(
        jupiter_neighbors.iter().any(|(loc, _)| *loc == locations[0]),
        "Jupiter should have route to Mars"
    );
}

#[test]
fn test_create_graph_hub() {
    // Test a hub (Sun) connected to multiple planets
    let locations = vec![
        place("Sun", 0, 0),
        place("Mercury", 5, 0),
        place("Venus", 10, 0),
        place("Earth", 15, 0),
    ];

    // Sun connects to all planets
    let roads = vec![
        (0, 1, 58),  // Sun -> Mercury
        (0, 2, 108), // Sun -> Venus
        (0, 3, 150), // Sun -> Earth
    ];

    let graph = create_graph(&locations, roads).unwrap();

    let sun_neighbors = graph.get_neighbors(locations[0].clone());
    assert_eq!(sun_neighbors.len(), 3, "Sun should have 3 outgoing routes");

    // Verify each planet route
    assert!(sun_neighbors
        .iter()
        .any(|(loc, weight)| loc.name == "Mercury" && *weight == 58));
    assert!(sun_neighbors
        .iter()
        .any(|(loc, weight)| loc.name == "Venus" && *weight == 108));
    assert!(sun_neighbors
        .iter()
        .any(|(loc, weight)| loc.name == "Earth" && *weight == 150));
}

#[test]
fn test_heuristic() {
    let loc1 = place("A", 0, 0);
    let loc2 = place("B", 3, 4);

    // Distance should be 5 (3-4-5 triangle)
    let dist = heuristic(&loc2, &loc1);
    assert_eq!(dist, 5);
}

#[test]
fn test_a_star() {
    // Test A* on a realistic 5-node graph with multiple paths
    let locations = vec![
        place("A", 0, 0),
        place("B", 5, 0),
        place("C", 10, 0),
        place("D", 5, 5),
        place("E", 10, 5),
    ];

    let roads = vec![
        (0, 1, 5), // A -> B
        (1, 0, 5), // B -> A
        (1, 2, 5), // B -> C
        (2, 1, 5), // C -> B
        (0, 3, 8), // A -> D
        (3, 0, 8), // D -> A
        (3, 4, 7), // D -> E
        (4, 3, 7), // E -> D
        (4, 2, 5), // E -> C
        (2, 4, 5), // C -> E
        (1, 3, 6), // B -> D
        (3, 1, 6), // D -> B
    ];

    let graph = create_graph(&locations, roads).unwrap();

    // Test path from A to C
    let path = a_star(&graph, locations[0].clone(), locations[2].clone()).unwrap();

    // Debug print
    println!("Path found:");
    for node in &path {
        println!("{} -> ", node.name);
    }

    // Shortest path should be A -> B -> C (total cost: 10)
    assert_eq!(path.len(), 3, "Expected 3 nodes but got {}", path.len());

    // Shortest path should be A -> B -> C (total cost: 10)
    assert_eq!(path.len(), 3);
    assert_eq!(path[0].name, "A");
    assert_eq!(path[1].name, "B");
    assert_eq!(path[2].name, "C");

    // Test path from A to E
    let path2 = a_star(&graph, locations[0].clone(), locations[4].clone()).unwrap();

    // Valid optimal paths:
    // 1. A -> B -> C -> E (4 nodes, cost 15)
    // 2. A -> D -> E      (3 nodes, cost 15)

    // Must start at A and end at E
    assert_eq!(path2.first().unwrap().name, "A");
    assert_eq!(path2.last().unwrap().name, "E");

    // Path must be either 3 or 4 nodes
    assert!(path2.len() == 3 || path2.len() == 4);

    // Check validity more precisely:
    let names: Vec<_> = path2.iter().map(|l| l.name.as_str()).collect();

    let valid1 = names == ["A", "D", "E"];
    let valid2 = names == ["A", "B", "C", "E"];

    assert!(
        valid1 || valid2,
        "Path must be one of the optimal paths A-D-E or A-B-C-E. Got: {:?}",
        names
    );
}

#[test]
fn test_a_star_simple_path() {
    let locations = vec![
        place("Mercury", 0, 0),
        place("Venus", 10, 5),
        place("Earth", 15, 10),
    ];

    let roads = vec![
        (0, 1, 50), // Mercury -> Venus
        (1, 2, 40), // Venus -> Earth
    ];

    let graph = create_graph(&locations, roads).unwrap();
    let path = a_star(&graph, locations[0].clone(), locations[2].clone()).unwrap();

    assert_eq!(path.len(), 3);
    assert_eq!(path[0].name, "Mercury");
    assert_eq!(path[1].name, "Venus");
    assert_eq!(path[2].name, "Earth");
}

#[test]
fn test_a_star_optimal_path() {
    // Test that A* finds the shorter path when multiple paths exist
    let locations = vec![
        place("Start", 0, 0),
        place("Middle", 10, 0),
        place("End", 20, 0),
    ];

    let roads = vec![
        (0, 1, 10), // Start -> Middle (10)
        (1, 2, 10), // Middle -> End (10)
        (0, 2, 15), // Start -> End (15, direct but longer)
    ];

    let graph = create_graph(&locations, roads).unwrap();
    let path = a_star(&graph, locations[0].clone(), locations[2].clone()).unwrap();

    // Should take direct path (15) over two-hop path (20)
    assert_eq!(path.len(), 2);
    assert_eq!(path[0].name, "Start");
    assert_eq!(path[1].name, "End");
}

#[test]
fn test_a_star_no_path() {
    let locations = vec![place("Island1", 0, 0), place("Island2", 100, 100)];

    // No edges between them
    let roads = vec![];

    let graph = create_graph(&locations, roads).unwrap();
    let result = a_star(&graph, locations[0].clone(), locations[1].clone());

    assert!(result.is_err());
}

#[test]
fn test_a_star_shortcut_beats_two_hops() {
    // A(0,0), B(5,0), C(10,0) with A->B 10, B->C 10, A->C 15: the direct
    // edge of cost 15 beats the two-hop cost of 20
    let locations = vec![place("A", 0, 0), place("B", 5, 0), place("C", 10, 0)];
    let roads = vec![(0, 1, 10), (1, 2, 10), (0, 2, 15)];
    let graph = create_graph(&locations, roads).unwrap();
    let path = a_star(&graph, locations[0].clone(), locations[2].clone()).unwrap();
    let names: Vec<_> = path.iter().map(|l| l.name.as_str()).collect();
    assert_eq!(names, ["A", "C"]);
}

#[test]
fn test_a_star_disconnected_fails() {
    // disconnected vertices: the search reports NoPathFound
    let locations = vec![place("X", 0, 0), place("Y", 3, 4)];
    let graph = create_graph(&locations, vec![]).unwrap();
    let result = a_star(&graph, locations[0].clone(), locations[1].clone());
    assert_eq!(result.unwrap_err(), AStarError::NoPathFound);
}

#[test]
fn test_a_star_invalid_endpoints() {
    let locations = vec![place("Here", 0, 0)];
    let graph = create_graph(&locations, vec![]).unwrap();
    let stranger = place("Elsewhere", 9, 9);
    let result = a_star(&graph, locations[0].clone(), stranger.clone());
    assert_eq!(result.unwrap_err(), AStarError::InvalidStartOrGoal);
    let result2 = a_star(&graph, stranger, locations[0].clone());
    assert_eq!(result2.unwrap_err(), AStarError::InvalidStartOrGoal);
}

#[test]
fn test_a_star_start_is_goal() {
    let locations = vec![place("Home", 2, 3)];
    let graph = create_graph(&locations, vec![]).unwrap();
    let path = a_star(&graph, locations[0].clone(), locations[0].clone()).unwrap();
    assert_eq!(path.len(), 1);
    assert_eq!(path[0].name, "Home");
}

#[test]
fn test_isqrt_exact() {
    assert_eq!(isqrt(0), 0);
    assert_eq!(isqrt(1), 1);
    assert_eq!(isqrt(24), 4);
    assert_eq!(isqrt(25), 5);
    assert_eq!(isqrt(26), 5);
    assert_eq!(isqrt(u64::MAX as u128), 4294967295);
}

use movie::graph::GraphError;
use movie::graph::MovieGraph;

/// The sample graph used across the tests.
fn create_test_graph() -> MovieGraph {
    let mut graph = MovieGraph::new();

    graph.add_edge("Tom Hanks".to_string(), "Meg Ryan".to_string());
    graph.add_edge("Meg Ryan".to_string(), "Billy Crystal".to_string());
    graph.add_edge("Billy Crystal".to_string(), "Lisa Kudrow".to_string());
    graph.add_edge("Tom Hanks".to_string(), "Kevin Bacon".to_string());

    graph
}

/// The adjacency entry of one actor in a `get_adj_list` snapshot.
fn neighbors<'a>(adj: &'a [(String, Vec<String>)], name: &str) -> Option<&'a Vec<String>> {
    adj.iter().find(|(n, _)| n == name).map(|(_, row)| row)
}

#[test]
fn test_movie_graph_creation() {
    let graph = create_test_graph();
    let adj_list = graph.get_adj_list();

    assert_eq!(graph.num_vertices(), 5);
    assert_eq!(graph.num_edges(), 4);

    assert!(neighbors(&adj_list, "Tom Hanks")
        .unwrap()
        .contains(&"Meg Ryan".to_string()));
    assert!(neighbors(&adj_list, "Tom Hanks")
        .unwrap()
        .contains(&"Kevin Bacon".to_string()));
}

#[test]
fn test_bfs_path_exists() {
    let graph = create_test_graph();

    let path = graph
        .bfs(&"Tom Hanks".to_string(), &"Lisa Kudrow".to_string())
        .unwrap();
    assert_eq!(
        path,
        vec!["Tom Hanks", "Meg Ryan", "Billy Crystal", "Lisa Kudrow"]
    );
}

#[test]
fn test_bfs_path_not_exists() {
    let graph = create_test_graph();

    let path = graph.bfs(&"Leonardo DiCaprio".to_string(), &"Meryl Streep".to_string());
    assert!(path.is_err());
    assert_eq!(path, Err(GraphError::VertexNotFound));
}

#[test]
fn test_bfs_same_actor() {
    let graph = create_test_graph();

    let path = graph
        .bfs(&"Tom Hanks".to_string(), &"Tom Hanks".to_string())
        .unwrap();
    assert_eq!(path, vec!["Tom Hanks"]);
}

#[test]
fn test_add_edge_new() {
    let mut graph = MovieGraph::new();

    graph.add_edge("Tom Hanks".to_string(), "Meg Ryan".to_string());

    let adj_list = graph.get_adj_list();
    assert!(neighbors(&adj_list, "Tom Hanks")
        .unwrap()
        .contains(&"Meg Ryan".to_string()));
    assert!(neighbors(&adj_list, "Meg Ryan")
        .unwrap()
        .contains(&"Tom Hanks".to_string()));
}

#[test]
fn test_add_edge_existing() {
    let mut graph = create_test_graph();

    graph.add_edge("Meg Ryan".to_string(), "Kevin Bacon".to_string());

    let adj_list = graph.get_adj_list();
    assert!(neighbors(&adj_list, "Meg Ryan")
        .unwrap()
        .contains(&"Kevin Bacon".to_string()));
    assert!(neighbors(&adj_list, "Kevin Bacon")
        .unwrap()
        .contains(&"Meg Ryan".to_string()));
}

#[test]
fn duplicate_edges_are_counted_once() {
    let mut graph = MovieGraph::new();
    graph.add_edge("A".to_string(), "B".to_string());
    graph.add_edge("B".to_string(), "A".to_string());
    graph.add_edge("A".to_string(), "B".to_string());
    assert_eq!(graph.num_vertices(), 2);
    assert_eq!(graph.num_edges(), 1);
}

#[test]
fn self_edge_adds_vertex_but_no_loop() {
    let mut graph = MovieGraph::new();
    graph.add_edge("A".to_string(), "A".to_string());
    assert_eq!(graph.num_vertices(), 1);
    assert_eq!(graph.num_edges(), 0);
    assert_eq!(graph.degree(&"A".to_string()), Some(0));
}

#[test]
fn degree_distinguishes_unknown_from_isolated() {
    let graph = create_test_graph();
    assert_eq!(graph.degree(&"Tom Hanks".to_string()), Some(2));
    assert_eq!(graph.degree(&"Lisa Kudrow".to_string()), Some(1));
    assert_eq!(graph.degree(&"Nobody".to_string()), None);
}

#[test]
fn has_vertex_and_has_edge() {
    let graph = create_test_graph();
    assert!(graph.has_vertex(&"Meg Ryan".to_string()));
    assert!(!graph.has_vertex(&"Nobody".to_string()));
    assert!(graph.has_edge(&"Tom Hanks".to_string(), &"Meg Ryan".to_string()));
    assert!(graph.has_edge(&"Meg Ryan".to_string(), &"Tom Hanks".to_string()));
    assert!(!graph.has_edge(&"Tom Hanks".to_string(), &"Lisa Kudrow".to_string()));
}

#[test]
fn disconnected_pair_reports_no_path() {
    let mut graph = create_test_graph();
    graph.add_edge("Ingrid Bergman".to_string(), "Humphrey Bogart".to_string());

    let path = graph.bfs(&"Tom Hanks".to_string(), &"Ingrid Bergman".to_string());
    assert_eq!(path, Err(GraphError::NoPathFound));
}

#[test]
fn missing_vertex_is_not_no_path() {
    let graph = create_test_graph();
    let missing = graph.bfs(&"Tom Hanks".to_string(), &"Nobody".to_string());
    assert_eq!(missing, Err(GraphError::VertexNotFound));
    assert_ne!(missing, Err(GraphError::NoPathFound));
}

#[test]
fn bfs_returns_shortest_of_two_routes() {
    let mut graph = MovieGraph::new();
    // Two routes from A to D: A-B-D with two edges, A-C-E-D with three.
    graph.add_edge("A".to_string(), "B".to_string());
    graph.add_edge("B".to_string(), "D".to_string());
    graph.add_edge("A".to_string(), "C".to_string());
    graph.add_edge("C".to_string(), "E".to_string());
    graph.add_edge("E".to_string(), "D".to_string());

    let path = graph.bfs(&"A".to_string(), &"D".to_string()).unwrap();
    assert_eq!(path, vec!["A", "B", "D"]);
}

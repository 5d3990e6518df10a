use movie::graph::MovieGraph;
use movie::sample::sample_pairs;

fn fixture_graph() -> MovieGraph {
    let lines = vec![
        "You've Got Mail,Tom Hanks;Meg Ryan".to_string(),
        "When Harry Met Sally,Meg Ryan;Billy Crystal".to_string(),
        "Analyze That,Billy Crystal;Lisa Kudrow".to_string(),
        "Apollo 13,Tom Hanks;Kevin Bacon".to_string(),
    ];
    MovieGraph::from_records(&lines).0
}

#[test]
fn sample_pairs_stay_below_limit() {
    let pairs = sample_pairs(7, 50, 3);
    assert_eq!(pairs.len(), 50);
    assert!(pairs.iter().all(|&(a, b)| a < 3 && b < 3));
    // With a limit of one there is only one id to draw.
    let ones = sample_pairs(7, 10, 1);
    assert!(ones.iter().all(|&(a, b)| a == 0 && b == 0));
}

#[test]
fn sample_pairs_vary_with_the_generator() {
    // A generator that ignored its state would repeat one pair forever.
    let pairs = sample_pairs(42, 100, 1000);
    let first = pairs[0];
    assert!(pairs.iter().any(|&p| p != first));
}

#[test]
fn average_stats_count_connected_pairs_exactly() {
    let graph = fixture_graph();
    // Ids follow first appearance: Tom Hanks 0, Meg Ryan 1, Billy Crystal 2,
    // Lisa Kudrow 3, Kevin Bacon 4. All pairs are connected here.
    let pairs = vec![(0usize, 3usize), (0, 0), (3, 4)];
    let (total, succ) = graph.average_path_stats(&pairs);
    // Distances: 3 (via Meg Ryan and Billy Crystal), 0, and 4.
    assert_eq!(succ, 3);
    assert_eq!(total, 7);
}

#[test]
fn average_stats_skip_disconnected_pairs() {
    let mut graph = fixture_graph();
    graph.add_edge("Ingrid Bergman".to_string(), "Humphrey Bogart".to_string());
    // Id 5 is Ingrid Bergman, in a separate component from id 0.
    let pairs = vec![(0usize, 5usize), (0, 1), (5, 6)];
    let (total, succ) = graph.average_path_stats(&pairs);
    assert_eq!(succ, 2);
    assert_eq!(total, 2);
}

#[test]
fn sampling_with_one_seed_is_reproducible() {
    let graph = fixture_graph();
    let first = graph.sampled_path_stats(12345, 100);
    let second = graph.sampled_path_stats(12345, 100);
    assert_eq!(first, second);

    let (total, succ) = first;
    let average = if succ == 0 {
        0.0
    } else {
        total as f64 / succ as f64
    };
    let (total2, succ2) = second;
    let average2 = if succ2 == 0 {
        0.0
    } else {
        total2 as f64 / succ2 as f64
    };
    assert_eq!(average, average2);
    assert!(succ <= 100);
}

#[test]
fn sampling_an_empty_graph_is_zero() {
    let graph = MovieGraph::new();
    assert_eq!(graph.sampled_path_stats(9, 100), (0, 0));
}

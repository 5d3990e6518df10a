use movie::graph::MovieGraph;
use movie::records::parse_record;

fn fixture_lines() -> Vec<String> {
    vec![
        "You've Got Mail,Tom Hanks;Meg Ryan".to_string(),
        "When Harry Met Sally,Meg Ryan;Billy Crystal".to_string(),
        "Analyze That,Billy Crystal;Lisa Kudrow".to_string(),
        "Apollo 13,Tom Hanks;Kevin Bacon".to_string(),
    ]
}

#[test]
fn fixture_builds_expected_graph() {
    let (graph, skipped) = MovieGraph::from_records(&fixture_lines());
    assert_eq!(skipped, 0);
    assert_eq!(graph.num_vertices(), 5);
    assert_eq!(graph.num_edges(), 4);

    let path = graph
        .bfs(&"Tom Hanks".to_string(), &"Lisa Kudrow".to_string())
        .unwrap();
    assert_eq!(
        path,
        vec!["Tom Hanks", "Meg Ryan", "Billy Crystal", "Lisa Kudrow"]
    );
}

#[test]
fn parse_record_splits_title_and_cast() {
    let cast = parse_record("Apollo 13,Tom Hanks;Kevin Bacon;Bill Paxton").unwrap();
    assert_eq!(cast, vec!["Tom Hanks", "Kevin Bacon", "Bill Paxton"]);
}

#[test]
fn parse_record_trims_whitespace() {
    let cast = parse_record("  Apollo 13  ,  Tom Hanks  ;  Kevin Bacon ").unwrap();
    assert_eq!(cast, vec!["Tom Hanks", "Kevin Bacon"]);
}

#[test]
fn parse_record_uses_field_between_first_and_second_comma() {
    let cast = parse_record("Title,Alpha;Beta,ignored;also ignored").unwrap();
    assert_eq!(cast, vec!["Alpha", "Beta"]);
}

#[test]
fn parse_record_rejects_malformed_lines() {
    assert!(parse_record("no comma at all").is_none());
    assert!(parse_record("   ,Tom Hanks;Meg Ryan").is_none());
    assert!(parse_record("Apollo 13,  ;  ").is_none());
    assert!(parse_record("").is_none());
}

#[test]
fn malformed_lines_are_skipped_and_counted() {
    let lines = vec![
        "You've Got Mail,Tom Hanks;Meg Ryan".to_string(),
        "garbage line without a comma".to_string(),
        ",Orphaned Cast;Nobody".to_string(),
        "Apollo 13,Tom Hanks;Kevin Bacon".to_string(),
    ];
    let (graph, skipped) = MovieGraph::from_records(&lines);
    assert_eq!(skipped, 2);
    assert_eq!(graph.num_vertices(), 3);
    assert_eq!(graph.num_edges(), 2);
    assert!(!graph.has_vertex(&"Orphaned Cast".to_string()));
}

#[test]
fn single_member_cast_adds_no_vertex() {
    let lines = vec!["One Man Show,Lonely Actor".to_string()];
    let (graph, skipped) = MovieGraph::from_records(&lines);
    assert_eq!(skipped, 0);
    assert_eq!(graph.num_vertices(), 0);
    assert_eq!(graph.num_edges(), 0);
}

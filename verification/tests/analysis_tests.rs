use ledger::database::{get_number_of_nodes, load_vertices_from_database};
use ledger::errors::GraphError;
use ledger::graph::Graph;
use ledger::vertex::Vertex;

fn lines_of(strs: &[&str]) -> Vec<String> {
    strs.iter().map(|s| s.to_string()).collect()
}

#[test]
fn number_of_nodes_parses_plain_count() {
    assert_eq!(get_number_of_nodes("42"), Ok(42));
    assert_eq!(get_number_of_nodes("0"), Ok(0));
}

#[test]
fn number_of_nodes_rejects_garbage() {
    let err = get_number_of_nodes("abc").expect_err("parsing error");
    assert!(err.message().contains("unable to parse the number of nodes"), "{}", err.message());
}

#[test]
fn load_prepends_synthetic_root() {
    let lines = lines_of(&["2", "0 1 7", "1 0 9"]);
    let vertices = load_vertices_from_database(&lines).expect("shouldn't fail");
    assert_eq!(3, vertices.len());
    assert_eq!(Vertex { left: None, right: None, timestamp: 0 }, vertices[0]);
    assert_eq!(Vertex { left: Some(0), right: Some(1), timestamp: 7 }, vertices[1]);
    assert_eq!(Vertex { left: Some(1), right: Some(0), timestamp: 9 }, vertices[2]);
}

#[test]
fn load_reports_count_mismatch_with_both_numbers() {
    let lines = lines_of(&["3", "0 0 1", "0 0 2"]);
    let err = load_vertices_from_database(&lines).expect_err("should fail");
    assert_eq!(err, GraphError::CountMismatch { actual: 2, declared: 3 });
    let msg = err.message();
    assert!(msg.contains("2"), "{msg}");
    assert!(msg.contains("3"), "{msg}");
    assert!(msg.contains("isn't equal to the number declared"), "{msg}");
}

#[test]
fn load_reports_first_bad_row() {
    let lines = lines_of(&["2", "0 0 1", "0 x 2"]);
    let err = load_vertices_from_database(&lines).expect_err("should fail");
    assert!(err.message().contains("unable to parse the right ID"), "{}", err.message());
}

#[test]
fn load_rejects_missing_lines() {
    let lines: Vec<String> = Vec::new();
    let err = load_vertices_from_database(&lines).expect_err("should fail");
    assert!(err.message().contains("end of file"), "{}", err.message());
}

#[test]
fn empty_graph_is_rejected_by_analysis() {
    let mut graph = Graph::new(Vec::new());
    let err = graph.walk_and_analyze().expect_err("should fail");
    assert_eq!(err, GraphError::EmptyGraph);
}

#[test]
fn analysis_labels_root_and_reachable_vertices() {
    let lines = lines_of(&["2", "1 1 5", "1 2 6"]);
    let vertices = load_vertices_from_database(&lines).expect("shouldn't fail");
    let mut graph = Graph::new(vertices);
    graph.walk_and_analyze().expect("invalid graph");
    assert!(graph.graph[0].visited);
    assert_eq!(graph.graph[0].root_depth, 0);
    assert!(graph.graph[1].visited);
    assert_eq!(graph.graph[1].root_depth, 1);
    assert!(graph.graph[2].visited);
    assert_eq!(graph.graph[2].root_depth, 1);
}

#[test]
fn unreachable_vertex_keeps_sentinel_depth() {
    // the second data row references only itself, so both slots are
    // normalized away and nothing connects it to the root
    let lines = lines_of(&["2", "1 1 5", "3 3 7"]);
    let vertices = load_vertices_from_database(&lines).expect("shouldn't fail");
    let mut graph = Graph::new(vertices);
    graph.walk_and_analyze().expect("invalid graph");
    assert!(!graph.graph[2].visited);
    assert_eq!(graph.graph[2].root_depth, usize::MAX);
    // the sentinel poisons the depth sum and fits no level bucket
    assert_eq!(graph.graph.len(), 3);
    assert!(graph.total_root_depth().is_none());
    assert!(graph.depth_level_totals().is_none());
}

#[test]
fn analysis_rejects_reference_to_id_zero() {
    // a zero reference aborts the inversion before any statistic is
    // computed
    let lines = lines_of(&["3", "0 1 2", "1 0 3", "2 0 1"]);
    let vertices = load_vertices_from_database(&lines).expect("shouldn't fail");
    let mut graph = Graph::new(vertices);
    let err = graph.walk_and_analyze().expect_err("should fail");
    assert_eq!(err, GraphError::RootIdUsedAsReference);
}

#[test]
fn analysis_rejects_reference_past_the_count() {
    let lines = lines_of(&["1", "3 3 9"]);
    let vertices = load_vertices_from_database(&lines).expect("shouldn't fail");
    let mut graph = Graph::new(vertices);
    let err = graph.walk_and_analyze().expect_err("should fail");
    assert_eq!(err, GraphError::InvalidVertexId(3));
}

#[test]
fn aggregate_averages_over_five_rows() {
    let lines = lines_of(&["5", "1 3 10", "1 2 11", "2 3 12", "2 2 13", "2 3 14"]);
    let vertices = load_vertices_from_database(&lines).expect("shouldn't fail");
    let mut graph = Graph::new(vertices);
    graph.walk_and_analyze().expect("invalid graph");

    let n = graph.graph.len() as f64;
    let avg_inbound = graph.total_inbound_refs().expect("sum fits") as f64 / n;
    let avg_depth = graph.total_root_depth().expect("sum fits") as f64 / n;
    let (level_sum, level_cnt) = graph.depth_level_totals().expect("all vertices reached");
    let avg_per_level = level_sum as f64 / level_cnt as f64;

    assert_eq!(avg_inbound, 1.6666666666666667);
    assert_eq!(avg_per_level, 2.5);
    assert_eq!(avg_depth, 1.3333333333333333);
}

#[test]
fn error_messages_name_each_failure() {
    assert_eq!(GraphError::EmptyGraph.message(), "the graph cannot be empty");
    assert_eq!(GraphError::InvalidVertexId(3).message(), "vertex with ID 3 doesn't exist");
    assert_eq!(
        GraphError::RootIdUsedAsReference.message(),
        "the graph cannot have the vertex with ID 0. The minimum is 1"
    );
    assert_eq!(GraphError::TooFewItems.message(), "the row has too few items");
    assert_eq!(GraphError::TooManyItems.message(), "the row has too many items");
    assert_eq!(GraphError::ParseLeftId.message(), "unable to parse the left ID");
    assert_eq!(GraphError::ParseRightId.message(), "unable to parse the right ID");
    assert_eq!(GraphError::ParseTimestamp.message(), "unable to parse the timestamp");
    assert_eq!(GraphError::ParseNodeCount.message(), "unable to parse the number of nodes");
    assert_eq!(GraphError::EndOfFile.message(), "end of file");
    assert_eq!(
        GraphError::CountMismatch { actual: 12, declared: 40 }.message(),
        "The number vertices (12) isn't equal to the number declared: 40"
    );
}

#[test]
fn zero_declared_count_loads_only_the_root() {
    let lines = lines_of(&["0"]);
    let vertices = load_vertices_from_database(&lines).expect("shouldn't fail");
    assert_eq!(vec![Vertex { left: None, right: None, timestamp: 0 }], vertices);
    let mut graph = Graph::new(vertices);
    graph.walk_and_analyze().expect("invalid graph");
    assert_eq!(graph.total_inbound_refs(), Some(0));
    assert_eq!(graph.total_root_depth(), Some(0));
    assert_eq!(graph.depth_level_totals(), Some((0, 0)));
}

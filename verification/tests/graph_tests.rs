use ledger::graph::vertex_with_stats::VertexWithStats;
use ledger::graph::{find_inward_references, find_root_depth};
use ledger::vertex::Vertex;

#[test]
fn test_find_inward_references() {
    let mut graph = vec![
        VertexWithStats { ..Default::default() },
        VertexWithStats {
            vertex: Vertex { left: Some(1), right: None, ..Default::default() },
            ..Default::default()
        },
    ];
    find_inward_references(&mut graph).expect("shouldn't return error");
    assert_eq!(vec![2], graph[0].inbounds);
}

#[test]
fn test_find_inward_references_invalid_id() {
    let mut graph = vec![
        VertexWithStats { ..Default::default() },
        VertexWithStats {
            vertex: Vertex { left: Some(3), right: None, ..Default::default() },
            ..Default::default()
        },
    ];
    let err = find_inward_references(&mut graph).expect_err("should return error");
    assert!(err.message().contains("vertex with ID 3 doesn't exist"), "{}", err.message())
}

#[test]
fn test_find_inward_references_empty_graph() {
    let mut graph: Vec<VertexWithStats> = vec![];
    let err = find_inward_references(&mut graph).expect_err("should return error");
    assert!(err.message().contains("the graph cannot be empty"), "{}", err.message())
}

#[test]
fn test_find_root_depth() {
    let mut graph = vec![
        VertexWithStats { inbounds: vec![2, 3], ..Default::default() },
        VertexWithStats { ..Default::default() },
        VertexWithStats { inbounds: vec![4], ..Default::default() },
        VertexWithStats { ..Default::default() },
    ];
    find_root_depth(&mut graph).expect("shouldn't return error");
    assert!(graph[0].visited);
    assert!(graph[1].visited);
    assert!(graph[2].visited);
    assert!(graph[3].visited);

    assert_eq!(graph[0].root_depth, 0);
    assert_eq!(graph[1].root_depth, 1);
    assert_eq!(graph[2].root_depth, 1);
    assert_eq!(graph[3].root_depth, 2);
}

#[test]
fn test_find_root_depth_invalid_vertex_id() {
    let mut graph = vec![
        VertexWithStats { inbounds: vec![3], ..Default::default() },
        VertexWithStats { ..Default::default() },
    ];
    let err = find_root_depth(&mut graph).expect_err("should no return error");
    assert!(err.message().contains("vertex with ID 3 doesn't exist"), "{}", err.message())
}

#[test]
fn test_find_root_depth_invalid_vertex_id_is_zero() {
    let mut graph = vec![
        VertexWithStats { inbounds: vec![0], ..Default::default() },
        VertexWithStats { ..Default::default() },
    ];
    let err = find_root_depth(&mut graph).expect_err("should no return error");
    assert!(
        err.message().contains("the graph cannot have the vertex with ID 0"),
        "{}",
        err.message()
    )
}

#[test]
fn test_find_root_depth_empty_graph() {
    let mut graph = vec![];
    let err = find_root_depth(&mut graph).expect_err("should no return error");
    assert!(err.message().contains("the graph cannot be empty"), "{}", err.message())
}

#[test]
fn invert_references_zero_id_is_rejected() {
    let mut graph = vec![
        VertexWithStats { ..Default::default() },
        VertexWithStats {
            vertex: Vertex { left: None, right: Some(0), ..Default::default() },
            ..Default::default()
        },
    ];
    let err = find_inward_references(&mut graph).expect_err("should return error");
    assert!(
        err.message().contains("the graph cannot have the vertex with ID 0"),
        "{}",
        err.message()
    )
}

#[test]
fn invert_references_twice_doubles_inbound_lists() {
    let mut graph = vec![
        VertexWithStats { ..Default::default() },
        VertexWithStats {
            vertex: Vertex { left: Some(1), right: Some(1), ..Default::default() },
            ..Default::default()
        },
    ];
    find_inward_references(&mut graph).expect("shouldn't return error");
    assert_eq!(vec![2, 2], graph[0].inbounds);
    find_inward_references(&mut graph).expect("shouldn't return error");
    assert_eq!(vec![2, 2, 2, 2], graph[0].inbounds);
}

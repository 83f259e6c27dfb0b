use system_foundation::graph::{Graph, GraphError};

#[test]
fn ids_start_at_one_and_increase() {
    let mut g: Graph<&str, &str> = Graph::new(false, false);
    assert_eq!(g.add_node("a"), 1);
    assert_eq!(g.add_node("b"), 2);
    assert_eq!(g.get_node_count(), 2);
    let e = g.add_edge(1, 2, "ab").unwrap();
    assert_eq!(e, 1);
    assert_eq!(g.get_edge_count(), 1);
}

#[test]
fn add_edge_to_missing_node_is_rejected() {
    let mut g: Graph<u8, u8> = Graph::new(false, false);
    g.add_node(0);
    assert_eq!(g.add_edge(1, 2, 0), Err(GraphError::NoSuchNode));
    assert_eq!(g.get_edge_count(), 0);
}

#[test]
fn adjacency_tracks_both_endpoints() {
    let mut g: Graph<u8, u8> = Graph::new(false, false);
    let a = g.add_node(0);
    let b = g.add_node(0);
    let e = g.add_edge(a, b, 7).unwrap();
    let na = g.get_node_by_id(&a).unwrap();
    assert_eq!(na.degree(), 1);
    assert_eq!(na.connected_edges().get(&e), Some(&b));
    assert!(na.adjacent_nodes().get(&b).unwrap().contains(&e));
    let nb = g.get_node_by_id(&b).unwrap();
    assert_eq!(nb.connected_edges().get(&e), Some(&a));
    assert!(nb.adjacent_nodes().get(&a).unwrap().contains(&e));
    let edge = g.get_edge_by_id(&e).unwrap();
    assert_eq!((edge.node1(), edge.node2()), (a, b));
    assert!(edge.can_move_forward());
    assert!(edge.can_move_backward());
}

#[test]
fn remove_edge_clears_adjacency() {
    let mut g: Graph<u8, u8> = Graph::new(false, false);
    let a = g.add_node(0);
    let b = g.add_node(0);
    let e = g.add_edge(a, b, 7).unwrap();
    assert_eq!(g.remove_edge(&e), Ok(e));
    assert_eq!(g.get_edge_count(), 0);
    assert_eq!(g.get_node_by_id(&a).unwrap().degree(), 0);
    assert!(g.get_node_by_id(&a).unwrap().adjacent_nodes().is_empty());
    assert_eq!(g.remove_edge(&e), Err(GraphError::NoSuchEdge));
}

#[test]
fn remove_node_removes_incident_edges() {
    let mut g: Graph<u8, u8> = Graph::new(false, false);
    let a = g.add_node(0);
    let b = g.add_node(0);
    let c = g.add_node(0);
    g.add_edge(a, b, 1).unwrap();
    g.add_edge(b, c, 2).unwrap();
    let keep = g.add_edge(a, c, 3).unwrap();
    assert_eq!(g.remove_node(&b), Ok(b));
    assert_eq!(g.get_node_count(), 2);
    assert_eq!(g.get_edge_count(), 1);
    assert!(g.get_edge_by_id(&keep).is_some());
    assert_eq!(g.get_node_by_id(&a).unwrap().degree(), 1);
    assert_eq!(g.remove_node(&b), Err(GraphError::NoSuchNode));
}

#[test]
fn ids_are_not_reused_after_removal() {
    let mut g: Graph<u8, u8> = Graph::new(false, false);
    let a = g.add_node(0);
    g.remove_node(&a).unwrap();
    let b = g.add_node(0);
    assert_eq!(b, 2);
}

#[test]
fn self_loops_are_recorded_once_per_node() {
    let mut g: Graph<u8, u8> = Graph::new(true, false);
    let a = g.add_node(0);
    let e = g.add_edge(a, a, 9).unwrap();
    let node = g.get_node_by_id(&a).unwrap();
    assert_eq!(node.degree(), 1);
    assert_eq!(node.connected_edges().get(&e), Some(&a));
    assert_eq!(g.remove_node(&a), Ok(a));
    assert_eq!(g.get_edge_count(), 0);
}

#[test]
fn from_entities_accepts_consistent_lists() {
    let nodes = vec![(3u32, "x"), (5u32, "y")];
    let edges = vec![(2u32, (3u32, 5u32), "xy")];
    let g = Graph::from_entities(nodes, edges, true).unwrap();
    assert_eq!(g.get_node_count(), 2);
    assert_eq!(g.get_edge_count(), 1);
    let e = g.get_edge_by_id(&2).unwrap();
    assert_eq!((e.node1(), e.node2()), (3, 5));
    assert!(e.can_move_backward());
    assert_eq!(*g.get_node_by_id(&3).unwrap().node_info(), "x");
}

#[test]
fn from_entities_rejects_duplicate_node_ids() {
    let nodes = vec![(1u32, 0u8), (1u32, 1u8)];
    let edges: Vec<(u32, (u32, u32), u8)> = Vec::new();
    assert!(matches!(
        Graph::from_entities(nodes, edges, false),
        Err(GraphError::DuplicateNodeId)
    ));
}

#[test]
fn from_entities_rejects_duplicate_edge_ids() {
    let nodes = vec![(1u32, 0u8), (2u32, 0u8)];
    let edges = vec![(1u32, (1u32, 2u32), 0u8), (1u32, (2u32, 1u32), 0u8)];
    assert!(matches!(
        Graph::from_entities(nodes, edges, false),
        Err(GraphError::DuplicateEdgeId)
    ));
}

#[test]
fn from_entities_rejects_missing_endpoint() {
    let nodes = vec![(1u32, 0u8)];
    let edges = vec![(1u32, (1u32, 9u32), 0u8)];
    assert!(matches!(
        Graph::from_entities(nodes, edges, false),
        Err(GraphError::NoSuchNode)
    ));
}

#[test]
fn from_entities_list_matches_from_entities() {
    let nodes = vec![(1u32, 0u8), (2u32, 0u8)];
    let edges = vec![(4u32, (1u32, 2u32), 0u8)];
    let g = Graph::from_entities_list(nodes, edges, false).unwrap();
    assert_eq!(g.get_edge_count(), 1);
    assert!(!g.get_edge_by_id(&4).unwrap().can_move_backward());
}

#[test]
fn node_and_edge_payloads_are_mutable() {
    let mut g: Graph<u8, u8> = Graph::new(false, false);
    let a = g.add_node(1);
    let b = g.add_node(2);
    let e = g.add_edge(a, b, 3).unwrap();
    assert!(g.set_node_info(a, 9));
    assert_eq!(*g.get_node_by_id(&a).unwrap().node_info(), 9);
    assert!(!g.set_node_info(77, 9));
    assert_eq!(*g.get_edge_by_id(&e).unwrap().edge_info(), 3);
    assert_eq!(g.get_nodes().len(), 2);
    assert_eq!(g.get_edges().len(), 1);
    assert_eq!(g.next_node_id(), 3);
    assert_eq!(g.next_edge_id(), 2);
}

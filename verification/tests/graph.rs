use cdf::graph::CsrGraph;
use cdf::{FabricId, GraphEdgeRef};

fn edge(from: FabricId, to: FabricId, t: &str) -> GraphEdgeRef {
    GraphEdgeRef { from_id: from, to_id: to, edge_type: t.to_string(), properties: Default::default() }
}

#[test]
fn test_graph_bfs() {
    let mut g = CsrGraph::new();
    let n1 = FabricId::new();
    let n2 = FabricId::new();
    let n3 = FabricId::new();

    g.add_node(n1, vec!["A".to_string()]);
    g.add_node(n2, vec!["B".to_string()]);
    g.add_node(n3, vec!["C".to_string()]);

    g.add_edge(edge(n1, n2, "knows"));
    g.add_edge(edge(n2, n3, "knows"));

    let paths = g.bfs(n1, 2);
    assert_eq!(paths.len(), 3);
}

#[test]
fn test_csr_neighbors_after_refresh() {
    let mut g = CsrGraph::new();
    let n1 = FabricId::new();
    let n2 = FabricId::new();
    let n3 = FabricId::new();

    g.add_node(n1, vec!["A".to_string()]);
    g.add_node(n2, vec!["B".to_string()]);
    g.add_node(n3, vec!["C".to_string()]);

    g.add_edge(edge(n1, n2, "cites"));
    g.add_edge(edge(n1, n3, "cites"));
    g.add_edge(edge(n2, n3, "cites"));

    g.refresh();
    let neighbors = g.get_neighbors(n1, None);
    assert_eq!(neighbors.len(), 2, "n1 should have 2 outgoing edges");

    let knows_neighbors = g.get_neighbors(n1, Some("cites"));
    assert_eq!(knows_neighbors.len(), 2);

    let unknown_neighbors = g.get_neighbors(n1, Some("unknown"));
    assert_eq!(unknown_neighbors.len(), 0);
}

#[test]
fn test_shortest_path() {
    let mut g = CsrGraph::new();
    let n1 = FabricId::new();
    let n2 = FabricId::new();
    let n3 = FabricId::new();
    let n4 = FabricId::new();

    g.add_edge(edge(n1, n2, "link"));
    g.add_edge(edge(n2, n3, "link"));
    g.add_edge(edge(n1, n4, "link"));
    g.add_edge(edge(n4, n3, "link"));
    g.refresh();

    let path = g.shortest_path(n1, n3, 5).unwrap();
    assert_eq!(path.len(), 3);
    assert_eq!(path[0], n1);
    assert_eq!(path[2], n3);
}

fn chain(n: u128) -> (CsrGraph, Vec<FabricId>) {
    let mut g = CsrGraph::new();
    let ids: Vec<FabricId> = (0..n).map(FabricId).collect();
    for w in ids.windows(2) {
        g.add_edge(edge(w[0], w[1], "next"));
    }
    (g, ids)
}

#[test]
fn bfs_respects_depth_and_finds_shortest_paths() {
    let (mut g, ids) = chain(5);
    // A shortcut from 0 straight to 3.
    g.add_edge(edge(ids[0], ids[3], "jump"));
    let paths = g.bfs(ids[0], 2);
    assert_eq!(paths[0], vec![ids[0]]);
    let ends: Vec<FabricId> = paths.iter().map(|p| *p.last().unwrap()).collect();
    assert_eq!(ends.len(), 5);
    for p in &paths {
        assert!(p.len() <= 3);
        assert_eq!(p[0], ids[0]);
    }
    let to3 = paths.iter().find(|p| *p.last().unwrap() == ids[3]).unwrap();
    assert_eq!(to3, &vec![ids[0], ids[3]]);
    let to4 = paths.iter().find(|p| *p.last().unwrap() == ids[4]).unwrap();
    assert_eq!(to4, &vec![ids[0], ids[3], ids[4]]);
    for w in paths.windows(2) {
        assert!(w[0].len() <= w[1].len());
    }
}

#[test]
fn bfs_depth_zero_is_just_the_start() {
    let (g, ids) = chain(3);
    assert_eq!(g.bfs(ids[0], 0), vec![vec![ids[0]]]);
}

#[test]
fn shortest_path_to_itself_and_out_of_reach() {
    let (g, ids) = chain(6);
    assert_eq!(g.shortest_path(ids[2], ids[2], 0), Some(vec![ids[2]]));
    // 0 -> 5 takes five edges: reachable with max_depth 4, not with 3.
    assert_eq!(g.shortest_path(ids[0], ids[5], 4).map(|p| p.len()), Some(6));
    assert_eq!(g.shortest_path(ids[0], ids[5], 3), None);
    assert_eq!(g.shortest_path(ids[5], ids[0], 10), None);
}

#[test]
fn neighbors_follow_edge_order_and_type() {
    let mut g = CsrGraph::new();
    let a = FabricId(1);
    let b = FabricId(2);
    let c = FabricId(3);
    g.add_edge(edge(b, c, "x"));
    g.add_edge(edge(a, c, "y"));
    g.add_edge(edge(a, b, "x"));
    assert_eq!(g.get_neighbors(a, None), vec![c, b]);
    assert_eq!(g.get_neighbors(a, Some("x")), vec![b]);
    assert_eq!(g.get_neighbors_csr(a, None), vec![c, b]);
    assert_eq!(g.get_outgoing_edges(a).len(), 2);
    assert_eq!(g.edge_count(), 3);
    g.add_node(a, vec!["first".to_string()]);
    g.add_node(a, vec!["second".to_string()]);
    assert_eq!(g.node_count(), 1);
}

use graph_viewer::layout::{apply_force_directed_layout, layout_round};
use graph_viewer::model::{EdgeData, Graph, GraphEdge, NodeData};

fn node(id: &str, x: i64, y: i64) -> NodeData {
    NodeData { id: id.to_string(), label: id.to_string(), x, y }
}

fn edge(source: usize, target: usize) -> GraphEdge {
    GraphEdge { source, target, data: EdgeData { id: None } }
}

#[test]
fn repulsion_is_symmetric() {
    // two nodes, no edge: the round moves them apart by equal amounts
    let mut g = Graph { nodes: vec![node("a", -500, 0), node("b", 500, 0)], edges: vec![] };
    layout_round(&mut g, 1000, 100_000);
    let da = (g.nodes[0].x + 500, g.nodes[0].y);
    let db = (g.nodes[1].x - 500, g.nodes[1].y);
    assert_eq!(da.0, -db.0);
    assert_eq!(da.1, -db.1);
    assert!(da.0 < 0, "a pushed further left, got {}", da.0);
}

#[test]
fn coincident_nodes_exert_no_force() {
    let mut g = Graph { nodes: vec![node("a", 7, 9), node("b", 7, 9)], edges: vec![] };
    apply_force_directed_layout(&mut g, 25, 80_000, 10_000);
    assert_eq!((g.nodes[0].x, g.nodes[0].y), (7, 9));
    assert_eq!((g.nodes[1].x, g.nodes[1].y), (7, 9));
}

#[test]
fn self_loop_is_harmless() {
    let mut g = Graph { nodes: vec![node("a", 123, -456)], edges: vec![edge(0, 0)] };
    apply_force_directed_layout(&mut g, 50, 80_000, 10_000);
    assert_eq!((g.nodes[0].x, g.nodes[0].y), (123, -456));
}

#[test]
fn isolated_single_node_stays_put() {
    let mut g = Graph { nodes: vec![node("only", -42, 42)], edges: vec![] };
    apply_force_directed_layout(&mut g, 200, 80_000, 10_000);
    assert_eq!((g.nodes[0].x, g.nodes[0].y), (-42, 42));
}

#[test]
fn displacement_clamped_to_max_step() {
    // enormous repulsion, tiny step bound: no node may move farther than max_step
    let max_step: i64 = 37;
    let mut g = Graph {
        nodes: vec![node("a", 0, 0), node("b", 1, 1), node("c", -1, 2)],
        edges: vec![edge(0, 1), edge(1, 2)],
    };
    let before: Vec<(i64, i64)> = g.nodes.iter().map(|n| (n.x, n.y)).collect();
    layout_round(&mut g, 100_000, max_step);
    for (i, n) in g.nodes.iter().enumerate() {
        let dx = n.x - before[i].0;
        let dy = n.y - before[i].1;
        assert!(dx * dx + dy * dy <= max_step * max_step, "node {i} moved too far");
    }
}

#[test]
fn attraction_pulls_connected_nodes_together() {
    let mut g = Graph {
        nodes: vec![node("a", -200_000, 0), node("b", 200_000, 0)],
        edges: vec![edge(0, 1)],
    };
    let before = g.nodes[1].x - g.nodes[0].x;
    apply_force_directed_layout(&mut g, 10, 1_000, 10_000);
    let after = g.nodes[1].x - g.nodes[0].x;
    assert!(after < before, "distance should shrink: {before} -> {after}");
}

#[test]
fn layout_is_deterministic() {
    let build = || Graph {
        nodes: vec![node("a", -300, 40), node("b", 250, -80), node("c", 10, 500)],
        edges: vec![edge(0, 1), edge(1, 2)],
    };
    let mut g1 = build();
    let mut g2 = build();
    apply_force_directed_layout(&mut g1, 60, 80_000, 10_000);
    apply_force_directed_layout(&mut g2, 60, 80_000, 10_000);
    for (n1, n2) in g1.nodes.iter().zip(g2.nodes.iter()) {
        assert_eq!((n1.x, n1.y), (n2.x, n2.y));
    }
}

#[test]
fn layout_preserves_structure() {
    let mut g = Graph {
        nodes: vec![node("first", 10, 20), node("second", -30, 40)],
        edges: vec![edge(0, 1)],
    };
    apply_force_directed_layout(&mut g, 30, 80_000, 10_000);
    assert_eq!(g.nodes.len(), 2);
    assert_eq!(g.nodes[0].id, "first");
    assert_eq!(g.nodes[0].label, "first");
    assert_eq!(g.nodes[1].id, "second");
    assert_eq!(g.edges.len(), 1);
    assert_eq!((g.edges[0].source, g.edges[0].target), (0, 1));
}

#[test]
fn positions_stay_inside_world_square() {
    let lim = graph_viewer::model::MAX_COORD;
    let mut g = Graph {
        nodes: vec![node("a", lim, lim), node("b", lim - 1, lim)],
        edges: vec![],
    };
    apply_force_directed_layout(&mut g, 100, 100_000, 100_000);
    for n in g.nodes.iter() {
        assert!(n.x.abs() <= lim && n.y.abs() <= lim);
    }
}

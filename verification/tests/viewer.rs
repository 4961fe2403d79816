use graph_viewer::loader::{load_graphml, LoadError};
use graph_viewer::model::{EdgeData, Graph, NodeData};
use graph_viewer::state::{scatter, ViewerError, ViewerState, SCATTER_SPREAD};
use graph_viewer::viewport::{fit, DEFAULT_ZOOM_MILLI};

fn node(id: &str, x: i64, y: i64) -> NodeData {
    NodeData { id: id.to_string(), label: id.to_string(), x, y }
}

#[test]
fn fit_single_node_uses_default_zoom() {
    let g = Graph { nodes: vec![node("only", 12345, -678)], edges: vec![] };
    let (zoom, _pan) = fit(&g, 800, 600, 800);
    assert_eq!(zoom, DEFAULT_ZOOM_MILLI);
}

#[test]
fn fit_empty_graph_uses_default_zoom() {
    let g = Graph { nodes: vec![], edges: vec![] };
    let (zoom, pan) = fit(&g, 800, 600, 800);
    assert_eq!(zoom, DEFAULT_ZOOM_MILLI);
    assert_eq!(pan, (0, 0));
}

#[test]
fn fit_coincident_nodes_use_default_zoom() {
    let g = Graph { nodes: vec![node("a", 5, 5), node("b", 5, 5)], edges: vec![] };
    let (zoom, _pan) = fit(&g, 800, 600, 800);
    assert_eq!(zoom, DEFAULT_ZOOM_MILLI);
}

#[test]
fn fit_two_nodes_exact_zoom_and_pan() {
    let g = Graph { nodes: vec![node("a", 0, 0), node("b", 1000, 500)], edges: vec![] };
    let (zoom, pan) = fit(&g, 800, 600, 800);
    // zx = 800000/1000 = 800, zy = 600000/500 = 1200; zoom = 800*800/1000 = 640
    assert_eq!(zoom, 640);
    // pan centers the box: (800000 - 1000*640)/2 and (600000 - 500*640)/2
    assert_eq!(pan, (80_000, 140_000));
}

#[test]
fn scatter_is_deterministic_and_bounded() {
    let build = || Graph {
        nodes: vec![node("a", 0, 0), node("b", 0, 0), node("c", 0, 0)],
        edges: vec![],
    };
    let mut g1 = build();
    let mut g2 = build();
    scatter(&mut g1, 12345);
    scatter(&mut g2, 12345);
    for (n1, n2) in g1.nodes.iter().zip(g2.nodes.iter()) {
        assert_eq!((n1.x, n1.y), (n2.x, n2.y));
        assert!(n1.x.abs() <= SCATTER_SPREAD && n1.y.abs() <= SCATTER_SPREAD);
    }
    let mut g3 = build();
    scatter(&mut g3, 54321);
    let same = g1.nodes.iter().zip(g3.nodes.iter()).all(|(a, b)| (a.x, a.y) == (b.x, b.y));
    assert!(!same, "different seeds should scatter differently");
}

#[test]
fn viewer_state_starts_uninitialized_with_positive_zoom() {
    let input = b"<graph><node id=\"a\"/><node id=\"b\"/><edge source=\"a\" target=\"b\"/></graph>";
    let g = load_graphml(input).unwrap();
    let st = ViewerState::new(g, 7);
    assert!(!st.initialized_view);
    assert!(st.zoom_milli > 0);
    assert_eq!(st.graph.nodes.len(), 2);
    assert_eq!(st.graph.edges.len(), 1);
}

#[test]
fn viewer_error_wraps_load_error() {
    let e = ViewerError::from(LoadError::Io);
    assert!(e.is_load());
    let d = ViewerError::Display("renderer quit".to_string());
    assert!(!d.is_load());
}

#[test]
fn end_to_end_chain_spreads_unconnected_nodes() {
    // nodes A, B, C with edges A->B and B->C: after parsing and layout the
    // unconnected pair (A, C) ends up farther apart than the connected (A, B)
    let input = b"<graph><node id=\"A\"/><node id=\"B\"/><node id=\"C\"/><edge source=\"A\" target=\"B\"/><edge source=\"B\" target=\"C\"/></graph>";
    let g = load_graphml(input).unwrap();
    assert_eq!(g.nodes.len(), 3);
    assert_eq!(g.edges.len(), 2);
    for seed in [7u64, 42, 2024] {
        let g = load_graphml(input).unwrap();
        let st = ViewerState::new(g, seed);
        let p: Vec<(f64, f64)> =
            st.graph.nodes.iter().map(|n| (n.x as f64, n.y as f64)).collect();
        let d = |a: (f64, f64), b: (f64, f64)| ((a.0 - b.0).powi(2) + (a.1 - b.1).powi(2)).sqrt();
        let d_ab = d(p[0], p[1]);
        let d_ac = d(p[0], p[2]);
        assert!(d_ac > d_ab, "seed {seed}: expected |AC| > |AB|, got {d_ac} <= {d_ab}");
    }
}

#[test]
fn add_node_and_edge_update_counts() {
    let mut g = Graph::new();
    assert_eq!(g.node_count(), 0);
    let a = g.add_node("a".to_string(), "a".to_string());
    let b = g.add_node("b".to_string(), "b".to_string());
    assert_eq!((a, b), (0, 1));
    assert_eq!(g.node_count(), 2);
    g.add_edge(a, b, EdgeData { id: Some("e1".to_string()) });
    assert_eq!(g.edge_count(), 1);
    assert_eq!(g.edges[0].data.id.as_deref(), Some("e1"));
}

#[test]
fn load_error_distinguishes_kinds() {
    assert_ne!(LoadError::Io, LoadError::Malformed);
    assert!(matches!(load_graphml(b"<graph"), Err(LoadError::Malformed)));
}

#[test]
fn layout_keeps_graph_usable_by_fit() {
    let input = b"<graph><node id=\"x\"/><node id=\"y\"/><edge source=\"x\" target=\"y\"/></graph>";
    let g = load_graphml(input).unwrap();
    let st = ViewerState::new(g, 99);
    let (zoom, _pan) = fit(&st.graph, 800, 600, 800);
    assert!(zoom >= 1);
}

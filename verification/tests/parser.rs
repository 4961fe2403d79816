use graph_viewer::loader::{load_graphml, LoadError};

#[test]
fn round_trip_mixed_forms() {
    let input = b"<?xml version=\"1.0\"?>\n<graphml>\n<graph>\n  <node id=\"a\"/>\n  <node id=\"b\"></node>\n  <node id=\"c\"><data key=\"label\">Gamma</data></node>\n  <edge source=\"a\" target=\"b\"/>\n  <edge source=\"b\" target=\"c\"></edge>\n  <edge source=\"a\" target=\"c\"/>\n</graph>\n</graphml>\n";
    let g = load_graphml(input).unwrap();
    assert_eq!(g.nodes.len(), 3);
    assert_eq!(g.edges.len(), 3);
    assert_eq!(g.nodes[0].id, "a");
    assert_eq!(g.nodes[0].label, "a");
    assert_eq!(g.nodes[1].id, "b");
    assert_eq!(g.nodes[1].label, "b");
    assert_eq!(g.nodes[2].id, "c");
    assert_eq!(g.nodes[2].label, "Gamma");
    assert_eq!((g.edges[0].source, g.edges[0].target), (0, 1));
    assert_eq!((g.edges[1].source, g.edges[1].target), (1, 2));
    assert_eq!((g.edges[2].source, g.edges[2].target), (0, 2));
}

#[test]
fn dangling_edge_dropped() {
    let input = b"<graph><node id=\"a\"/><edge source=\"a\" target=\"ghost\"/><edge source=\"ghost\" target=\"a\"/></graph>";
    let g = load_graphml(input).unwrap();
    assert_eq!(g.nodes.len(), 1);
    assert_eq!(g.edges.len(), 0);
}

#[test]
fn edge_before_declaration_dropped() {
    // the single forward pass resolves edges against nodes seen so far
    let input = b"<graph><edge source=\"a\" target=\"b\"/><node id=\"a\"/><node id=\"b\"/><edge source=\"a\" target=\"b\"/></graph>";
    let g = load_graphml(input).unwrap();
    assert_eq!(g.nodes.len(), 2);
    assert_eq!(g.edges.len(), 1);
}

#[test]
fn label_defaults_to_id() {
    let input = b"<graph><node id=\"plain\"></node><node id=\"closed\"/></graph>";
    let g = load_graphml(input).unwrap();
    assert_eq!(g.nodes[0].label, "plain");
    assert_eq!(g.nodes[1].label, "closed");
}

#[test]
fn only_first_label_text_captured() {
    let input = b"<graph><node id=\"n\"><data key=\"label\">first</data><data key=\"other\">x</data></node></graph>";
    let g = load_graphml(input).unwrap();
    assert_eq!(g.nodes.len(), 1);
    assert_eq!(g.nodes[0].label, "first");
}

#[test]
fn non_label_data_ignored() {
    let input = b"<graph><node id=\"n\"><data key=\"color\">red</data></node></graph>";
    let g = load_graphml(input).unwrap();
    assert_eq!(g.nodes[0].label, "n");
}

#[test]
fn constructs_outside_graph_ignored() {
    let input = b"<doc><node id=\"x\"/></doc><graph><node id=\"y\"/></graph><node id=\"z\"/>";
    let g = load_graphml(input).unwrap();
    assert_eq!(g.nodes.len(), 1);
    assert_eq!(g.nodes[0].id, "y");
}

#[test]
fn namespaced_names_match_locally() {
    let input = b"<ns:graph><ns:node id=\"a\"/><ns:node id=\"b\"/><ns:edge source=\"a\" target=\"b\"/></ns:graph>";
    let g = load_graphml(input).unwrap();
    assert_eq!(g.nodes.len(), 2);
    assert_eq!(g.edges.len(), 1);
}

#[test]
fn multi_edges_preserved() {
    let input = b"<graph><node id=\"a\"/><node id=\"b\"/><edge source=\"a\" target=\"b\"/><edge source=\"a\" target=\"b\"/></graph>";
    let g = load_graphml(input).unwrap();
    assert_eq!(g.edges.len(), 2);
    assert_eq!((g.edges[0].source, g.edges[0].target), (0, 1));
    assert_eq!((g.edges[1].source, g.edges[1].target), (0, 1));
}

#[test]
fn self_loop_kept() {
    let input = b"<graph><node id=\"a\"/><edge source=\"a\" target=\"a\"/></graph>";
    let g = load_graphml(input).unwrap();
    assert_eq!(g.edges.len(), 1);
    assert_eq!((g.edges[0].source, g.edges[0].target), (0, 0));
}

#[test]
fn node_without_id_not_registered() {
    let input = b"<graph><node/><node id=\"a\"/></graph>";
    let g = load_graphml(input).unwrap();
    assert_eq!(g.nodes.len(), 1);
    assert_eq!(g.nodes[0].id, "a");
}

#[test]
fn edge_missing_attribute_dropped() {
    let input = b"<graph><node id=\"a\"/><edge source=\"a\"/><edge target=\"a\"/></graph>";
    let g = load_graphml(input).unwrap();
    assert_eq!(g.edges.len(), 0);
}

#[test]
fn empty_input_yields_empty_graph() {
    let g = load_graphml(b"").unwrap();
    assert_eq!(g.nodes.len(), 0);
    assert_eq!(g.edges.len(), 0);
}

#[test]
fn comments_and_declarations_skipped() {
    let input = b"<?xml version=\"1.0\"?><!DOCTYPE graphml><!-- a > b --><graph><node id=\"a\"/></graph>";
    let g = load_graphml(input).unwrap();
    assert_eq!(g.nodes.len(), 1);
}

#[test]
fn single_quoted_attributes_accepted() {
    let input = b"<graph><node id='q'/></graph>";
    let g = load_graphml(input).unwrap();
    assert_eq!(g.nodes[0].id, "q");
}

#[test]
fn truncated_tag_is_malformed() {
    let r = load_graphml(b"<graph><node id=");
    assert!(matches!(r, Err(LoadError::Malformed)));
}

#[test]
fn missing_attribute_value_is_malformed() {
    let r = load_graphml(b"<graph><node id></graph>");
    assert!(matches!(r, Err(LoadError::Malformed)));
}

#[test]
fn unterminated_comment_is_malformed() {
    let r = load_graphml(b"<graph><!-- never closed");
    assert!(matches!(r, Err(LoadError::Malformed)));
}

#[test]
fn non_ascii_id_decoded_lossily() {
    let mut input: Vec<u8> = Vec::new();
    input.extend_from_slice(b"<graph><node id=\"");
    input.push(0xC3);
    input.push(0xA9);
    input.extend_from_slice(b"\"/></graph>");
    let g = load_graphml(&input).unwrap();
    assert_eq!(g.nodes.len(), 1);
    assert_eq!(g.nodes[0].id.as_bytes(), &[0xC3, 0xA9]);
    assert_eq!(g.nodes[0].label, g.nodes[0].id);
}

#[test]
fn invalid_utf8_bytes_replaced_in_label() {
    // a lone continuation byte is not valid UTF-8; lossy decoding replaces it
    let mut input: Vec<u8> = Vec::new();
    input.extend_from_slice(b"<graph><node id=\"n\"><data key=\"label\">a");
    input.push(0xFF);
    input.extend_from_slice(b"b</data></node></graph>");
    let g = load_graphml(&input).unwrap();
    assert_eq!(g.nodes.len(), 1);
    let label = g.nodes[0].label.clone();
    assert!(label.starts_with('a') && label.ends_with('b'));
    assert_eq!(label.chars().count(), 3);
}

#[test]
fn duplicate_id_resolves_to_last_registration() {
    let input = b"<graph><node id=\"a\"/><node id=\"a\"/><edge source=\"a\" target=\"a\"/></graph>";
    let g = load_graphml(input).unwrap();
    assert_eq!(g.nodes.len(), 2);
    assert_eq!(g.edges.len(), 1);
    assert_eq!((g.edges[0].source, g.edges[0].target), (1, 1));
}

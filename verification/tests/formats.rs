use ligra::format::decode_graph;
use ligra::format::encode_graph;
use ligra::format::parse_adjacency_text;
use ligra::format::GraphError;
use ligra::graph::AdjacencyGraph;
use ligra::graph::AdjacencyList;

fn sample_graph() -> AdjacencyGraph {
    let offsets = vec![0, 1, 2, 3];
    let targets = vec![1, 2, 3];
    AdjacencyGraph::from_out_list(AdjacencyList::from_parts(&offsets, targets))
}

#[test]
fn text_parse_small_graph() {
    let text = b"AdjacencyGraph\n4\n3\n0\n1\n2\n3\n1\n2\n3\n";
    let (offsets, targets) = parse_adjacency_text(text).unwrap();
    assert_eq!(offsets, vec![0, 1, 2, 3]);
    assert_eq!(targets, vec![1, 2, 3]);
}

#[test]
fn text_parse_whitespace_separated() {
    let text = b"AdjacencyGraph\n3 4 0 2 3 1 2 0 0\n";
    let (offsets, targets) = parse_adjacency_text(text).unwrap();
    assert_eq!(offsets, vec![0, 2, 3]);
    assert_eq!(targets, vec![1, 2, 0, 0]);
}

#[test]
fn text_parse_bad_header() {
    let text = b"AdjacencyHypergraph\n1\n0\n0\n";
    assert_eq!(parse_adjacency_text(text), Err(GraphError::BadHeader));
}

#[test]
fn text_parse_missing_numbers() {
    let text = b"AdjacencyGraph\n3 1 0 0\n";
    assert_eq!(parse_adjacency_text(text), Err(GraphError::MissingNumber));
}

#[test]
fn text_parse_overflowing_number() {
    let text = b"AdjacencyGraph\n99999999999999999999999999999999 0\n";
    assert_eq!(parse_adjacency_text(text), Err(GraphError::MissingNumber));
}

#[test]
fn text_parse_bad_offsets() {
    let text = b"AdjacencyGraph\n2 1 0 2 0\n";
    assert_eq!(parse_adjacency_text(text), Err(GraphError::BadOffsets));
    let text = b"AdjacencyGraph\n3 2 0 2 1 0 1\n";
    assert_eq!(parse_adjacency_text(text), Err(GraphError::BadOffsets));
    let text = b"AdjacencyGraph\n0 0\n";
    assert_eq!(parse_adjacency_text(text), Err(GraphError::BadOffsets));
}

#[test]
fn text_parse_target_out_of_range() {
    let text = b"AdjacencyGraph\n2 1 0 1 7\n";
    assert_eq!(parse_adjacency_text(text), Err(GraphError::TargetOutOfRange));
}

#[test]
fn binary_round_trip() {
    let graph = sample_graph();
    let image = encode_graph(&graph);
    assert_eq!(image.len(), 16 + 2 * (4 * 16 + 3 * 8));
    let decoded = decode_graph(&image).unwrap();
    assert_eq!(decoded.node_count(), graph.node_count());
    assert_eq!(decoded.rel_count(), graph.rel_count());
    for v in 0..graph.node_count() {
        assert_eq!(decoded.out(v), graph.out(v));
        assert_eq!(decoded.inc(v), graph.inc(v));
    }
    // the decoded graph re-encodes to the same image
    assert_eq!(encode_graph(&decoded), image);
}

#[test]
fn binary_truncated() {
    let graph = sample_graph();
    let mut image = encode_graph(&graph);
    image.pop();
    assert!(matches!(decode_graph(&image), Err(GraphError::Truncated)));
}

#[test]
fn binary_trailing_bytes() {
    let graph = sample_graph();
    let mut image = encode_graph(&graph);
    image.push(0);
    assert!(matches!(decode_graph(&image), Err(GraphError::TrailingBytes)));
}

#[test]
fn binary_inconsistent_adjacency() {
    let graph = sample_graph();
    let mut image = encode_graph(&graph);
    // corrupt the stored in-list targets (the very last word)
    let last = image.len() - 8;
    image[last] = image[last].wrapping_add(1);
    let result = decode_graph(&image);
    assert!(matches!(
        result,
        Err(GraphError::InconsistentAdjacency) | Err(GraphError::TargetOutOfRange)
    ));
}

#[test]
fn binary_bad_offsets() {
    let graph = sample_graph();
    let mut image = encode_graph(&graph);
    // corrupt the first out-node's offset (bytes 24..32)
    image[24] = 1;
    assert!(matches!(decode_graph(&image), Err(GraphError::BadOffsets)));
}

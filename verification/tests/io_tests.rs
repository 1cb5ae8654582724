use simple_graph::io::{read_edge_list, read_matrix_market, write_edge_list, write_matrix_market};
use simple_graph::SimpleGraph;

#[test]
fn edge_list_test_write_read_roundtrip() {
    let g = SimpleGraph::from_edges(4, &[(0, 1), (1, 2), (2, 3)]);
    let mut buf = Vec::new();
    write_edge_list(&g, &mut buf);
    let text = String::from_utf8(buf).unwrap();
    assert_eq!(text.lines().count(), 4);
    let g2 = read_edge_list(text.as_bytes()).unwrap();
    assert_eq!(g2.nv(), 4);
    assert_eq!(g2.ne(), 3);
    assert!(g2.has_edge(0, 1));
    assert!(g2.has_edge(2, 3));
}

#[test]
fn test_read_with_comments() {
    let input = b"# comment\n3 1\n0 1\n";
    let g = read_edge_list(&input[..]).unwrap();
    assert_eq!(g.nv(), 3);
    assert_eq!(g.ne(), 1);
}

#[test]
fn test_empty_graph_roundtrip() {
    let g = SimpleGraph::new(5);
    let mut buf = Vec::new();
    write_edge_list(&g, &mut buf);
    let g2 = read_edge_list(&buf[..]).unwrap();
    assert_eq!(g2.nv(), 5);
    assert_eq!(g2.ne(), 0);
}

#[test]
fn test_read_self_loop_error() {
    let input = b"3 1\n1 1\n";
    assert!(read_edge_list(&input[..]).is_err());
}

#[test]
fn test_read_oob_error() {
    let input = b"3 1\n0 5\n";
    assert!(read_edge_list(&input[..]).is_err());
}

#[test]
fn test_read_count_mismatch_error() {
    let input = b"3 2\n0 1\n";
    assert!(read_edge_list(&input[..]).is_err());
}

#[test]
fn test_read_duplicate_edges() {
    // "0 1" and "1 0" are the same undirected edge: one unique edge is declared.
    let input = b"3 1\n0 1\n1 0\n";
    let g = read_edge_list(&input[..]).unwrap();
    assert_eq!(g.ne(), 1);
}

#[test]
fn test_read_duplicate_edges_count_mismatch() {
    // Two edges are declared but only one is unique after canonicalization.
    let input = b"3 2\n0 1\n1 0\n";
    assert!(read_edge_list(&input[..]).is_err());
}

#[test]
fn matrix_market_test_write_read_roundtrip() {
    let g = SimpleGraph::from_edges(4, &[(0, 1), (1, 2), (2, 3)]);
    let mut buf = Vec::new();
    write_matrix_market(&g, &mut buf);
    let text = String::from_utf8(buf).unwrap();
    assert!(text.starts_with("%%MatrixMarket"));
    let g2 = read_matrix_market(text.as_bytes()).unwrap();
    assert_eq!(g2.nv(), 4);
    assert_eq!(g2.ne(), 3);
    assert!(g2.has_edge(0, 1));
    assert!(g2.has_edge(2, 3));
}

#[test]
fn test_read_1indexed() {
    let input = b"%%MatrixMarket matrix coordinate pattern symmetric\n3 3 2\n1 2\n2 3\n";
    let g = read_matrix_market(&input[..]).unwrap();
    assert_eq!(g.nv(), 3);
    assert_eq!(g.ne(), 2);
    assert!(g.has_edge(0, 1));
    assert!(g.has_edge(1, 2));
}

#[test]
fn matrix_market_test_empty_graph() {
    let g = SimpleGraph::new(3);
    let mut buf = Vec::new();
    write_matrix_market(&g, &mut buf);
    let g2 = read_matrix_market(&buf[..]).unwrap();
    assert_eq!(g2.nv(), 3);
    assert_eq!(g2.ne(), 0);
}

#[test]
fn test_reject_non_symmetric() {
    let input = b"%%MatrixMarket matrix coordinate pattern general\n3 3 1\n1 2\n";
    assert!(read_matrix_market(&input[..]).is_err());
}

#[test]
fn test_reject_non_square() {
    let input = b"%%MatrixMarket matrix coordinate pattern symmetric\n3 4 1\n1 2\n";
    assert!(read_matrix_market(&input[..]).is_err());
}

#[test]
fn test_reject_zero_index() {
    let input = b"%%MatrixMarket matrix coordinate pattern symmetric\n3 3 1\n0 1\n";
    assert!(read_matrix_market(&input[..]).is_err());
}

#[test]
fn test_count_mismatch() {
    let input = b"%%MatrixMarket matrix coordinate pattern symmetric\n3 3 2\n1 2\n";
    assert!(read_matrix_market(&input[..]).is_err());
}

#[test]
fn reject_non_pattern_banner() {
    let input = b"%%MatrixMarket matrix coordinate real symmetric\n2 2 1\n2 1 1.0\n";
    assert!(read_matrix_market(&input[..]).is_err());
}

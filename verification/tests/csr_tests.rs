use simple_graph::{CsrGraph, Graph, SimpleGraph};

#[test]
fn test_csr_from_simple_graph() {
    let sg = SimpleGraph::from_edges(4, &[(0, 1), (1, 2), (2, 3)]);
    let csr = CsrGraph::from(&sg);
    assert_eq!(csr.nv(), 4);
    assert_eq!(csr.ne(), 3);
}

#[test]
fn test_csr_has_edge() {
    let sg = SimpleGraph::from_edges(3, &[(0, 1), (1, 2)]);
    let csr = CsrGraph::from(&sg);
    assert!(csr.has_edge(0, 1));
    assert!(csr.has_edge(1, 0));
    assert!(!csr.has_edge(0, 2));
}

#[test]
fn test_csr_neighbors() {
    let sg = SimpleGraph::from_edges(4, &[(0, 3), (0, 1), (0, 2)]);
    let csr = CsrGraph::from(&sg);
    assert_eq!(csr.neighbors(0), &[1, 2, 3]);
    assert_eq!(csr.neighbors(1), &[0]);
    assert_eq!(csr.degree(0), 3);
}

#[test]
fn test_csr_empty() {
    let sg = SimpleGraph::new(0);
    let csr = CsrGraph::from(&sg);
    assert_eq!(csr.nv(), 0);
    assert_eq!(csr.ne(), 0);
}

#[test]
fn test_csr_oob_returns_false() {
    let sg = SimpleGraph::from_edges(2, &[(0, 1)]);
    let csr = CsrGraph::from(&sg);
    assert!(!csr.has_edge(5, 0));
    assert!(!csr.has_vertex(2));
}

fn check_csr_basics(g: &impl Graph) {
    assert_eq!(g.nv(), 3);
    assert_eq!(g.ne(), 2);
    assert!(g.has_edge(0, 1));
}

#[test]
fn test_csr_graph_trait() {
    let sg = SimpleGraph::from_edges(3, &[(0, 1), (1, 2)]);
    let csr = CsrGraph::from(&sg);
    check_csr_basics(&csr);
}

#[test]
fn test_csr_invariants() {
    let sg = SimpleGraph::from_edges(4, &[(0, 1), (1, 2), (2, 3)]);
    let csr = CsrGraph::from(&sg);
    let offsets = csr.offsets();
    assert_eq!(offsets.len(), 5);
    for i in 1..offsets.len() {
        assert!(offsets[i] >= offsets[i - 1]);
    }
    assert_eq!(csr.targets().len(), 2 * csr.ne());
}

#[test]
fn test_csr_to_simple_graph() {
    let sg = SimpleGraph::from_edges(4, &[(0, 1), (1, 2), (2, 3)]);
    let csr = CsrGraph::from(&sg);
    let sg2 = csr.to_simple_graph();
    assert_eq!(sg, sg2);
}

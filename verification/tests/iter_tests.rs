use simple_graph::{edges, CsrGraph, Graph, SimpleGraph};

#[test]
fn test_edges_over_csr() {
    let sg = SimpleGraph::from_edges(3, &[(0, 1), (1, 2)]);
    let csr = CsrGraph::from(&sg);
    let edges: Vec<(u32, u32)> = edges(&csr).collect();
    assert_eq!(edges, vec![(0, 1), (1, 2)]);
}

fn collect_edges(g: &impl Graph) -> Vec<(u32, u32)> {
    edges(g).collect()
}

#[test]
fn test_edges_generic() {
    let g = SimpleGraph::from_edges(3, &[(0, 1), (1, 2)]);
    assert_eq!(collect_edges(&g), vec![(0, 1), (1, 2)]);
    let csr = CsrGraph::from(&g);
    assert_eq!(collect_edges(&csr), vec![(0, 1), (1, 2)]);
}

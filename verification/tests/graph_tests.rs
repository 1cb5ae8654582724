use simple_graph::{degree_distribution, degree_sequence, Graph, SimpleGraph};

fn assert_graph_basics(g: &impl Graph) {
    assert_eq!(g.nv(), 3);
    assert_eq!(g.ne(), 2);
    assert!(g.has_vertex(0));
    assert!(!g.has_vertex(3));
    assert!(g.has_edge(0, 1));
    assert!(g.has_edge(1, 0));
    assert!(!g.has_edge(0, 2));
    assert_eq!(g.degree(0), 1);
    assert_eq!(g.neighbors(0), &[1]);
}

#[test]
fn test_simple_graph_implements_graph_trait() {
    let g = SimpleGraph::from_edges(3, &[(0, 1), (1, 2)]);
    assert_graph_basics(&g);
}

#[test]
fn test_degree_sequence() {
    let g = SimpleGraph::from_edges(4, &[(0, 1), (0, 2), (0, 3), (1, 2)]);
    assert_eq!(degree_sequence(&g), vec![1, 2, 2, 3]);
}

#[test]
fn test_degree_distribution() {
    // Star graph: vertex 0 has degree 3, vertices 1, 2, 3 have degree 1.
    let g = SimpleGraph::from_edges(4, &[(0, 1), (0, 2), (0, 3)]);
    let dist = degree_distribution(&g);
    assert_eq!(dist, vec![0, 3, 0, 1]);
}

#[test]
fn test_degree_distribution_empty() {
    let g = SimpleGraph::new(0);
    let dist = degree_distribution(&g);
    assert!(dist.is_empty());
}

#[test]
fn test_degree_distribution_isolated() {
    let g = SimpleGraph::new(3);
    let dist = degree_distribution(&g);
    assert_eq!(dist, vec![3]);
}

#[test]
fn degree_sequence_by_method() {
    let g = SimpleGraph::from_edges(4, &[(0, 1), (1, 2), (2, 3), (3, 0)]);
    assert_eq!(g.degree_sequence(), vec![2, 2, 2, 2]);
}

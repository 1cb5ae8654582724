use simple_graph::SimpleGraph;

#[test]
fn simple_graph_test_empty_graph() {
    let g = SimpleGraph::new(0);
    assert_eq!(g.nv(), 0);
    assert_eq!(g.ne(), 0);
}

#[test]
fn test_add_edge_and_has_edge() {
    let mut g = SimpleGraph::new(4);
    assert!(!g.has_edge(0, 1));
    g.add_edge(0, 1);
    assert!(g.has_edge(0, 1));
    assert!(g.has_edge(1, 0));
    assert_eq!(g.ne(), 1);
    g.add_edge(0, 1);
    assert_eq!(g.ne(), 1);
}

#[test]
fn test_neighbors_sorted() {
    let mut g = SimpleGraph::new(5);
    g.add_edge(0, 3);
    g.add_edge(0, 1);
    g.add_edge(0, 4);
    assert_eq!(g.neighbors(0), &[1, 3, 4]);
}

#[test]
fn test_degree() {
    let mut g = SimpleGraph::new(3);
    g.add_edge(0, 1);
    g.add_edge(0, 2);
    assert_eq!(g.degree(0), 2);
    assert_eq!(g.degree(1), 1);
}

#[test]
fn test_has_vertex() {
    let g = SimpleGraph::new(3);
    assert!(g.has_vertex(0));
    assert!(g.has_vertex(2));
    assert!(!g.has_vertex(3));
}

#[test]
fn test_from_edges() {
    let g = SimpleGraph::from_edges(4, &[(0, 1), (1, 2), (2, 3), (3, 0)]);
    assert_eq!(g.nv(), 4);
    assert_eq!(g.ne(), 4);
    assert!(g.has_edge(0, 1));
    assert!(g.has_edge(3, 0));
    assert!(!g.has_edge(0, 2));
}

#[test]
fn test_edges_iterator() {
    let g = SimpleGraph::from_edges(3, &[(0, 1), (1, 2)]);
    let edges: Vec<(u32, u32)> = g.edges().collect();
    assert_eq!(edges, vec![(0, 1), (1, 2)]);
}

#[test]
fn test_rem_edge() {
    let mut g = SimpleGraph::from_edges(3, &[(0, 1), (1, 2)]);
    assert_eq!(g.ne(), 2);
    g.rem_edge(0, 1);
    assert!(!g.has_edge(0, 1));
    assert_eq!(g.ne(), 1);
    g.rem_edge(0, 1);
    assert_eq!(g.ne(), 1);
}

#[test]
fn test_add_vertex() {
    let mut g = SimpleGraph::new(2);
    assert_eq!(g.nv(), 2);
    g.add_vertex();
    assert_eq!(g.nv(), 3);
    g.add_edge(0, 2);
    assert!(g.has_edge(0, 2));
}

#[test]
fn test_rem_vertices_basic() {
    let g = SimpleGraph::from_edges(4, &[(0, 1), (1, 2), (2, 3)]);
    let (g2, vmap) = g.rem_vertices(&[1, 3]);
    assert_eq!(g2.nv(), 2);
    assert_eq!(g2.ne(), 0);
    assert_eq!(vmap, vec![0, 2]);
}

#[test]
fn test_rem_vertices_preserves_edges() {
    let g = SimpleGraph::from_edges(3, &[(0, 1), (1, 2), (0, 2)]);
    let (g2, vmap) = g.rem_vertices(&[1]);
    assert_eq!(g2.nv(), 2);
    assert_eq!(g2.ne(), 1);
    assert!(g2.has_edge(0, 1));
    assert_eq!(vmap, vec![0, 2]);
}

#[test]
fn test_rem_vertices_empty_removal() {
    let g = SimpleGraph::from_edges(3, &[(0, 1)]);
    let (g2, vmap) = g.rem_vertices(&[]);
    assert_eq!(g2.nv(), 3);
    assert_eq!(g2.ne(), 1);
    assert_eq!(vmap, vec![0, 1, 2]);
}

#[test]
fn test_rem_vertices_all() {
    let g = SimpleGraph::from_edges(3, &[(0, 1), (1, 2), (0, 2)]);
    let (g2, vmap) = g.rem_vertices(&[0, 1, 2]);
    assert_eq!(g2.nv(), 0);
    assert_eq!(g2.ne(), 0);
    assert!(vmap.is_empty());
}

#[test]
fn test_induced_subgraph() {
    let g = SimpleGraph::from_edges(5, &[(0, 1), (1, 2), (2, 3), (3, 4), (0, 4)]);
    let (sub, vmap) = g.induced_subgraph(&[1, 2, 3]);
    assert_eq!(sub.nv(), 3);
    assert_eq!(sub.ne(), 2);
    assert!(sub.has_edge(0, 1));
    assert!(sub.has_edge(1, 2));
    assert!(!sub.has_edge(0, 2));
    assert_eq!(vmap, vec![1, 2, 3]);
}

#[test]
fn test_try_from_edges_ok() {
    let g = SimpleGraph::try_from_edges(3, &[(0, 1), (1, 2)]).unwrap();
    assert_eq!(g.nv(), 3);
    assert_eq!(g.ne(), 2);
}

#[test]
fn test_try_from_edges_self_loop() {
    assert!(SimpleGraph::try_from_edges(3, &[(0, 0)]).is_err());
}

#[test]
fn test_try_from_edges_oob() {
    assert!(SimpleGraph::try_from_edges(3, &[(0, 5)]).is_err());
}

use simple_graph::algo::{bfs, connected_components, dfs, is_connected, shortest_path_lengths};
use simple_graph::{CsrGraph, SimpleGraph};

#[test]
fn test_bfs_order() {
    let g = SimpleGraph::from_edges(4, &[(0, 1), (0, 2), (1, 3)]);
    let order: Vec<u32> = bfs(&g, 0).collect();
    assert_eq!(order, vec![0, 1, 2, 3]);
}

#[test]
fn test_bfs_disconnected() {
    let g = SimpleGraph::new(4);
    let order: Vec<u32> = bfs(&g, 0).collect();
    assert_eq!(order, vec![0]);
}

#[test]
fn test_bfs_on_csr() {
    let sg = SimpleGraph::from_edges(4, &[(0, 1), (0, 2), (1, 3)]);
    let csr = CsrGraph::from(&sg);
    let order: Vec<u32> = bfs(&csr, 0).collect();
    assert_eq!(order, vec![0, 1, 2, 3]);
}

#[test]
fn test_is_connected_true() {
    let g = SimpleGraph::from_edges(3, &[(0, 1), (1, 2)]);
    assert!(is_connected(&g));
}

#[test]
fn test_is_connected_false() {
    let g = SimpleGraph::new(3);
    assert!(!is_connected(&g));
}

#[test]
fn test_is_connected_empty() {
    let g = SimpleGraph::new(0);
    assert!(is_connected(&g));
}

#[test]
fn test_is_connected_single() {
    let g = SimpleGraph::new(1);
    assert!(is_connected(&g));
}

#[test]
fn test_is_connected_csr() {
    let sg = SimpleGraph::from_edges(3, &[(0, 1), (1, 2)]);
    let csr = CsrGraph::from(&sg);
    assert!(is_connected(&csr));
}

#[test]
fn test_connected_components() {
    let g = SimpleGraph::from_edges(6, &[(0, 1), (1, 2), (3, 4)]);
    let labels = connected_components(&g);
    assert_eq!(labels.len(), 6);
    assert_eq!(labels[0], labels[1]);
    assert_eq!(labels[1], labels[2]);
    assert_eq!(labels[3], labels[4]);
    assert_ne!(labels[0], labels[3]);
    assert_ne!(labels[0], labels[5]);
    assert_ne!(labels[3], labels[5]);
}

#[test]
fn test_connected_components_count() {
    let g = SimpleGraph::from_edges(6, &[(0, 1), (1, 2), (3, 4)]);
    let labels = connected_components(&g);
    let mut unique: Vec<u32> = labels.clone();
    unique.sort_unstable();
    unique.dedup();
    assert_eq!(unique.len(), 3);
}

#[test]
fn test_dfs_visits_all_connected() {
    // Path: 0-1-2-3
    let g = SimpleGraph::from_edges(4, &[(0, 1), (1, 2), (2, 3)]);
    let order: Vec<u32> = dfs(&g, 0).collect();
    assert_eq!(order.len(), 4);
    assert_eq!(order[0], 0);
    assert_eq!(order, vec![0, 1, 2, 3]);
}

#[test]
fn test_dfs_disconnected() {
    let g = SimpleGraph::new(4);
    let order: Vec<u32> = dfs(&g, 0).collect();
    assert_eq!(order, vec![0]);
}

#[test]
fn test_dfs_on_csr() {
    let sg = SimpleGraph::from_edges(4, &[(0, 1), (1, 2), (2, 3)]);
    let csr = CsrGraph::from(&sg);
    let order: Vec<u32> = dfs(&csr, 0).collect();
    assert_eq!(order.len(), 4);
    assert_eq!(order[0], 0);
}

#[test]
fn test_dfs_invalid_source() {
    let g = SimpleGraph::new(3);
    let order: Vec<u32> = dfs(&g, 10).collect();
    assert!(order.is_empty());
}

#[test]
fn test_dfs_triangle() {
    // 0-1, 0-2, 1-2: the smallest neighbor is visited first.
    let g = SimpleGraph::from_edges(3, &[(0, 1), (0, 2), (1, 2)]);
    let order: Vec<u32> = dfs(&g, 0).collect();
    assert_eq!(order.len(), 3);
    assert_eq!(order[0], 0);
    assert_eq!(order, vec![0, 1, 2]);
}

#[test]
fn test_path_graph() {
    // 0-1-2-3
    let g = SimpleGraph::from_edges(4, &[(0, 1), (1, 2), (2, 3)]);
    let d = shortest_path_lengths(&g, 0);
    assert_eq!(d, vec![Some(0), Some(1), Some(2), Some(3)]);
}

#[test]
fn test_disconnected() {
    // 0-1, 2-3 (two components)
    let g = SimpleGraph::from_edges(4, &[(0, 1), (2, 3)]);
    let d = shortest_path_lengths(&g, 0);
    assert_eq!(d, vec![Some(0), Some(1), None, None]);
}

#[test]
fn test_triangle() {
    let g = SimpleGraph::from_edges(3, &[(0, 1), (1, 2), (0, 2)]);
    let d = shortest_path_lengths(&g, 0);
    assert_eq!(d, vec![Some(0), Some(1), Some(1)]);
}

#[test]
fn test_on_csr() {
    let sg = SimpleGraph::from_edges(4, &[(0, 1), (1, 2), (2, 3)]);
    let csr = CsrGraph::from(&sg);
    let d = shortest_path_lengths(&csr, 0);
    assert_eq!(d, vec![Some(0), Some(1), Some(2), Some(3)]);
}

#[test]
fn test_invalid_source() {
    let g = SimpleGraph::new(3);
    let d = shortest_path_lengths(&g, 10);
    assert_eq!(d, vec![None, None, None]);
}

#[test]
fn test_single_vertex() {
    let g = SimpleGraph::new(1);
    let d = shortest_path_lengths(&g, 0);
    assert_eq!(d, vec![Some(0)]);
}

use simple_graph::algo::is_connected;
use simple_graph::gen::{complete, cycle, grid_2d, path};

#[test]
fn test_complete() {
    let g = complete(5);
    assert_eq!(g.nv(), 5);
    assert_eq!(g.ne(), 10);
    assert!(g.has_edge(0, 4));
    assert!(g.has_edge(2, 3));
}

#[test]
fn test_complete_0_and_1() {
    assert_eq!(complete(0).ne(), 0);
    assert_eq!(complete(0).nv(), 0);
    assert_eq!(complete(1).ne(), 0);
    assert_eq!(complete(1).nv(), 1);
}

#[test]
fn test_cycle() {
    let g = cycle(5);
    assert_eq!(g.nv(), 5);
    assert_eq!(g.ne(), 5);
    assert!(g.has_edge(0, 1));
    assert!(g.has_edge(4, 0));
    assert!(!g.has_edge(0, 2));
}

#[test]
fn test_cycle_3() {
    let g = cycle(3);
    assert_eq!(g.ne(), 3);
    assert!(is_connected(&g));
}

#[test]
fn test_path() {
    let g = path(5);
    assert_eq!(g.nv(), 5);
    assert_eq!(g.ne(), 4);
    assert!(g.has_edge(0, 1));
    assert!(g.has_edge(3, 4));
    assert!(!g.has_edge(0, 4));
    assert!(is_connected(&g));
}

#[test]
fn test_path_0_and_1() {
    assert_eq!(path(0).nv(), 0);
    assert_eq!(path(1).nv(), 1);
    assert_eq!(path(1).ne(), 0);
}

#[test]
fn test_grid_2d() {
    let g = grid_2d(3, 4);
    assert_eq!(g.nv(), 12);
    assert_eq!(g.ne(), 17);
    assert!(is_connected(&g));
}

#[test]
fn test_grid_2d_1x1() {
    let g = grid_2d(1, 1);
    assert_eq!(g.nv(), 1);
    assert_eq!(g.ne(), 0);
}

#[test]
fn test_grid_2d_0() {
    assert_eq!(grid_2d(0, 5).nv(), 0);
    assert_eq!(grid_2d(5, 0).nv(), 0);
    assert_eq!(grid_2d(0, 0).nv(), 0);
}

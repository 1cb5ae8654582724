use simple_graph::algo::{bfs, dfs, shortest_path_lengths};
use simple_graph::gen::{complete, cycle, grid_2d, path};
use simple_graph::io::{
    read_edge_list, read_matrix_market, write_edge_list, write_matrix_market, Field, NumberError, ReadError,
};
use simple_graph::simple_graph::RawGraphError;
use simple_graph::{edges, CsrBuilder, CsrGraph, SimpleGraph};

fn sample() -> SimpleGraph {
    SimpleGraph::from_edges(6, &[(0, 1), (1, 2), (2, 0), (3, 4), (4, 5), (1, 4)])
}

#[test]
fn edges_are_undirected() {
    let g = sample();
    for u in 0..7u32 {
        for v in 0..7u32 {
            assert_eq!(g.has_edge(u, v), g.has_edge(v, u));
        }
    }
}

#[test]
fn edge_count_matches_edge_iterator() {
    for g in [sample(), complete(6), cycle(7), path(5), grid_2d(3, 4), SimpleGraph::new(4)] {
        assert_eq!(g.edges().collect().len(), g.ne());
        let total: usize = (0..g.nv() as u32).map(|v| g.degree(v)).sum();
        assert_eq!(total, 2 * g.ne());
    }
}

#[test]
fn add_then_remove_edge_restores_graph() {
    let g0 = sample();
    let mut g = g0.clone();
    assert!(!g.has_edge(0, 5));
    g.add_edge(0, 5);
    assert_eq!(g.ne(), g0.ne() + 1);
    g.rem_edge(5, 0);
    assert_eq!(g, g0);
}

#[test]
fn remove_then_add_edge_restores_graph() {
    let g0 = sample();
    let mut g = g0.clone();
    g.rem_edge(1, 4);
    assert!(!g.has_edge(4, 1));
    g.add_edge(4, 1);
    assert_eq!(g, g0);
}

#[test]
fn add_existing_and_remove_missing_change_nothing() {
    let g0 = sample();
    let mut g = g0.clone();
    g.add_edge(2, 1);
    assert_eq!(g, g0);
    g.rem_edge(0, 5);
    g.rem_edge(0, 100);
    assert_eq!(g, g0);
}

#[test]
fn same_edges_give_same_graph() {
    let pairs = [(3, 1), (0, 2), (1, 3), (2, 0), (1, 0)];
    let a = SimpleGraph::from_edges(4, &pairs);
    let b = SimpleGraph::try_from_edges(4, &pairs).unwrap();
    let mut builder = CsrBuilder::new(4);
    for &(u, v) in pairs.iter() {
        builder.add_edge(u, v);
    }
    let c = builder.build();
    assert_eq!(a, b);
    assert_eq!(c.to_simple_graph(), a);
    assert_eq!(c.ne(), 3);
    assert_eq!(c.neighbors(1), &[0, 3]);
}

#[test]
fn csr_round_trip_keeps_graph() {
    let g = grid_2d(4, 3);
    let c = CsrGraph::from(&g);
    assert_eq!(c.to_simple_graph(), g);
    for v in 0..g.nv() as u32 {
        assert_eq!(c.neighbors(v), g.neighbors(v));
    }
}

#[test]
fn removal_is_induced_complement() {
    let g = sample();
    assert_eq!(g.rem_vertices(&[1, 3, 3, 9]), g.induced_subgraph(&[5, 0, 2, 4]));
}

#[test]
fn traversals_visit_the_component_once() {
    let g = sample();
    let mut b = bfs(&g, 3).collect();
    let mut d = dfs(&g, 3).collect();
    b.sort_unstable();
    d.sort_unstable();
    assert_eq!(b, vec![0, 1, 2, 3, 4, 5]);
    assert_eq!(d, vec![0, 1, 2, 3, 4, 5]);
    let two = SimpleGraph::from_edges(5, &[(0, 1), (3, 4)]);
    assert_eq!(bfs(&two, 4).collect(), vec![4, 3]);
    assert_eq!(dfs(&two, 1).count(), 2);
}

#[test]
fn edge_list_text_is_exact() {
    let g = SimpleGraph::from_edges(12, &[(11, 10), (0, 1), (3, 0)]);
    let mut buf = Vec::new();
    write_edge_list(&g, &mut buf);
    assert_eq!(String::from_utf8(buf).unwrap(), "12 3\n0 1\n0 3\n10 11\n");
}

#[test]
fn matrix_market_text_is_exact() {
    let g = SimpleGraph::from_edges(12, &[(11, 10), (0, 1), (3, 0)]);
    let mut buf = Vec::new();
    write_matrix_market(&g, &mut buf);
    assert_eq!(
        String::from_utf8(buf).unwrap(),
        "%%MatrixMarket matrix coordinate pattern symmetric\n12 12 3\n2 1\n4 1\n12 11\n"
    );
}

#[test]
fn written_graphs_read_back() {
    for g in [sample(), complete(5), grid_2d(3, 4), SimpleGraph::new(0), SimpleGraph::new(2)] {
        let mut a = Vec::new();
        write_edge_list(&g, &mut a);
        assert_eq!(read_edge_list(&a).unwrap(), g);
        let mut b = Vec::new();
        write_matrix_market(&g, &mut b);
        assert_eq!(read_matrix_market(&b).unwrap(), g);
    }
}

#[test]
fn edge_list_reader_errors() {
    assert_eq!(read_edge_list(b""), Err(ReadError::EmptyInput));
    assert_eq!(read_edge_list(b"# only a comment\n\n   \n"), Err(ReadError::EmptyInput));
    assert_eq!(read_edge_list(b"3 1\n\xff 1\n"), Err(ReadError::InvalidUtf8));
    assert_eq!(read_edge_list(b"\n  \n"), Err(ReadError::EmptyInput));
    assert_eq!(read_edge_list(b"3\n"), Err(ReadError::Missing(Field::Ne)));
    assert_eq!(read_edge_list(b"3 1\n0\n"), Err(ReadError::Missing(Field::V)));
    assert_eq!(read_edge_list(b"3 x\n"), Err(ReadError::BadNumber(NumberError::InvalidDigit)));
    assert_eq!(read_edge_list(b"3 1\n0 4294967296\n"), Err(ReadError::BadNumber(NumberError::TooLarge)));
    assert_eq!(read_edge_list(b"3 1\n-0 1\n"), Err(ReadError::BadNumber(NumberError::InvalidDigit)));
    assert_eq!(read_edge_list(b"3 1\n+ 1\n"), Err(ReadError::BadNumber(NumberError::InvalidDigit)));
    assert_eq!(
        read_edge_list(b"3 2\n0 1\n1 0\n"),
        Err(ReadError::EdgeCountMismatch { declared: 2, found: 1 })
    );
    assert_eq!(
        read_edge_list(b"3 2\n2 2\n0 5\n"),
        Err(ReadError::InvalidGraph("vertex out of range: (0, 5), n=3".to_string()))
    );
    assert_eq!(read_edge_list(b"3 1\n1 1\n"), Err(ReadError::InvalidGraph("self-loop on vertex 1".to_string())));
}

#[test]
fn edge_list_reader_spacing_and_signs() {
    let g = read_edge_list("% header\r\n +3\u{a0}2 extra\r\n0\u{3000}+1\r\n\t2 1".as_bytes()).unwrap();
    assert_eq!(g, SimpleGraph::from_edges(3, &[(0, 1), (1, 2)]));
}

#[test]
fn matrix_market_reader_errors() {
    assert_eq!(read_matrix_market(b""), Err(ReadError::EmptyInput));
    assert_eq!(read_matrix_market(b"3 3 0\n"), Err(ReadError::MissingBanner));
    assert_eq!(read_matrix_market(b"%%MatrixMarket matrix coordinate pattern general\n"), Err(ReadError::NotSymmetric));
    assert_eq!(read_matrix_market(b"%%MatrixMarket matrix array pattern symmetric\n"), Err(ReadError::NotCoordinate));
    assert_eq!(
        read_matrix_market(b"%%MatrixMarket matrix coordinate real symmetric\n2 2 1\n2 1 1.0\n"),
        Err(ReadError::NotPattern)
    );
    assert_eq!(
        read_matrix_market(b"%%MatrixMarket matrix coordinate pattern symmetric\n% note\n"),
        Err(ReadError::MissingSizeLine)
    );
    assert_eq!(
        read_matrix_market(b"%%MatrixMarket matrix coordinate pattern symmetric\n3 4 1\n"),
        Err(ReadError::NonSquare)
    );
    assert_eq!(
        read_matrix_market(b"%%MatrixMarket matrix coordinate pattern symmetric\n3 3\n"),
        Err(ReadError::Missing(Field::Nnz))
    );
    assert_eq!(
        read_matrix_market(b"%%MatrixMarket matrix coordinate pattern symmetric\n3 3 1\n2 0\n"),
        Err(ReadError::ZeroIndex)
    );
    assert_eq!(
        read_matrix_market(b"%%MatrixMarket matrix coordinate pattern symmetric\n3 3 2\n1 2\n"),
        Err(ReadError::EntryCountMismatch { declared: 2, found: 1 })
    );
    assert_eq!(
        read_matrix_market(b"%%MatrixMarket matrix coordinate pattern symmetric\n3 3 1\n2 2\n"),
        Err(ReadError::InvalidGraph("self-loop on vertex 1".to_string()))
    );
    assert_eq!(read_matrix_market(b"\xc3\x28\n"), Err(ReadError::InvalidUtf8));
}

#[test]
fn matrix_market_banner_in_any_case() {
    let g = read_matrix_market(b"  %%MATRIXMARKET Matrix COORDINATE pattern SYMMETRIC  \n% c\n2 2 1\n2 1\n").unwrap();
    assert_eq!(g, SimpleGraph::from_edges(2, &[(0, 1)]));
    // The Kelvin sign lowercases to an ASCII `k`.
    let kelvin = "%%MatrixMar\u{212A}et coordinate pattern symmetric\n1 1 0\n";
    assert_eq!(read_matrix_market(kelvin.as_bytes()).unwrap().nv(), 1);
}

#[test]
fn try_from_edges_messages() {
    assert_eq!(SimpleGraph::try_from_edges(3, &[(0, 1), (2, 2)]), Err("self-loop on vertex 2".to_string()));
    assert_eq!(SimpleGraph::try_from_edges(3, &[(7, 1)]), Err("vertex out of range: (7, 1), n=3".to_string()));
    if usize::BITS > 32 {
        let n = (u32::MAX as usize) + 1;
        assert_eq!(SimpleGraph::try_from_edges(n, &[]), Err("vertex count 4294967296 exceeds u32::MAX".to_string()));
    }
}

#[test]
fn from_raw_checks_the_lists() {
    let ok = SimpleGraph::from_raw(2, vec![vec![1, 2], vec![0], vec![0]]).unwrap();
    assert_eq!(ok, SimpleGraph::from_edges(3, &[(0, 1), (0, 2)]));
    assert_eq!(SimpleGraph::from_raw(0, vec![vec![3], vec![], vec![]]), Err(RawGraphError::NeighborOutOfRange));
    assert_eq!(SimpleGraph::from_raw(0, vec![vec![0]]), Err(RawGraphError::SelfLoop));
    assert_eq!(SimpleGraph::from_raw(0, vec![vec![2, 1], vec![0], vec![0]]), Err(RawGraphError::NotSorted));
    assert_eq!(SimpleGraph::from_raw(0, vec![vec![1], vec![]]), Err(RawGraphError::Asymmetric));
    assert_eq!(SimpleGraph::from_raw(3, vec![vec![1], vec![0]]), Err(RawGraphError::WrongEdgeCount));
}

#[test]
fn edges_size_hint_is_edge_count() {
    let g = complete(4);
    assert_eq!(edges(&g).size_hint(), (0, Some(6)));
}

#[test]
fn bfs_goes_by_distance() {
    for g in [sample(), grid_2d(4, 5), cycle(9), path(6)] {
        for s in 0..g.nv() as u32 {
            let order = bfs(&g, s).collect();
            let dist = shortest_path_lengths(&g, s);
            assert_eq!(order[0], s);
            let reached = dist.iter().filter(|d| d.is_some()).count();
            assert_eq!(order.len(), reached);
            for w in order.windows(2) {
                assert!(dist[w[0] as usize].unwrap() <= dist[w[1] as usize].unwrap());
            }
        }
    }
}

#[test]
fn builder_matches_from_edges() {
    let es = [(4, 2), (0, 1), (2, 4), (3, 0), (1, 0)];
    let mut b = CsrBuilder::with_capacity(5, 2);
    for &(u, v) in es.iter() {
        b.add_edge(u, v);
    }
    assert_eq!(b.build(), CsrGraph::from(&SimpleGraph::from_edges(5, &es)));
}

//! Properties that relate the operations of the library to each other.
use vstd::prelude::*;
use crate::csr::pair_lt;
use crate::graph::Graph;
use crate::io::edge_list::{
    canonical, distinct_edges, edge_list_read, edge_list_syntax, edge_list_text, header_from, lemma_header_bound,
    lemma_header_shift, lemma_header_skip_line, lemma_header_split,
};
use crate::io::lex::{blank, first_visible};
use crate::io::pairs::{lemma_pairs_insert_line, lemma_pairs_shift, line_break, Format};
use crate::io::syntax::{lemma_line_end_prefix, line_end};
use vstd::utf8::{decode_utf8, valid_utf8};
use crate::io::matrix_market::{
    lemma_size_bound, lemma_size_shift, lemma_size_skip_line, lemma_size_split, matrix_market_read, matrix_market_syntax,
    matrix_market_text, size_from,
};
use crate::io::roundtrip::{lemma_edge_list_syntax, lemma_matrix_market_syntax, swapped};
use crate::io::syntax::ReadError;
use crate::iter::{edge_list, lemma_edge_list_listed, lemma_edges_from, lemma_handshake};
use crate::text::ascii_bytes;
use crate::model::{
    adjacency_of_edges, adjacent, degree_sum, edge_added, edge_removed, edges_valid, lemma_adjacency_extensional,
    lemma_strictly_increasing_unique, listed, num_edges, valid_adjacency,
};
use crate::simple_graph::{induced_by, kept_in_order, SimpleGraph};

verus! {

/// Edges are undirected: `has_edge(u, v)` and `has_edge(v, u)` agree.
pub proof fn law_edges_undirected(adj: Seq<Seq<u32>>, u: int, v: int)
    requires
        valid_adjacency(adj),
    ensures
        adjacent(adj, u, v) == adjacent(adj, v, u),
{
    if adjacent(adj, u, v) {
        assert(adj[v].contains(u as u32));
    }
    if adjacent(adj, v, u) {
        assert(adj[u].contains(v as u32));
    }
}

/// The number of edges is the number of pairs the edge iterator yields, and
/// the adjacency lists hold every edge twice.
pub proof fn law_edge_count(adj: Seq<Seq<u32>>)
    requires
        valid_adjacency(adj),
    ensures
        num_edges(adj) == edge_list(adj).len(),
        degree_sum(adj) == 2 * num_edges(adj),
{
    lemma_handshake(adj);
}

/// Adding a new edge and then removing it gives back the graph.
pub proof fn law_add_then_remove_edge(
    a0: Seq<Seq<u32>>,
    a1: Seq<Seq<u32>>,
    a2: Seq<Seq<u32>>,
    u: int,
    v: int,
)
    requires
        valid_adjacency(a0),
        valid_adjacency(a1),
        valid_adjacency(a2),
        !adjacent(a0, u, v),
        edge_added(a0, a1, u, v),
        edge_removed(a1, a2, u, v),
    ensures
        a2 == a0,
{
    assert forall|x: int, y: int| adjacent(a2, x, y) <==> adjacent(a0, x, y) by {
        law_edges_undirected(a0, u, v);
    }
    lemma_adjacency_extensional(a2, a0);
}

/// Removing an edge and then adding it back gives back the graph.
pub proof fn law_remove_then_add_edge(
    a0: Seq<Seq<u32>>,
    a1: Seq<Seq<u32>>,
    a2: Seq<Seq<u32>>,
    u: int,
    v: int,
)
    requires
        valid_adjacency(a0),
        valid_adjacency(a1),
        valid_adjacency(a2),
        adjacent(a0, u, v),
        edge_removed(a0, a1, u, v),
        edge_added(a1, a2, u, v),
    ensures
        a2 == a0,
{
    assert forall|x: int, y: int| adjacent(a2, x, y) <==> adjacent(a0, x, y) by {
        law_edges_undirected(a0, u, v);
    }
    lemma_adjacency_extensional(a2, a0);
}

/// Adding an edge that is already there changes nothing.
pub proof fn law_add_existing_edge(a0: Seq<Seq<u32>>, a1: Seq<Seq<u32>>, u: int, v: int)
    requires
        valid_adjacency(a0),
        valid_adjacency(a1),
        adjacent(a0, u, v),
        edge_added(a0, a1, u, v),
    ensures
        a1 == a0,
{
    assert forall|x: int, y: int| adjacent(a1, x, y) <==> adjacent(a0, x, y) by {
        law_edges_undirected(a0, u, v);
    }
    lemma_adjacency_extensional(a1, a0);
}

/// Removing an edge that is not there changes nothing.
pub proof fn law_remove_missing_edge(a0: Seq<Seq<u32>>, a1: Seq<Seq<u32>>, u: int, v: int)
    requires
        valid_adjacency(a0),
        valid_adjacency(a1),
        !adjacent(a0, u, v),
        edge_removed(a0, a1, u, v),
    ensures
        a1 == a0,
{
    assert forall|x: int, y: int| adjacent(a1, x, y) <==> adjacent(a0, x, y) by {
        law_edges_undirected(a0, u, v);
    }
    lemma_adjacency_extensional(a1, a0);
}

/// A list of edges determines the graph: `from_edges`, `try_from_edges`,
/// `CsrGraph::from_sorted_unique_edges`, `CsrBuilder::build` and the readers
/// build the same graph from the same edges, whatever their order and
/// repetitions.
pub proof fn law_graph_of_edges_unique(a: Seq<Seq<u32>>, b: Seq<Seq<u32>>, n: nat, edges: Seq<(u32, u32)>)
    requires
        valid_adjacency(a),
        valid_adjacency(b),
        adjacency_of_edges(a, n, edges),
        adjacency_of_edges(b, n, edges),
    ensures
        a == b,
{
    assert forall|x: int, y: int| adjacent(a, x, y) <==> adjacent(b, x, y) by {
        if 0 <= x < n && 0 <= y < n {
            assert(a[x].contains(y as u32) <==> b[x].contains(y as u32));
        }
    }
    lemma_adjacency_extensional(a, b);
}

/// Removing a set of vertices gives the same graph and vertex map as taking
/// the subgraph induced by the vertices that remain.
pub proof fn law_removal_is_induced_complement(
    adj: Seq<Seq<u32>>,
    to_remove: Seq<u32>,
    vertices: Seq<u32>,
    vm1: Seq<u32>,
    s1: Seq<Seq<u32>>,
    vm2: Seq<u32>,
    s2: Seq<Seq<u32>>,
)
    requires
        valid_adjacency(adj),
        forall|v: u32| v < adj.len() ==> (#[trigger] vertices.contains(v) <==> !to_remove.contains(v)),
        kept_in_order(adj.len(), |v: u32| !to_remove.contains(v), vm1),
        induced_by(adj, vm1, s1),
        valid_adjacency(s1),
        kept_in_order(adj.len(), |v: u32| vertices.contains(v), vm2),
        induced_by(adj, vm2, s2),
        valid_adjacency(s2),
    ensures
        vm1 == vm2,
        s1 == s2,
{
    assert forall|v: u32| vm1.contains(v) <==> vm2.contains(v) by {
        if v < adj.len() {
            assert(vertices.contains(v) <==> !to_remove.contains(v));
        }
    }
    lemma_strictly_increasing_unique(vm1, vm2);
    assert forall|x: int, y: int| adjacent(s1, x, y) <==> adjacent(s2, x, y) by {
        if 0 <= x < s1.len() && 0 <= y < s1.len() {
            assert(s1[x].contains(y as u32) <==> adj[vm1[x] as int].contains(vm1[y]));
            assert(s2[x].contains(y as u32) <==> adj[vm2[x] as int].contains(vm2[y]));
        }
    }
    lemma_adjacency_extensional(s1, s2);
}

/// The listed edges of a graph are what the adjacency lists say.
proof fn lemma_adjacency_of_edge_list(adj: Seq<Seq<u32>>)
    requires
        valid_adjacency(adj),
    ensures
        adjacency_of_edges(adj, adj.len(), edge_list(adj)),
{
    assert forall|u: int, x: u32| 0 <= u < adj.len() implies (#[trigger] adj[u].contains(x) <==> listed(
        edge_list(adj),
        u,
        x as int,
    )) by {
        lemma_edge_list_listed(adj, u, x as int);
    }
}

/// The edge list has no repeats and every pair is already canonical, so its
/// distinct edges are as many as its pairs.
proof fn lemma_edge_list_distinct(adj: Seq<Seq<u32>>)
    requires
        valid_adjacency(adj),
    ensures
        distinct_edges(edge_list(adj)).len() == edge_list(adj).len(),
        edges_valid(adj.len(), edge_list(adj)),
{
    let el = edge_list(adj);
    lemma_edges_from(adj, 0);
    assert(el.map_values(|p: (u32, u32)| canonical(p)) =~= el);
    assert(el.no_duplicates()) by {
        assert forall|i: int, j: int| 0 <= i < el.len() && 0 <= j < el.len() && i != j implies el[i] != el[j] by {
            if i < j {
                assert(pair_lt(el[i], el[j]));
            } else {
                assert(pair_lt(el[j], el[i]));
            }
        }
    }
    el.unique_seq_to_set();
}

/// Reading back what `write_edge_list` writes for any graph gives the same
/// graph.
pub proof fn law_edge_list_roundtrip_of<G: Graph>(g: &G, r: Result<SimpleGraph, ReadError>)
    requires
        g.inv(),
        edge_list_read(ascii_bytes(edge_list_text(g.adj())), r),
    ensures
        r matches Ok(h) && h.wf() && h@ == g.adj(),
{
    g.lemma_inv();
    law_edge_list_roundtrip(g.adj(), r);
}

/// Reading back what `write_matrix_market` writes for any graph gives the
/// same graph.
pub proof fn law_matrix_market_roundtrip_of<G: Graph>(g: &G, r: Result<SimpleGraph, ReadError>)
    requires
        g.inv(),
        matrix_market_read(ascii_bytes(matrix_market_text(g.adj())), r),
    ensures
        r matches Ok(h) && h.wf() && h@ == g.adj(),
{
    g.lemma_inv();
    law_matrix_market_roundtrip(g.adj(), r);
}

/// Whatever bytes the edge-list reader is given, a graph it returns is well
/// formed: strictly increasing, in-range, symmetric, loop-free lists whose
/// total length is twice the edge count.
pub proof fn law_edge_list_result_valid(b: Seq<u8>, r: Result<SimpleGraph, ReadError>)
    requires
        edge_list_read(b, r),
    ensures
        r matches Ok(g) ==> g.wf() && valid_adjacency(g@) && degree_sum(g@) == 2 * num_edges(g@),
{
    if r is Ok {
        r->Ok_0.lemma_wf();
    }
}

/// Whatever bytes the Matrix Market reader is given, a graph it returns is
/// well formed: strictly increasing, in-range, symmetric, loop-free lists
/// whose total length is twice the edge count.
pub proof fn law_matrix_market_result_valid(b: Seq<u8>, r: Result<SimpleGraph, ReadError>)
    requires
        matrix_market_read(b, r),
    ensures
        r matches Ok(g) ==> g.wf() && valid_adjacency(g@) && degree_sum(g@) == 2 * num_edges(g@),
{
    if r is Ok {
        r->Ok_0.lemma_wf();
    }
}

/// `CsrBuilder` and `SimpleGraph::from_edges` build the same graph from the
/// same edges: the builder records each pair in either orientation, and the
/// graph of the recorded pairs is the graph of the given ones.
pub proof fn law_builder_matches_from_edges(
    built: Seq<Seq<u32>>,
    made: Seq<Seq<u32>>,
    n: nat,
    es: Seq<(u32, u32)>,
    recorded: Seq<(u32, u32)>,
)
    requires
        valid_adjacency(built),
        valid_adjacency(made),
        recorded.len() == es.len(),
        forall|i: int| 0 <= i < es.len() ==> #[trigger] recorded[i] == es[i] || recorded[i] == (es[i].1, es[i].0),
        adjacency_of_edges(built, n, recorded),
        adjacency_of_edges(made, n, es),
    ensures
        built == made,
{
    assert forall|u: int, x: u32| 0 <= u < n implies (#[trigger] built[u].contains(x) <==> listed(es, u, x as int)) by {
        if listed(es, u, x as int) {
            let i = choose|i: int|
                0 <= i < es.len() && ((#[trigger] es[i]).0 == u && es[i].1 == x || es[i].0 == x && es[i].1 == u);
            assert(recorded[i] == es[i] || recorded[i] == (es[i].1, es[i].0));
            assert(listed(recorded, u, x as int));
        }
        if listed(recorded, u, x as int) {
            let i = choose|i: int|
                0 <= i < recorded.len() && ((#[trigger] recorded[i]).0 == u && recorded[i].1 == x || recorded[i].0 == x
                    && recorded[i].1 == u);
            assert(recorded[i] == es[i] || recorded[i] == (es[i].1, es[i].0));
            assert(listed(es, u, x as int));
        }
    }
    law_graph_of_edges_unique(built, made, n, es);
}

/// Reading back what `write_edge_list` writes gives the same graph.
pub proof fn law_edge_list_roundtrip(adj: Seq<Seq<u32>>, r: Result<SimpleGraph, ReadError>)
    requires
        valid_adjacency(adj),
        num_edges(adj) <= usize::MAX,
        edge_list_read(ascii_bytes(edge_list_text(adj)), r),
    ensures
        r matches Ok(g) && g.wf() && g@ == adj,
{
    lemma_edge_list_syntax(adj);
    lemma_handshake(adj);
    lemma_edge_list_distinct(adj);
    lemma_adjacency_of_edge_list(adj);
    let g = r->Ok_0;
    g.lemma_wf();
    law_graph_of_edges_unique(g@, adj, adj.len(), edge_list(adj));
}

/// Reading back what `write_matrix_market` writes gives the same graph.
pub proof fn law_matrix_market_roundtrip(adj: Seq<Seq<u32>>, r: Result<SimpleGraph, ReadError>)
    requires
        valid_adjacency(adj),
        num_edges(adj) <= usize::MAX,
        matrix_market_read(ascii_bytes(matrix_market_text(adj)), r),
    ensures
        r matches Ok(g) && g.wf() && g@ == adj,
{
    let el = edge_list(adj);
    let sw = swapped(el);
    lemma_matrix_market_syntax(adj);
    lemma_handshake(adj);
    lemma_edges_from(adj, 0);
    assert(edges_valid(adj.len(), sw)) by {
        assert forall|i: int| 0 <= i < sw.len() implies (#[trigger] sw[i]).0 != sw[i].1 && sw[i].0 < adj.len()
            && sw[i].1 < adj.len() by {
            assert(sw[i] == (el[i].1, el[i].0));
        }
    }
    assert forall|u: int, x: u32| 0 <= u < adj.len() implies (#[trigger] adj[u].contains(x) <==> listed(
        sw,
        u,
        x as int,
    )) by {
        lemma_edge_list_listed(adj, u, x as int);
        if listed(sw, u, x as int) {
            let i = choose|i: int|
                0 <= i < sw.len() && ((#[trigger] sw[i]).0 == u && sw[i].1 == x || sw[i].0 == x && sw[i].1 == u);
            assert(sw[i] == (el[i].1, el[i].0));
        }
        if listed(el, u, x as int) {
            let i = choose|i: int|
                0 <= i < el.len() && ((#[trigger] el[i]).0 == u && el[i].1 == x || el[i].0 == x && el[i].1 == u);
            assert(sw[i] == (el[i].1, el[i].0));
        }
    }
    let g = r->Ok_0;
    g.lemma_wf();
    law_graph_of_edges_unique(g@, adj, adj.len(), sw);
}

/// Blank lines and comment lines (those whose trimmed text starts with `#`
/// or `%`) do not count in an edge list: putting one in at any line
/// boundary, before or after the header, changes nothing the text declares
/// or lists, so reading it gives the same graph, or the same error.
pub proof fn law_edge_list_ignores_comment_line(
    p: Seq<u8>,
    line: Seq<u8>,
    x: Seq<u8>,
    r: Result<SimpleGraph, ReadError>,
)
    requires
        p.len() == 0 || p.last() == 10,
        forall|j: int| 0 <= j < line.len() ==> #[trigger] line[j] != 10,
        valid_utf8(line),
        blank(decode_utf8(line)) || first_visible(decode_utf8(line)) == '#' || first_visible(decode_utf8(line)) == '%',
    ensures
        edge_list_syntax(p + (line + line_break()) + x) == edge_list_syntax(p + x),
        edge_list_read(p + (line + line_break()) + x, r) == edge_list_read(p + x, r),
{
    let l = line + line_break();
    let b1 = p + l + x;
    let b2 = p + x;
    lemma_header_skip_line(line, x);
    lemma_header_bound(x, 0);
    if p.len() == 0 {
        assert(b1 =~= l + x);
        assert(b2 =~= x);
        if let Ok((_, _, k)) = header_from(x, 0) {
            lemma_pairs_shift(Format::EdgeList, l, x, k);
        }
    } else {
        assert(b1 =~= p + (l + x));
        lemma_header_split(p, l + x, 0);
        lemma_header_split(p, x, 0);
        lemma_header_bound(p, 0);
        if header_from(p, 0) == Err::<(nat, nat, int), ReadError>(ReadError::EmptyInput) {
            lemma_header_shift(p, l + x, 0);
            lemma_header_shift(p, x, 0);
            if let Ok((_, _, k)) = header_from(x, 0) {
                lemma_pairs_shift(Format::EdgeList, p, l + x, l.len() + k);
                lemma_pairs_shift(Format::EdgeList, l, x, k);
                lemma_pairs_shift(Format::EdgeList, p, x, k);
            }
        } else if let Ok((_, _, k)) = header_from(p, 0) {
            lemma_pairs_insert_line(Format::EdgeList, p, line, x, k);
        }
    }
}

/// Blank lines and comment lines (those whose trimmed text starts with `%`)
/// do not count in a Matrix Market text: putting one in at any line
/// boundary after the banner, before or after the size line, changes
/// nothing the text declares or lists, so reading it gives the same graph,
/// or the same error.
pub proof fn law_matrix_market_ignores_comment_line(
    p: Seq<u8>,
    line: Seq<u8>,
    x: Seq<u8>,
    r: Result<SimpleGraph, ReadError>,
)
    requires
        p.len() > 0,
        p.last() == 10,
        forall|j: int| 0 <= j < line.len() ==> #[trigger] line[j] != 10,
        valid_utf8(line),
        blank(decode_utf8(line)) || first_visible(decode_utf8(line)) == '%',
    ensures
        matrix_market_syntax(p + (line + line_break()) + x) == matrix_market_syntax(p + x),
        matrix_market_read(p + (line + line_break()) + x, r) == matrix_market_read(p + x, r),
{
    let l = line + line_break();
    let b1 = p + l + x;
    let b2 = p + x;
    assert(b1 =~= p + (l + x));
    lemma_line_end_prefix(p, l + x, 0);
    lemma_line_end_prefix(p, x, 0);
    let s0 = line_end(p, 0) + 1;
    lemma_size_split(p, l + x, s0);
    lemma_size_split(p, x, s0);
    lemma_size_skip_line(line, x);
    lemma_size_bound(p, s0);
    lemma_size_bound(x, 0);
    if size_from(p, s0) == Err::<(nat, nat, int), ReadError>(ReadError::MissingSizeLine) {
        lemma_size_shift(p, l + x, 0);
        lemma_size_shift(p, x, 0);
        if let Ok((_, _, k)) = size_from(x, 0) {
            lemma_pairs_shift(Format::MatrixMarket, p, l + x, l.len() + k);
            lemma_pairs_shift(Format::MatrixMarket, l, x, k);
            lemma_pairs_shift(Format::MatrixMarket, p, x, k);
        }
    } else if let Ok((_, _, k)) = size_from(p, s0) {
        lemma_pairs_insert_line(Format::MatrixMarket, p, line, x, k);
    }
}

} // verus!

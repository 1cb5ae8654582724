//! Edge-list text: a line `nv ne`, then one line `u v` per edge.
use vstd::prelude::*;
use crate::csr::{dedup_sorted_pairs, lemma_listed_contains, pair_lt, sort_pairs};
use crate::graph::Graph;
use crate::io::lex::{blank, first_visible};
use crate::io::pairs::{lemma_first_line, lemma_skipped_line, line_break, pairs_from, passed_over, read_pairs, skip_line, Format};
use vstd::utf8::{decode_utf8, valid_utf8};
use crate::io::syntax::{find_line_end, line_at, line_end, lemma_line_end, lemma_line_end_prefix, lemma_line_end_shift, moved, number_at, read_line, read_number, Field, ReadError};
use crate::iter::{edge_list, edges};
use crate::model::{adjacency_of_edges, edges_valid, listed, num_edges};
use crate::simple_graph::{bad_edge_message, edge_ok, first_bad_edge, too_many_vertices_message, SimpleGraph};
use crate::text::{ascii_bytes, lemma_ascii_bytes_add, pair_line, push_pair_line};

verus! {

/// The numbers of vertices and edges on the header line.
pub open spec fn header_numbers(s: Seq<char>) -> Result<(nat, nat), ReadError> {
    match number_at(s, 0, usize::MAX as nat, Field::Nv) {
        Err(x) => Err(x),
        Ok((nv, e)) => match number_at(s, e, usize::MAX as nat, Field::Ne) {
            Err(x) => Err(x),
            Ok((ne, _)) => Ok((nv, ne)),
        },
    }
}

/// Moving to the next line leaves less input.
#[via_fn]
proof fn header_from_decreases(b: Seq<u8>, i: int) {
    if 0 <= i < b.len() {
        lemma_line_end(b, i);
    }
}

/// The header found on the first line at or after `i` that is not passed
/// over: the numbers of vertices and edges, and where the next line starts.
pub open spec fn header_from(b: Seq<u8>, i: int) -> Result<(nat, nat, int), ReadError>
    decreases b.len() + 1 - i,
    via header_from_decreases
{
    if i < 0 || i >= b.len() {
        Err(ReadError::EmptyInput)
    } else {
        let e = line_end(b, i);
        match line_at(b, i) {
            None => Err(ReadError::InvalidUtf8),
            Some(s) => if passed_over(Format::EdgeList, s) {
                header_from(b, e + 1)
            } else {
                match header_numbers(s) {
                    Err(x) => Err(x),
                    Ok((nv, ne)) => Ok((nv, ne, e + 1)),
                }
            },
        }
    }
}

/// Across a prefix that ends with a line break: a header found in the prefix
/// is found, the same, in any longer text; otherwise the search goes on
/// after the prefix.
pub proof fn lemma_header_split(p: Seq<u8>, x: Seq<u8>, i: int)
    requires
        p.len() > 0,
        p.last() == 10,
        0 <= i <= p.len(),
    ensures
        header_from(p + x, i) == if header_from(p, i) == Err::<(nat, nat, int), ReadError>(ReadError::EmptyInput) {
            header_from(p + x, p.len() as int)
        } else {
            header_from(p, i)
        },
        header_from(p, i) matches Ok((_, _, k)) ==> k <= p.len(),
    decreases p.len() - i,
{
    if i < p.len() {
        lemma_line_end_prefix(p, x, i);
        let e = line_end(p, i);
        if line_at(p, i) matches Some(s) && passed_over(Format::EdgeList, s) {
            lemma_header_split(p, x, e + 1);
        }
    }
}

/// A header is found on a line at or after `i`, and the next line starts
/// at most one past the end of the text.
pub proof fn lemma_header_bound(b: Seq<u8>, i: int)
    ensures
        header_from(b, i) matches Ok((_, _, k)) ==> i < k <= b.len() + 1,
    decreases b.len() + 1 - i,
{
    if 0 <= i < b.len() {
        lemma_line_end(b, i);
        lemma_header_bound(b, line_end(b, i) + 1);
    }
}

/// The header search in the text after a prefix is the search in that text.
pub proof fn lemma_header_shift(p: Seq<u8>, x: Seq<u8>, j: int)
    requires
        0 <= j <= x.len() + 1,
    ensures
        header_from(p + x, p.len() + j) == moved(header_from(x, j), p.len() as int),
    decreases x.len() + 1 - j,
{
    if j < x.len() {
        lemma_line_end_shift(p, x, j);
        lemma_line_end(x, j);
        lemma_header_shift(p, x, line_end(x, j) + 1);
    }
}

/// A blank or comment line at the start of the text is passed over by the
/// header search: the header is the one of the text after it, found one
/// line later.
pub proof fn lemma_header_skip_line(line: Seq<u8>, x: Seq<u8>)
    requires
        forall|j: int| 0 <= j < line.len() ==> #[trigger] line[j] != 10,
        valid_utf8(line),
        blank(decode_utf8(line)) || first_visible(decode_utf8(line)) == '%' || first_visible(decode_utf8(line)) == '#',
    ensures
        header_from(line + line_break() + x, 0) == moved(header_from(x, 0), (line + line_break()).len() as int),
{
    lemma_skipped_line(Format::EdgeList, line, x);
    lemma_header_shift(line + line_break(), x, 0);
}

/// A line at the start of the text that is not blank and does not start
/// (after leading spaces) with `#` or `%` is the header line: its two
/// numbers, or the error on it.
pub proof fn lemma_header_first_line(line: Seq<u8>, x: Seq<u8>)
    requires
        forall|j: int| 0 <= j < line.len() ==> #[trigger] line[j] != 10,
        valid_utf8(line),
        !blank(decode_utf8(line)),
        first_visible(decode_utf8(line)) != '#',
        first_visible(decode_utf8(line)) != '%',
    ensures
        header_from(line + line_break() + x, 0) == match header_numbers(decode_utf8(line)) {
            Err(e) => Err(e),
            Ok((nv, ne)) => Ok((nv, ne, (line + line_break()).len() as int)),
        },
{
    lemma_first_line(line, x);
}

/// What the text declares and lists: vertex count, declared edge count and
/// the pairs, or the first error met reading it.
pub open spec fn edge_list_syntax(b: Seq<u8>) -> Result<(nat, nat, Seq<(u32, u32)>), ReadError> {
    match header_from(b, 0) {
        Err(x) => Err(x),
        Ok((nv, ne, i)) => match pairs_from(Format::EdgeList, b, i) {
            Err(x) => Err(x),
            Ok(pairs) => Ok((nv, ne, pairs)),
        },
    }
}

/// Finds the header line and reads its two numbers.
fn find_header(b: &[u8]) -> (r: Result<(usize, usize, usize), ReadError>)
    requires
        b@.len() <= isize::MAX,
    ensures
        match header_from(b@, 0) {
            Ok((nv, ne, i)) => r == Ok::<(usize, usize, usize), ReadError>((nv as usize, ne as usize, i as usize))
                && 0 < i <= b@.len() + 1 && nv <= usize::MAX && ne <= usize::MAX,
            Err(x) => r == Err::<(usize, usize, usize), ReadError>(x),
        },
{
    let mut pos: usize = 0;
    while pos < b.len()
        invariant
            pos <= b@.len() + 1,
            b@.len() <= isize::MAX,
            header_from(b@, 0) == header_from(b@, pos as int),
        decreases b@.len() + 1 - pos,
    {
        let e = find_line_end(b, pos);
        match read_line(b, pos, e) {
            None => {
                return Err(ReadError::InvalidUtf8);
            },
            Some(s) => {
                if skip_line(Format::EdgeList, &s) {
                    pos = e + 1;
                } else {
                    let (nv, after) = match read_number(&s, 0, usize::MAX as u64, Field::Nv) {
                        Ok(x) => x,
                        Err(x) => {
                            return Err(x);
                        },
                    };
                    let (ne, _) = match read_number(&s, after, usize::MAX as u64, Field::Ne) {
                        Ok(x) => x,
                        Err(x) => {
                            return Err(x);
                        },
                    };
                    return Ok((nv as usize, ne as usize, e + 1));
                }
            },
        }
    }
    Err(ReadError::EmptyInput)
}

/// A pair written with its smaller vertex first.
pub open spec fn canonical(p: (u32, u32)) -> (u32, u32) {
    if p.0 <= p.1 {
        p
    } else {
        (p.1, p.0)
    }
}

/// The distinct undirected edges among the pairs, each with its smaller
/// vertex first.
pub open spec fn distinct_edges(pairs: Seq<(u32, u32)>) -> Set<(u32, u32)> {
    pairs.map_values(|p: (u32, u32)| canonical(p)).to_set()
}

/// `p` is the lexicographically least of the edges `es` that is not an edge
/// of a graph on `n` vertices.
pub open spec fn least_invalid(n: nat, es: Set<(u32, u32)>, p: (u32, u32)) -> bool {
    &&& es.contains(p)
    &&& !edge_ok(n, p)
    &&& forall|q: (u32, u32)| #[trigger] es.contains(q) && !edge_ok(n, q) ==> !pair_lt(q, p)
}

/// What reading the edge-list text `b` gives. A text that cannot be read
/// gives the first error met. Otherwise the number of distinct edges must be
/// the declared one, then the vertex count must fit in `u32` and every edge
/// join two distinct vertices below it (else the message names the least
/// offending edge); the graph is the one with exactly the listed edges.
pub open spec fn edge_list_read(b: Seq<u8>, r: Result<SimpleGraph, ReadError>) -> bool {
    match edge_list_syntax(b) {
        Err(x) => r == Err::<SimpleGraph, ReadError>(x),
        Ok((nv, declared, pairs)) => {
            let found = distinct_edges(pairs).len();
            if found != declared {
                r == Err::<SimpleGraph, ReadError>(
                    ReadError::EdgeCountMismatch { declared: declared as usize, found: found as usize },
                )
            } else if nv > u32::MAX {
                r matches Err(ReadError::InvalidGraph(m)) && m@ == too_many_vertices_message(nv)
            } else if !edges_valid(nv, pairs) {
                exists|p: (u32, u32)|
                    least_invalid(nv, distinct_edges(pairs), p) && (r matches Err(ReadError::InvalidGraph(m))
                        && m@ == bad_edge_message(nv, p))
            } else {
                r matches Ok(g) && g.wf() && adjacency_of_edges(g@, nv, pairs)
            }
        },
    }
}

/// Each pair with its smaller vertex first.
fn canonical_pairs(pairs: &Vec<(u32, u32)>) -> (c: Vec<(u32, u32)>)
    ensures
        c@ == pairs@.map_values(|p: (u32, u32)| canonical(p)),
{
    let mut c: Vec<(u32, u32)> = Vec::new();
    let mut i: usize = 0;
    while i < pairs.len()
        invariant
            i <= pairs@.len(),
            c@ == pairs@.take(i as int).map_values(|p: (u32, u32)| canonical(p)),
        decreases pairs@.len() - i,
    {
        let (u, v) = pairs[i];
        if u <= v {
            c.push((u, v));
        } else {
            c.push((v, u));
        }
        proof {
            assert(pairs@.take(i + 1).map_values(|p: (u32, u32)| canonical(p)) =~= pairs@.take(i as int).map_values(
                |p: (u32, u32)| canonical(p),
            ).push(canonical(pairs@[i as int])));
        }
        i += 1;
    }
    proof {
        assert(pairs@.take(i as int) =~= pairs@);
    }
    c
}

/// Two lists with the same canonical pairs list the same edges, and are
/// valid for the same vertex counts.
proof fn lemma_same_edges(pairs: Seq<(u32, u32)>, uniq: Seq<(u32, u32)>, n: nat)
    requires
        forall|e: (u32, u32)| #[trigger] uniq.contains(e) <==> pairs.map_values(|p: (u32, u32)| canonical(p)).contains(e),
    ensures
        forall|u: u32, v: u32| #[trigger] listed(uniq, u as int, v as int) <==> listed(pairs, u as int, v as int),
        edges_valid(n, uniq) <==> edges_valid(n, pairs),
{
    let cs = pairs.map_values(|p: (u32, u32)| canonical(p));
    assert forall|u: u32, v: u32| #[trigger] listed(uniq, u as int, v as int) <==> listed(pairs, u as int, v as int) by {
        lemma_listed_contains(uniq, u, v);
        lemma_listed_contains(pairs, u, v);
        if pairs.contains((u, v)) {
            let j = choose|j: int| 0 <= j < pairs.len() && pairs[j] == (u, v);
            assert(cs[j] == canonical((u, v)));
            assert(cs.contains(canonical((u, v))));
        }
        if pairs.contains((v, u)) {
            let j = choose|j: int| 0 <= j < pairs.len() && pairs[j] == (v, u);
            assert(cs[j] == canonical((v, u)));
            assert(cs.contains(canonical((v, u))));
        }
        if uniq.contains((u, v)) {
            let j = choose|j: int| 0 <= j < cs.len() && cs[j] == (u, v);
            assert(cs[j] == canonical(pairs[j]));
            assert(pairs.contains(pairs[j]));
        }
        if uniq.contains((v, u)) {
            let j = choose|j: int| 0 <= j < cs.len() && cs[j] == (v, u);
            assert(cs[j] == canonical(pairs[j]));
            assert(pairs.contains(pairs[j]));
        }
    }
    if edges_valid(n, pairs) {
        assert forall|i: int| 0 <= i < uniq.len() implies (#[trigger] uniq[i]).0 != uniq[i].1 && uniq[i].0 < n
            && uniq[i].1 < n by {
            assert(uniq.contains(uniq[i]));
            let j = choose|j: int| 0 <= j < cs.len() && cs[j] == uniq[i];
            assert(cs[j] == canonical(pairs[j]));
        }
    }
    if edges_valid(n, uniq) {
        assert forall|j: int| 0 <= j < pairs.len() implies (#[trigger] pairs[j]).0 != pairs[j].1 && pairs[j].0 < n
            && pairs[j].1 < n by {
            assert(cs[j] == canonical(pairs[j]));
            assert(cs.contains(cs[j]));
            assert(uniq.contains(cs[j]));
            let i = choose|i: int| 0 <= i < uniq.len() && uniq[i] == cs[j];
        }
    }
}

/// Read a graph from edge-list text. Lines that are blank or start with `#`
/// or `%` are skipped. The first other line must be `nv ne`; the rest are
/// `u v` edges. An error is returned if the number of distinct edges is not
/// `ne`, or if an edge is a self-loop or has a vertex out of range. (No slice
/// is longer than `isize::MAX` bytes.)
pub fn read_edge_list(input: &[u8]) -> (r: Result<SimpleGraph, ReadError>)
    requires
        input@.len() <= isize::MAX,
    ensures
        edge_list_read(input@, r),
        r matches Ok(g) ==> g.wf(),
{
    let (nv, declared, start) = match find_header(input) {
        Ok(h) => h,
        Err(x) => {
            return Err(x);
        },
    };
    let pairs = match read_pairs(Format::EdgeList, input, start) {
        Ok(p) => p,
        Err(x) => {
            return Err(x);
        },
    };
    let mut canon = canonical_pairs(&pairs);
    let ghost cs = canon@;
    sort_pairs(&mut canon);
    let uniq = dedup_sorted_pairs(&canon);
    proof {
        broadcast use vstd::seq_lib::group_to_multiset_ensures;
        assert forall|e: (u32, u32)| #[trigger] uniq@.contains(e) <==> cs.contains(e) by {
            assert(canon@.to_multiset().count(e) == cs.to_multiset().count(e));
        }
        assert(distinct_edges(pairs@) =~= uniq@.to_set());
        assert(uniq@.no_duplicates()) by {
            assert forall|i: int, j: int| 0 <= i < uniq@.len() && 0 <= j < uniq@.len() && i != j implies uniq@[i]
                != uniq@[j] by {
                if i < j {
                    assert(pair_lt(uniq@[i], uniq@[j]));
                } else {
                    assert(pair_lt(uniq@[j], uniq@[i]));
                }
            }
        }
        uniq@.unique_seq_to_set();
        lemma_same_edges(pairs@, uniq@, nv as nat);
        assert(canon@.len() == cs.len()) by {
            assert(canon@.to_multiset().len() == cs.to_multiset().len());
        }
        assert(edge_list_syntax(input@) == Ok::<(nat, nat, Seq<(u32, u32)>), ReadError>((nv as nat, declared as nat, pairs@)));
    }
    if uniq.len() != declared {
        return Err(ReadError::EdgeCountMismatch { declared, found: uniq.len() });
    }
    match SimpleGraph::try_from_edges(nv, &uniq) {
        Ok(g) => {
            proof {
                assert forall|u: int, x: u32| 0 <= u < nv implies (#[trigger] g@[u].contains(x) <==> listed(
                    pairs@,
                    u,
                    x as int,
                )) by {
                    assert(listed(uniq@, (u as u32) as int, x as int) <==> listed(pairs@, (u as u32) as int, x as int));
                }
            }
            Ok(g)
        },
        Err(m) => {
            proof {
                if nv <= u32::MAX {
                    let i = choose|i: int|
                        first_bad_edge(nv as nat, uniq@, i) && m@ == bad_edge_message(nv as nat, #[trigger] uniq@[i]);
                    let p = uniq@[i];
                    assert(uniq@.contains(p));
                    assert forall|q: (u32, u32)| #[trigger]
                        distinct_edges(pairs@).contains(q) && !edge_ok(nv as nat, q) implies !pair_lt(q, p) by {
                        assert(uniq@.contains(q));
                        let j = choose|j: int| 0 <= j < uniq@.len() && uniq@[j] == q;
                        if j < i {
                            assert(edge_ok(nv as nat, uniq@[j]));
                        } else if j > i {
                            assert(pair_lt(uniq@[i], uniq@[j]));
                        }
                    }
                    assert(least_invalid(nv as nat, distinct_edges(pairs@), p));
                }
            }
            Err(ReadError::InvalidGraph(m))
        },
    }
}

/// The lines `u v` of the pairs, in order.
pub open spec fn pair_lines(es: Seq<(u32, u32)>) -> Seq<char>
    decreases es.len(),
{
    if es.len() == 0 {
        Seq::empty()
    } else {
        pair_lines(es.drop_last()) + pair_line(es.last().0 as nat, es.last().1 as nat)
    }
}

/// The edge-list text of a graph: `nv ne`, then each edge as `u v` with
/// `u < v`, in lexicographic order.
pub open spec fn edge_list_text(adj: Seq<Seq<u32>>) -> Seq<char> {
    pair_line(adj.len(), num_edges(adj)) + pair_lines(edge_list(adj))
}

/// Write a graph in edge-list format: first line `nv ne`, then one `u v`
/// line per edge (u < v).
pub fn write_edge_list<G: Graph>(graph: &G, out: &mut Vec<u8>)
    requires
        graph.inv(),
    ensures
        final(out)@ == old(out)@ + ascii_bytes(edge_list_text(graph.adj())),
{
    let ghost base = out@;
    let ghost adj = graph.adj();
    let nv = graph.nv();
    let ne = graph.ne();
    push_pair_line(out, nv as u64, ne as u64);
    let mut it = edges(graph);
    let ghost total = it.remaining();
    let ghost mut done: Seq<(u32, u32)> = Seq::empty();
    loop
        invariant
            it.wf(),
            it.graph_adj() == adj,
            total == edge_list(adj),
            done + it.remaining() == total,
            out@ == base + ascii_bytes(pair_line(adj.len(), num_edges(adj))) + ascii_bytes(pair_lines(done)),
        ensures
            out@ == base + ascii_bytes(pair_line(adj.len(), num_edges(adj))) + ascii_bytes(pair_lines(total)),
        decreases it.remaining().len(),
    {
        match it.next() {
            Some((u, v)) => {
                let ghost o0 = out@;
                push_pair_line(out, u as u64, v as u64);
                proof {
                    let d1 = done.push((u, v));
                    assert(d1.drop_last() =~= done);
                    lemma_ascii_bytes_add(pair_lines(done), pair_line(u as nat, v as nat));
                    assert(out@ =~= base + ascii_bytes(pair_line(adj.len(), num_edges(adj))) + ascii_bytes(pair_lines(d1)));
                    assert(d1 + it.remaining() =~= total);
                    done = d1;
                }
            },
            None => {
                proof {
                    assert(done =~= total);
                }
                break;
            },
        }
    }
    proof {
        lemma_ascii_bytes_add(pair_line(adj.len(), num_edges(adj)), pair_lines(total));
        assert(out@ =~= base + ascii_bytes(edge_list_text(adj)));
    }
}

} // verus!

//! Enumeration of the edges of a graph, each once as `(u, v)` with `u < v`.
use vstd::prelude::*;
use crate::graph::Graph;
use crate::csr::{incidence, lemma_incidence_degree_sum, lemma_others_contains, lemma_others_sorted, pair_lt, sorted_unique_pairs};
use crate::model::{adjacent, degree_sum, lemma_strictly_increasing_unique, listed, num_edges, strictly_increasing, valid_adjacency};
use crate::search::count_at_most;

verus! {

/// The entries of `list` above `w`, in order.
pub open spec fn above(list: Seq<u32>, w: int) -> Seq<u32>
    decreases list.len(),
{
    if list.len() == 0 {
        Seq::empty()
    } else if list.last() > w {
        above(list.drop_last(), w).push(list.last())
    } else {
        above(list.drop_last(), w)
    }
}

/// Pair each entry of `list` with `w` in front.
pub open spec fn pairs_with(w: int, list: Seq<u32>) -> Seq<(u32, u32)> {
    list.map_values(|v: u32| (w as u32, v))
}

/// The edges `(w, v)` with `w < v`, for `w` from `u` up to the last vertex,
/// in increasing order of `w` and then of `v`.
pub open spec fn edges_from(adj: Seq<Seq<u32>>, u: int) -> Seq<(u32, u32)>
    decreases adj.len() - u,
{
    if u < 0 || u >= adj.len() {
        Seq::empty()
    } else {
        pairs_with(u, above(adj[u], u)) + edges_from(adj, u + 1)
    }
}

/// All edges `(u, v)` with `u < v`, in lexicographic order.
pub open spec fn edge_list(adj: Seq<Seq<u32>>) -> Seq<(u32, u32)> {
    edges_from(adj, 0)
}

/// The entries above `w` of a strictly increasing list are strictly
/// increasing, and are exactly its entries greater than `w`.
pub proof fn lemma_above(list: Seq<u32>, w: int)
    requires
        strictly_increasing(list),
    ensures
        strictly_increasing(above(list, w)),
        forall|y: u32| #[trigger] above(list, w).contains(y) <==> (list.contains(y) && y > w),
    decreases list.len(),
{
    if list.len() > 0 {
        let pre = list.drop_last();
        let last = list.last();
        lemma_above(pre, w);
        let ap = above(pre, w);
        assert forall|y: u32| #[trigger] list.contains(y) <==> (pre.contains(y) || y == last) by {
            if list.contains(y) {
                let i = choose|i: int| 0 <= i < list.len() && list[i] == y;
                if i < pre.len() {
                    assert(pre[i] == y);
                }
            }
            if pre.contains(y) {
                let i = choose|i: int| 0 <= i < pre.len() && pre[i] == y;
                assert(list[i] == y);
            }
            assert(list[list.len() - 1] == last);
        }
        if last > w {
            let a = ap.push(last);
            assert forall|y: u32| #[trigger] a.contains(y) <==> (ap.contains(y) || y == last) by {
                if a.contains(y) {
                    let i = choose|i: int| 0 <= i < a.len() && a[i] == y;
                    if i < ap.len() {
                        assert(ap[i] == y);
                    }
                }
                if ap.contains(y) {
                    let i = choose|i: int| 0 <= i < ap.len() && ap[i] == y;
                    assert(a[i] == y);
                }
                assert(a[a.len() - 1] == last);
            }
            assert forall|i: int, j: int| 0 <= i < j < a.len() implies a[i] < a[j] by {
                if j == ap.len() {
                    assert(ap.contains(ap[i]));
                    let k = choose|k: int| 0 <= k < pre.len() && pre[k] == ap[i];
                    assert(list[k] < list[list.len() - 1]);
                }
            }
        }
    }
}

/// The pairs `edges_from(adj, u)` join a vertex `a >= u` to a neighbor above
/// it, are in strictly increasing lexicographic order, and include every such
/// pair.
pub proof fn lemma_edges_from(adj: Seq<Seq<u32>>, u: int)
    requires
        valid_adjacency(adj),
        0 <= u <= adj.len(),
    ensures
        forall|k: int| 0 <= k < edges_from(adj, u).len() ==> {
            let e = #[trigger] edges_from(adj, u)[k];
            u <= e.0 < e.1 < adj.len() && adj[e.0 as int].contains(e.1)
        },
        sorted_unique_pairs(edges_from(adj, u)),
        forall|a: u32, b: u32|
            u <= a < adj.len() && a < b && adj[a as int].contains(b) ==> #[trigger] edges_from(adj, u).contains((a, b)),
    decreases adj.len() - u,
{
    if u < adj.len() {
        lemma_edges_from(adj, u + 1);
        let ab = above(adj[u], u);
        lemma_above(adj[u], u);
        let p = pairs_with(u, ab);
        let r = edges_from(adj, u + 1);
        let all = edges_from(adj, u);
        assert(all == p + r);
        assert forall|k: int| 0 <= k < all.len() implies {
            let e = #[trigger] all[k];
            u <= e.0 < e.1 < adj.len() && adj[e.0 as int].contains(e.1)
        } by {
            if k < p.len() {
                assert(ab.contains(ab[k]));
                assert(all[k] == (u as u32, ab[k]));
            } else {
                assert(all[k] == r[k - p.len()]);
            }
        }
        assert forall|i: int, j: int| 0 <= i < j < all.len() implies pair_lt(#[trigger] all[i], #[trigger] all[j]) by {
            if j < p.len() {
                assert(all[i] == (u as u32, ab[i]) && all[j] == (u as u32, ab[j]));
            } else if i < p.len() {
                assert(all[i] == (u as u32, ab[i]));
                assert(all[j] == r[j - p.len()]);
            } else {
                assert(all[i] == r[i - p.len()] && all[j] == r[j - p.len()]);
            }
        }
        assert forall|a: u32, b: u32| u <= a < adj.len() && a < b && adj[a as int].contains(b) implies #[trigger] all.contains(
            (a, b),
        ) by {
            if a == u {
                assert(ab.contains(b));
                let i = choose|i: int| 0 <= i < ab.len() && ab[i] == b;
                assert(all[i] == (a, b));
            } else {
                assert(r.contains((a, b)));
                let i = choose|i: int| 0 <= i < r.len() && r[i] == (a, b);
                assert(all[p.len() + i] == (a, b));
            }
        }
    }
}

/// The edge list names `{x, y}` exactly when `x` and `y` are adjacent.
pub proof fn lemma_edge_list_listed(adj: Seq<Seq<u32>>, x: int, y: int)
    requires
        valid_adjacency(adj),
    ensures
        listed(edge_list(adj), x, y) <==> adjacent(adj, x, y),
{
    lemma_edges_from(adj, 0);
    let el = edge_list(adj);
    if listed(el, x, y) {
        let i = choose|i: int|
            0 <= i < el.len() && ((#[trigger] el[i]).0 == x && el[i].1 == y || el[i].0 == y && el[i].1 == x);
        let e = el[i];
        assert(adj[e.0 as int].contains(e.1));
        if e.0 == y {
            assert(adj[x].contains(y as u32));
        }
    }
    if adjacent(adj, x, y) {
        assert(adj[y].contains(x as u32));
        if x < y {
            assert(el.contains((x as u32, y as u32)));
            let i = choose|i: int| 0 <= i < el.len() && el[i] == (x as u32, y as u32);
            assert(el[i].0 == x && el[i].1 == y);
        } else {
            assert(el.contains((y as u32, x as u32)));
            let i = choose|i: int| 0 <= i < el.len() && el[i] == (y as u32, x as u32);
            assert(el[i].0 == y && el[i].1 == x);
        }
    }
}

/// Handshake: the lists hold every edge twice, so their total length is
/// twice the number of listed edges.
pub proof fn lemma_handshake(adj: Seq<Seq<u32>>)
    requires
        valid_adjacency(adj),
    ensures
        degree_sum(adj) == 2 * edge_list(adj).len(),
        num_edges(adj) == edge_list(adj).len(),
{
    let el = edge_list(adj);
    let n = adj.len();
    lemma_edges_from(adj, 0);
    assert forall|k: int| 0 <= k < el.len() implies (#[trigger] el[k]).0 < el[k].1 by {}
    let inc = incidence(n, el);
    assert forall|x: int| 0 <= x < n implies inc[x] == adj[x] by {
        lemma_others_sorted(el, x);
        assert forall|y: u32| inc[x].contains(y) <==> adj[x].contains(y) by {
            lemma_others_contains(el, x, y);
            lemma_edge_list_listed(adj, x, y as int);
        }
        lemma_strictly_increasing_unique(inc[x], adj[x]);
    }
    assert(inc =~= adj);
    lemma_incidence_degree_sum(n, el);
}

/// In a sorted list, the entries above `w` are those from the first one above `w` on.
proof fn lemma_above_suffix(list: Seq<u32>, w: int, k: int)
    requires
        strictly_increasing(list),
        0 <= k <= list.len(),
        forall|j: int| 0 <= j < k ==> list[j] <= w,
        forall|j: int| k <= j < list.len() ==> list[j] > w,
    ensures
        above(list, w) == list.subrange(k, list.len() as int),
    decreases list.len(),
{
    if list.len() > 0 {
        let pre = list.drop_last();
        if k == list.len() {
            lemma_above_suffix(pre, w, k - 1);
            assert(list.subrange(k, list.len() as int) =~= Seq::<u32>::empty());
            assert(pre.subrange(k - 1, pre.len() as int) =~= Seq::<u32>::empty());
        } else {
            lemma_above_suffix(pre, w, k);
            assert(list.subrange(k, list.len() as int) =~= pre.subrange(k, pre.len() as int).push(list.last()));
        }
    }
}

/// Iterator over the edges of a graph, yielding `(u, v)` with `u < v`.
pub struct Edges<'a, G: Graph> {
    graph: &'a G,
    u: u32,
    idx: usize,
}

impl<'a, G: Graph> Edges<'a, G> {
    /// The graph whose edges are enumerated.
    pub closed spec fn graph_adj(&self) -> Seq<Seq<u32>> {
        self.graph.adj()
    }

    /// The position is a vertex (or one past the last) and an index into
    /// its neighbor list past every neighbor not above it.
    pub closed spec fn wf(&self) -> bool {
        let adj = self.graph.adj();
        &&& self.graph.inv()
        &&& self.u <= adj.len()
        &&& self.u < adj.len() ==> self.idx <= adj[self.u as int].len() && forall|j: int|
            self.idx <= j < adj[self.u as int].len() ==> adj[self.u as int][j] > self.u
    }

    /// The edges still to be produced, in order.
    pub closed spec fn remaining(&self) -> Seq<(u32, u32)> {
        let adj = self.graph.adj();
        if self.u < adj.len() {
            pairs_with(
                self.u as int,
                adj[self.u as int].subrange(self.idx as int, adj[self.u as int].len() as int),
            ) + edges_from(adj, self.u + 1)
        } else {
            Seq::empty()
        }
    }

    /// Move `idx` past the neighbors of `u` that are not above `u`.
    fn skip_to_upper(&mut self)
        requires
            old(self).graph.inv(),
            old(self).u <= old(self).graph.adj().len(),
        ensures
            final(self).graph == old(self).graph,
            final(self).u == old(self).u,
            final(self).wf(),
            final(self).remaining() == edges_from(final(self).graph.adj(), final(self).u as int),
    {
        let nv = self.graph.nv();
        proof {
            self.graph.lemma_inv();
        }
        if (self.u as usize) < nv {
            let nbrs = self.graph.neighbors(self.u);
            self.idx = count_at_most(nbrs, self.u);
            proof {
                lemma_above_suffix(nbrs@, self.u as int, self.idx as int);
            }
        }
    }

    /// Produce the next edge.
    pub fn next(&mut self) -> (r: Option<(u32, u32)>)
        requires
            old(self).wf(),
        ensures
            final(self).wf(),
            final(self).graph_adj() == old(self).graph_adj(),
            match r {
                None => old(self).remaining().len() == 0 && final(self).remaining() == old(self).remaining(),
                Some(e) => old(self).remaining() == seq![e] + final(self).remaining(),
            },
    {
        let ghost adj = self.graph.adj();
        let ghost rem0 = self.remaining();
        let nv = self.graph.nv();
        proof {
            self.graph.lemma_inv();
        }
        while (self.u as usize) < nv
            invariant
                self.wf(),
                self.graph.adj() == adj,
                nv == adj.len(),
                valid_adjacency(adj),
                self.remaining() == rem0,
                adj == old(self).graph_adj(),
                rem0 == old(self).remaining(),
            decreases nv - self.u,
        {
            let nbrs = self.graph.neighbors(self.u);
            if self.idx < nbrs.len() {
                let v = nbrs[self.idx];
                let ghost rest = adj[self.u as int].subrange(self.idx as int, adj[self.u as int].len() as int);
                self.idx = self.idx + 1;
                proof {
                    let rest1 = adj[self.u as int].subrange(self.idx as int, adj[self.u as int].len() as int);
                    assert(rest =~= seq![v] + rest1);
                    assert(pairs_with(self.u as int, rest) =~= seq![(self.u, v)] + pairs_with(self.u as int, rest1));
                    assert(rem0 =~= seq![(self.u, v)] + self.remaining());
                    assert(self.graph.adj() == adj);
                    assert(self.graph_adj() == adj);
                }
                let e = (self.u, v);
                proof {
                    assert(rem0 == seq![e] + self.remaining());
                }
                return Some(e);
            }
            proof {
                let rest = adj[self.u as int].subrange(self.idx as int, adj[self.u as int].len() as int);
                assert(rest =~= Seq::<u32>::empty());
                assert(pairs_with(self.u as int, rest) =~= Seq::<(u32, u32)>::empty());
                assert(rem0 =~= edges_from(adj, self.u + 1));
            }
            self.u = self.u + 1;
            self.skip_to_upper();
        }
        proof {
            assert(rem0 =~= Seq::<(u32, u32)>::empty());
        }
        None
    }

    /// All remaining edges, in order.
    pub fn collect(self) -> (r: Vec<(u32, u32)>)
        requires
            self.wf(),
        ensures
            r@ == self.remaining(),
    {
        let ghost total = self.remaining();
        let mut it = self;
        let mut out: Vec<(u32, u32)> = Vec::new();
        loop
            invariant
                it.wf(),
                out@ + it.remaining() == total,
            ensures
                out@ == total,
            decreases it.remaining().len(),
        {
            match it.next() {
                Some(e) => {
                    out.push(e);
                    proof {
                        assert(out@ + it.remaining() =~= total);
                    }
                },
                None => {
                    proof {
                        assert(out@ =~= total);
                    }
                    break;
                },
            }
        }
        out
    }

    /// Upper bound on the number of remaining edges: the number of edges.
    pub fn size_hint(&self) -> (r: (usize, Option<usize>))
        requires
            self.wf(),
        ensures
            r == (0usize, Some(crate::model::num_edges(self.graph_adj()) as usize)),
    {
        (0, Some(self.graph.ne()))
    }
}

/// Create an iterator over all edges `(u, v)` with `u < v` for any [`Graph`].
pub fn edges<G: Graph>(graph: &G) -> (e: Edges<'_, G>)
    requires
        graph.inv(),
    ensures
        e.wf(),
        e.graph_adj() == graph.adj(),
        e.remaining() == edge_list(graph.adj()),
{
    let mut iter = Edges { graph, u: 0, idx: 0 };
    iter.skip_to_upper();
    iter
}

} // verus!

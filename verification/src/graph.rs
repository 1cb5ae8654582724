//! The read-only interface shared by all graph representations.
use vstd::prelude::*;
use crate::csr::CsrGraph;
use crate::model::{adjacent, degree_sum, lemma_distinct_below, num_edges, strictly_increasing, valid_adjacency};
use crate::simple_graph::SimpleGraph;

verus! {

/// Read-only interface shared by all graph representations.
pub trait Graph: Sized {
    /// The adjacency lists, one per vertex.
    spec fn adj(&self) -> Seq<Seq<u32>>;

    /// The representation is consistent.
    spec fn inv(&self) -> bool;

    /// A consistent representation holds a simple undirected graph.
    proof fn lemma_inv(&self)
        requires
            self.inv(),
        ensures
            valid_adjacency(self.adj()),
            degree_sum(self.adj()) <= usize::MAX,
    ;

    /// Number of vertices.
    fn nv(&self) -> (n: usize)
        requires
            self.inv(),
        ensures
            n == self.adj().len(),
    ;

    /// Number of edges.
    fn ne(&self) -> (m: usize)
        requires
            self.inv(),
        ensures
            m == num_edges(self.adj()),
    ;

    /// Whether vertex `v` exists.
    fn has_vertex(&self, v: u32) -> (b: bool)
        requires
            self.inv(),
        ensures
            b == (v < self.adj().len()),
    ;

    /// Whether edge `(u, v)` exists.
    fn has_edge(&self, u: u32, v: u32) -> (b: bool)
        requires
            self.inv(),
        ensures
            b == adjacent(self.adj(), u as int, v as int),
    ;

    /// Degree of vertex `v`.
    fn degree(&self, v: u32) -> (d: usize)
        requires
            self.inv(),
            v < self.adj().len(),
        ensures
            d == self.adj()[v as int].len(),
    ;

    /// Sorted neighbor slice of vertex `v`.
    fn neighbors(&self, v: u32) -> (s: &[u32])
        requires
            self.inv(),
            v < self.adj().len(),
        ensures
            s@ == self.adj()[v as int],
    ;

    /// Sorted degree sequence (ascending): each degree as often as vertices have it.
    fn degree_sequence(&self) -> (r: Vec<usize>)
        requires
            self.inv(),
        ensures
            nondecreasing(r@),
            forall|d: int| #[trigger] occurrences(r@, d) == degree_count(self.adj(), d),
    {
        let ghost adj = self.adj();
        let counts = self.degree_distribution();
        let mut seq: Vec<usize> = Vec::new();
        let mut d: usize = 0;
        while d < counts.len()
            invariant
                d <= counts@.len(),
                forall|x: int| 0 <= x < counts@.len() ==> #[trigger] counts@[x] == degree_count(adj, x),
                forall|x: int| x >= counts@.len() ==> #[trigger] degree_count(adj, x) == 0,
                nondecreasing(seq@),
                forall|i: int| 0 <= i < seq@.len() ==> #[trigger] seq@[i] < d,
                forall|x: int| #[trigger] occurrences(seq@, x) == if 0 <= x < d { degree_count(adj, x) } else { 0 },
            decreases counts@.len() - d,
        {
            let c = counts[d];
            let mut k: usize = 0;
            let ghost s0 = seq@;
            while k < c
                invariant
                    k <= c,
                    d < counts@.len(),
                    nondecreasing(seq@),
                    forall|i: int| 0 <= i < seq@.len() ==> #[trigger] seq@[i] <= d,
                    seq@.len() == s0.len() + k,
                    forall|i: int| 0 <= i < s0.len() ==> #[trigger] seq@[i] == s0[i],
                    forall|x: int| #[trigger] occurrences(seq@, x) == occurrences(s0, x) + if x == d { k as nat } else { 0nat },
                decreases c - k,
            {
                let ghost prev = seq@;
                seq.push(d);
                proof {
                    assert(seq@.drop_last() =~= prev);
                    assert forall|x: int| #[trigger] occurrences(seq@, x) == occurrences(s0, x) + if x == d { (k + 1) as nat } else { 0nat } by {
                        assert(occurrences(seq@, x) == occurrences(prev, x) + if seq@.last() == x { 1nat } else { 0nat });
                    }
                }
                k += 1;
            }
            proof {
                assert forall|i: int| 0 <= i < seq@.len() implies #[trigger] seq@[i] < d + 1 by {}
                assert forall|x: int| #[trigger] occurrences(seq@, x) == if 0 <= x < d + 1 { degree_count(adj, x) } else { 0 } by {}
            }
            d += 1;
        }
        proof {
            assert forall|x: int| #[trigger] occurrences(seq@, x) == degree_count(adj, x) by {
                if x < 0 {
                    lemma_degree_count_negative(adj, x);
                }
            }
        }
        seq
    }

    /// Degree distribution: entry `d` is the number of vertices of degree `d`;
    /// the list ends at the largest degree (empty for a graph without vertices).
    fn degree_distribution(&self) -> (r: Vec<usize>)
        requires
            self.inv(),
        ensures
            forall|d: int| 0 <= d < r@.len() ==> #[trigger] r@[d] == degree_count(self.adj(), d),
            forall|d: int| d >= r@.len() ==> #[trigger] degree_count(self.adj(), d) == 0,
            r@.len() > 0 ==> r@[r@.len() - 1] > 0,
    {
        let ghost adj = self.adj();
        proof {
            self.lemma_inv();
            assert(adj.take(0) =~= Seq::<Seq<u32>>::empty());
        }
        let n = self.nv();
        let mut dist = vec![0usize; n];
        let mut v: usize = 0;
        while v < n
            invariant
                v <= n,
                n == adj.len(),
                self.inv(),
                self.adj() == adj,
                valid_adjacency(adj),
                dist@.len() == n,
                forall|d: int| 0 <= d < dist@.len() ==> #[trigger] dist@[d] == degree_count(adj.take(v as int), d),
            decreases n - v,
        {
            let d = self.degree(v as u32);
            proof {
                lemma_degree_below(adj, v as int);
                assert forall|x: int| 0 <= x < dist@.len() implies degree_count(adj.take(v + 1), x) == degree_count(adj.take(v as int), x)
                    + if adj[v as int].len() == x { 1nat } else { 0nat } by {
                    lemma_degree_count_take(adj, v as int, x);
                }
                lemma_degree_count_bound(adj.take(v as int), d as int);
            }
            if d >= dist.len() {
                dist.resize(d + 1, 0);
            }
            let c = dist[d];
            dist.set(d, c + 1);
            v += 1;
        }
        proof {
            assert(adj.take(n as int) =~= adj);
            assert forall|d: int| d >= dist@.len() implies #[trigger] degree_count(adj, d) == 0 by {
                assert forall|u: int| 0 <= u < adj.len() implies #[trigger] adj[u].len() < d by {
                    lemma_degree_below(adj, u);
                }
                lemma_degree_count_large(adj, d);
            }
        }
        while dist.len() > 0 && dist[dist.len() - 1] == 0
            invariant
                forall|d: int| 0 <= d < dist@.len() ==> #[trigger] dist@[d] == degree_count(adj, d),
                forall|d: int| d >= dist@.len() ==> #[trigger] degree_count(adj, d) == 0,
            decreases dist@.len(),
        {
            dist.pop();
        }
        dist
    }
}

/// Number of vertices whose degree is `d`.
pub open spec fn degree_count(adj: Seq<Seq<u32>>, d: int) -> nat
    decreases adj.len(),
{
    if adj.len() == 0 {
        0
    } else {
        degree_count(adj.drop_last(), d) + if adj.last().len() == d {
            1nat
        } else {
            0nat
        }
    }
}

/// Number of entries of `s` equal to `x`.
pub open spec fn occurrences(s: Seq<usize>, x: int) -> nat
    decreases s.len(),
{
    if s.len() == 0 {
        0
    } else {
        occurrences(s.drop_last(), x) + if s.last() == x {
            1nat
        } else {
            0nat
        }
    }
}

/// The entries are in nondecreasing order.
pub open spec fn nondecreasing(s: Seq<usize>) -> bool {
    forall|i: int, j: int| 0 <= i <= j < s.len() ==> s[i] <= s[j]
}

/// In a simple graph every degree is below the number of vertices.
proof fn lemma_degree_below(adj: Seq<Seq<u32>>, u: int)
    requires
        valid_adjacency(adj),
        0 <= u < adj.len(),
    ensures
        adj[u].len() < adj.len(),
{
    let l = adj[u];
    assert(strictly_increasing(l));
    assert(l.no_duplicates()) by {
        assert forall|i: int, j: int| 0 <= i < l.len() && 0 <= j < l.len() && i != j implies l[i] != l[j] by {
            if i < j {
                assert(l[i] < l[j]);
            } else {
                assert(l[j] < l[i]);
            }
        }
    }
    assert forall|i: int| 0 <= i < l.len() implies (#[trigger] l[i] as int) < adj.len() by {
        assert(l.contains(l[i]));
    }
    lemma_distinct_below(l, adj.len());
    if l.len() == adj.len() {
        assert(l.contains(u as u32));
    }
}

proof fn lemma_degree_count_take(adj: Seq<Seq<u32>>, k: int, d: int)
    requires
        0 <= k < adj.len(),
    ensures
        degree_count(adj.take(k + 1), d) == degree_count(adj.take(k), d) + if adj[k].len() == d {
            1nat
        } else {
            0nat
        },
{
    assert(adj.take(k + 1).drop_last() =~= adj.take(k));
}

proof fn lemma_degree_count_bound(adj: Seq<Seq<u32>>, d: int)
    ensures
        degree_count(adj, d) <= adj.len(),
    decreases adj.len(),
{
    if adj.len() > 0 {
        lemma_degree_count_bound(adj.drop_last(), d);
    }
}

proof fn lemma_degree_count_large(adj: Seq<Seq<u32>>, d: int)
    requires
        forall|u: int| 0 <= u < adj.len() ==> #[trigger] adj[u].len() < d,
    ensures
        degree_count(adj, d) == 0,
    decreases adj.len(),
{
    if adj.len() > 0 {
        lemma_degree_count_large(adj.drop_last(), d);
    }
}

proof fn lemma_degree_count_negative(adj: Seq<Seq<u32>>, d: int)
    requires
        d < 0,
    ensures
        degree_count(adj, d) == 0,
    decreases adj.len(),
{
    if adj.len() > 0 {
        lemma_degree_count_negative(adj.drop_last(), d);
    }
}

/// Sorted degree sequence (ascending).
pub fn degree_sequence<G: Graph>(g: &G) -> (r: Vec<usize>)
    requires
        g.inv(),
    ensures
        nondecreasing(r@),
        forall|d: int| #[trigger] occurrences(r@, d) == degree_count(g.adj(), d),
{
    g.degree_sequence()
}

/// Degree distribution: entry `d` is the number of vertices of degree `d`.
pub fn degree_distribution<G: Graph>(g: &G) -> (r: Vec<usize>)
    requires
        g.inv(),
    ensures
        forall|d: int| 0 <= d < r@.len() ==> #[trigger] r@[d] == degree_count(g.adj(), d),
        forall|d: int| d >= r@.len() ==> #[trigger] degree_count(g.adj(), d) == 0,
        r@.len() > 0 ==> r@[r@.len() - 1] > 0,
{
    g.degree_distribution()
}

impl Graph for SimpleGraph {
    open spec fn adj(&self) -> Seq<Seq<u32>> {
        self@
    }

    open spec fn inv(&self) -> bool {
        self.wf()
    }

    proof fn lemma_inv(&self) {
        self.lemma_wf();
    }

    fn nv(&self) -> (n: usize) {
        SimpleGraph::nv(self)
    }

    fn ne(&self) -> (m: usize) {
        SimpleGraph::ne(self)
    }

    fn has_vertex(&self, v: u32) -> (b: bool) {
        SimpleGraph::has_vertex(self, v)
    }

    fn has_edge(&self, u: u32, v: u32) -> (b: bool) {
        SimpleGraph::has_edge(self, u, v)
    }

    fn degree(&self, v: u32) -> (d: usize) {
        SimpleGraph::degree(self, v)
    }

    fn neighbors(&self, v: u32) -> (s: &[u32]) {
        SimpleGraph::neighbors(self, v)
    }
}

impl Graph for CsrGraph {
    open spec fn adj(&self) -> Seq<Seq<u32>> {
        self@
    }

    open spec fn inv(&self) -> bool {
        self.wf()
    }

    proof fn lemma_inv(&self) {
        self.lemma_wf();
    }

    fn nv(&self) -> (n: usize) {
        CsrGraph::nv(self)
    }

    fn ne(&self) -> (m: usize) {
        CsrGraph::ne(self)
    }

    fn has_vertex(&self, v: u32) -> (b: bool) {
        CsrGraph::has_vertex(self, v)
    }

    fn has_edge(&self, u: u32, v: u32) -> (b: bool) {
        CsrGraph::has_edge(self, u, v)
    }

    fn degree(&self, v: u32) -> (d: usize) {
        CsrGraph::degree(self, v)
    }

    fn neighbors(&self, v: u32) -> (s: &[u32]) {
        CsrGraph::neighbors(self, v)
    }
}

} // verus!

//! `CsrGraph`: compressed sparse row storage — all neighbor lists in one
//! vector, indexed by a vector of offsets — and `CsrBuilder`.
use vstd::prelude::*;
use vstd::slice::{slice_subrange, slice_to_vec};
use crate::model::{
    adjacent, adjacency_of_edges, degree_sum, empty_adjacency, lemma_degree_sum_empty,
    lemma_degree_sum_take, lemma_degree_sum_take_le, lemma_degree_sum_update, listed,
    num_edges, strictly_increasing, valid_adjacency,
};
use crate::search::binary_search;
use crate::simple_graph::SimpleGraph;

verus! {

/// Pairs `a` before `b` in lexicographic order.
pub open spec fn pair_lt(a: (u32, u32), b: (u32, u32)) -> bool {
    a.0 < b.0 || (a.0 == b.0 && a.1 < b.1)
}

/// Every pair is written with its smaller vertex first and both are below `n`.
pub open spec fn canonical_edges(n: nat, edges: Seq<(u32, u32)>) -> bool {
    forall|i: int| 0 <= i < edges.len() ==> (#[trigger] edges[i]).0 < edges[i].1 && edges[i].1 < n
}

/// The pairs are in strictly increasing lexicographic order (sorted, unique).
pub open spec fn sorted_unique_pairs(edges: Seq<(u32, u32)>) -> bool {
    forall|i: int, j: int| 0 <= i < j < edges.len() ==> pair_lt(#[trigger] edges[i], #[trigger] edges[j])
}

/// The other endpoints of the pairs of `edges` that touch `x`, in order.
pub open spec fn others_of(edges: Seq<(u32, u32)>, x: int) -> Seq<u32>
    decreases edges.len(),
{
    if edges.len() == 0 {
        Seq::empty()
    } else {
        let rest = others_of(edges.drop_last(), x);
        let e = edges.last();
        if e.0 == x {
            rest.push(e.1)
        } else if e.1 == x {
            rest.push(e.0)
        } else {
            rest
        }
    }
}

/// One list per vertex below `n`: the other endpoints of its pairs.
pub open spec fn incidence(n: nat, edges: Seq<(u32, u32)>) -> Seq<Seq<u32>> {
    Seq::new(n, |x: int| others_of(edges, x))
}

proof fn lemma_others_step(edges: Seq<(u32, u32)>, k: int, x: int)
    requires
        0 <= k < edges.len(),
    ensures
        others_of(edges.take(k + 1), x) == if edges[k].0 == x {
            others_of(edges.take(k), x).push(edges[k].1)
        } else if edges[k].1 == x {
            others_of(edges.take(k), x).push(edges[k].0)
        } else {
            others_of(edges.take(k), x)
        },
{
    assert(edges.take(k + 1).drop_last() =~= edges.take(k));
}

/// The other endpoints are exactly the listed neighbors.
pub proof fn lemma_others_contains(edges: Seq<(u32, u32)>, x: int, y: u32)
    requires
        forall|i: int| 0 <= i < edges.len() ==> (#[trigger] edges[i]).0 != edges[i].1,
    ensures
        others_of(edges, x).contains(y) <==> listed(edges, x, y as int),
    decreases edges.len(),
{
    if edges.len() > 0 {
        let pre = edges.drop_last();
        lemma_others_contains(pre, x, y);
        let rest = others_of(pre, x);
        let e = edges.last();
        let r = others_of(edges, x);
        let k = edges.len() - 1;
        if listed(pre, x, y as int) {
            let i = choose|i: int|
                0 <= i < pre.len() && ((#[trigger] pre[i]).0 == x && pre[i].1 == y || pre[i].0 == y
                    && pre[i].1 == x);
            assert(edges[i] == pre[i]);
        }
        if listed(edges, x, y as int) && !listed(pre, x, y as int) {
            let i = choose|i: int|
                0 <= i < edges.len() && ((#[trigger] edges[i]).0 == x && edges[i].1 == y
                    || edges[i].0 == y && edges[i].1 == x);
            if i < k {
                assert(pre[i] == edges[i]);
            }
        }
        if e.0 == x || e.1 == x {
            let z = if e.0 == x { e.1 } else { e.0 };
            assert(r == rest.push(z));
            assert(r[rest.len() as int] == z);
            if r.contains(y) && y != z {
                let p = choose|p: int| 0 <= p < r.len() && r[p] == y;
                assert(rest[p] == y);
            }
            if rest.contains(y) {
                let p = choose|p: int| 0 <= p < rest.len() && rest[p] == y;
                assert(r[p] == y);
            }
            if y == z {
                assert(edges[k] == e);
            }
        }
    }
}

/// For sorted, unique, canonical pairs the other endpoints come in
/// increasing order: first the smaller neighbors, then the larger ones.
pub proof fn lemma_others_sorted(edges: Seq<(u32, u32)>, x: int)
    requires
        sorted_unique_pairs(edges),
        forall|i: int| 0 <= i < edges.len() ==> (#[trigger] edges[i]).0 < edges[i].1,
    ensures
        strictly_increasing(others_of(edges, x)),
        forall|y: u32| #[trigger] others_of(edges, x).contains(y) ==> exists|i: int|
            0 <= i < edges.len() && (#[trigger] edges[i] == (x as u32, y) && x == edges[i].0 || edges[i]
                == (y, x as u32) && x == edges[i].1),
    decreases edges.len(),
{
    if edges.len() > 0 {
        let pre = edges.drop_last();
        assert(sorted_unique_pairs(pre)) by {
            assert forall|i: int, j: int| 0 <= i < j < pre.len() implies pair_lt(#[trigger] pre[i], #[trigger] pre[j]) by {
                assert(pre[i] == edges[i] && pre[j] == edges[j]);
            }
        }
        lemma_others_sorted(pre, x);
        let rest = others_of(pre, x);
        let e = edges.last();
        let k = edges.len() - 1;
        let r = others_of(edges, x);
        assert(e == edges[k]);
        assert forall|y: u32| #[trigger] r.contains(y) implies exists|i: int|
            0 <= i < edges.len() && (#[trigger] edges[i] == (x as u32, y) && x == edges[i].0 || edges[i]
                == (y, x as u32) && x == edges[i].1) by {
            if rest.contains(y) {
                let i = choose|i: int|
                    0 <= i < pre.len() && (#[trigger] pre[i] == (x as u32, y) && x == pre[i].0 || pre[i]
                        == (y, x as u32) && x == pre[i].1);
                assert(edges[i] == pre[i]);
            } else {
                let p = choose|p: int| 0 <= p < r.len() && r[p] == y;
                assert(p == rest.len());
            }
        }
        if e.0 == x || e.1 == x {
            let z = if e.0 == x { e.1 } else { e.0 };
            assert(r == rest.push(z));
            assert forall|a: int, b: int| 0 <= a < b < r.len() implies r[a] < r[b] by {
                if b == rest.len() {
                    assert(rest.contains(rest[a]));
                    let i = choose|i: int|
                        0 <= i < pre.len() && (#[trigger] pre[i] == (x as u32, rest[a]) && x == pre[i].0
                            || pre[i] == (rest[a], x as u32) && x == pre[i].1);
                    assert(edges[i] == pre[i]);
                    assert(pair_lt(edges[i], edges[k]));
                }
            }
        }
    }
}

/// The lists of the incidence add up to two entries per pair.
pub proof fn lemma_incidence_degree_sum(n: nat, edges: Seq<(u32, u32)>)
    requires
        forall|i: int| 0 <= i < edges.len() ==> (#[trigger] edges[i]).0 != edges[i].1 && edges[i].0 < n
            && edges[i].1 < n,
    ensures
        degree_sum(incidence(n, edges)) == 2 * edges.len(),
    decreases edges.len(),
{
    if edges.len() == 0 {
        assert(incidence(n, edges) =~= empty_adjacency(n));
        lemma_degree_sum_empty(n);
    } else {
        let pre = edges.drop_last();
        lemma_incidence_degree_sum(n, pre);
        let e = edges.last();
        let a0 = incidence(n, pre);
        let a1 = a0.update(e.0 as int, a0[e.0 as int].push(e.1));
        let a2 = a1.update(e.1 as int, a1[e.1 as int].push(e.0));
        assert(e == edges[edges.len() - 1]);
        lemma_degree_sum_update(a0, e.0 as int, a0[e.0 as int].push(e.1));
        lemma_degree_sum_update(a1, e.1 as int, a1[e.1 as int].push(e.0));
        assert(incidence(n, edges) =~= a2);
    }
}

/// The other-endpoint list of a prefix is no longer than that of a longer prefix.
proof fn lemma_others_len_mono(edges: Seq<(u32, u32)>, k: int, j: int, x: int)
    requires
        0 <= k <= j <= edges.len(),
    ensures
        others_of(edges.take(k), x).len() <= others_of(edges.take(j), x).len(),
    decreases j - k,
{
    if k < j {
        lemma_others_step(edges, j - 1, x);
        lemma_others_len_mono(edges, k, j - 1, x);
    }
}

/// Offsets into the target vector: one per vertex plus one, starting at
/// zero, nondecreasing, ending at the number of targets.
pub open spec fn offsets_ok(offsets: Seq<usize>, nv: nat, tlen: nat) -> bool {
    &&& offsets.len() == nv + 1
    &&& offsets[0] == 0
    &&& forall|i: int, j: int| 0 <= i <= j <= nv ==> #[trigger] offsets[i] <= #[trigger] offsets[j]
    &&& offsets[nv as int] == tlen
}

/// Slice `v` of the targets, between consecutive offsets.
pub open spec fn csr_lists(offsets: Seq<usize>, targets: Seq<u32>, nv: nat) -> Seq<Seq<u32>> {
    Seq::new(nv, |v: int| targets.subrange(offsets[v] as int, offsets[v + 1] as int))
}

/// The prefix sums of the list lengths are the offsets.
proof fn lemma_csr_degree_sum(offsets: Seq<usize>, targets: Seq<u32>, nv: nat, k: int)
    requires
        offsets_ok(offsets, nv, targets.len()),
        0 <= k <= nv,
    ensures
        degree_sum(csr_lists(offsets, targets, nv).take(k)) == offsets[k],
    decreases k,
{
    let l = csr_lists(offsets, targets, nv);
    if k == 0 {
        assert(l.take(0) =~= Seq::<Seq<u32>>::empty());
    } else {
        lemma_csr_degree_sum(offsets, targets, nv, k - 1);
        lemma_degree_sum_take(l, k - 1);
        assert(offsets[k - 1] <= offsets[k]);
    }
}

/// Compressed Sparse Row graph — immutable, contiguous-memory storage.
#[derive(Debug, Clone, PartialEq, Eq)]
pub struct CsrGraph {
    nv: usize,
    ne: usize,
    offsets: Vec<usize>,
    targets: Vec<u32>,
}

impl View for CsrGraph {
    type V = Seq<Seq<u32>>;

    /// The adjacency lists, one per vertex.
    closed spec fn view(&self) -> Seq<Seq<u32>> {
        csr_lists(self.offsets@, self.targets@, self.nv as nat)
    }
}

impl CsrGraph {
    /// The offsets delimit the neighbor lists, which form a simple
    /// undirected graph, and `ne` counts its edges.
    pub closed spec fn wf(&self) -> bool {
        &&& offsets_ok(self.offsets@, self.nv as nat, self.targets@.len())
        &&& valid_adjacency(self@)
        &&& self.ne == num_edges(self@)
    }

    /// A well-formed CSR graph has valid adjacency lists, whose total length
    /// fits in a `usize` and is twice the number of edges.
    pub proof fn lemma_wf(&self)
        requires
            self.wf(),
        ensures
            valid_adjacency(self@),
            degree_sum(self@) <= usize::MAX,
            degree_sum(self@) == 2 * num_edges(self@),
    {
        crate::iter::lemma_handshake(self@);
        lemma_csr_degree_sum(self.offsets@, self.targets@, self.nv as nat, self.nv as int);
        assert(self@.take(self.nv as int) =~= self@);
    }

    /// Where each neighbor list starts in the targets (and where the last
    /// one ends).
    pub closed spec fn offsets_view(&self) -> Seq<usize> {
        self.offsets@
    }

    /// The offsets: list `v` is `targets()[offsets()[v]..offsets()[v + 1]]`.
    pub fn offsets(&self) -> (s: &[usize])
        requires
            self.wf(),
        ensures
            s@ == self.offsets_view(),
            offsets_ok(s@, self@.len(), degree_sum(self@)),
            forall|v: int| 0 <= v < self@.len() ==> #[trigger] self@[v].len() == s@[v + 1] - s@[v],
    {
        proof {
            self.lemma_wf();
            lemma_csr_degree_sum(self.offsets@, self.targets@, self.nv as nat, self.nv as int);
            assert(self@.take(self.nv as int) =~= self@);
        }
        self.offsets.as_slice()
    }

    /// All neighbor lists, one after the other.
    pub fn targets(&self) -> (s: &[u32])
        requires
            self.wf(),
        ensures
            s@.len() == degree_sum(self@),
            forall|v: int| 0 <= v < self@.len() ==> #[trigger] self@[v] == s@.subrange(
                self.offsets_view()[v] as int,
                self.offsets_view()[v + 1] as int,
            ),
    {
        proof {
            self.lemma_wf();
            lemma_csr_degree_sum(self.offsets@, self.targets@, self.nv as nat, self.nv as int);
            assert(self@.take(self.nv as int) =~= self@);
        }
        self.targets.as_slice()
    }

    /// Number of vertices.
    pub fn nv(&self) -> (n: usize)
        requires
            self.wf(),
        ensures
            n == self@.len(),
    {
        self.nv
    }

    /// Number of edges.
    pub fn ne(&self) -> (m: usize)
        requires
            self.wf(),
        ensures
            m == num_edges(self@),
    {
        self.ne
    }

    /// Whether vertex `v` exists.
    pub fn has_vertex(&self, v: u32) -> (b: bool)
        requires
            self.wf(),
        ensures
            b == (v < self@.len()),
    {
        (v as usize) < self.nv
    }

    /// Whether edge `(u, v)` exists. Returns `false` for out-of-range vertices.
    pub fn has_edge(&self, u: u32, v: u32) -> (b: bool)
        requires
            self.wf(),
        ensures
            b == adjacent(self@, u as int, v as int),
    {
        if !self.has_vertex(u) || !self.has_vertex(v) {
            return false;
        }
        binary_search(self.neighbors(u), v).is_ok()
    }

    /// Degree of vertex `v`.
    pub fn degree(&self, v: u32) -> (d: usize)
        requires
            self.wf(),
            v < self@.len(),
        ensures
            d == self@[v as int].len(),
    {
        let vi = v as usize;
        self.offsets[vi + 1] - self.offsets[vi]
    }

    /// Sorted neighbor slice of vertex `v`.
    pub fn neighbors(&self, v: u32) -> (s: &[u32])
        requires
            self.wf(),
            v < self@.len(),
        ensures
            s@ == self@[v as int],
    {
        let vi = v as usize;
        proof {
            assert(self.offsets@[vi as int] <= self.offsets@[vi + 1]);
            assert(self.offsets@[vi + 1] <= self.offsets@[self.nv as int]);
        }
        slice_subrange(self.targets.as_slice(), self.offsets[vi], self.offsets[vi + 1])
    }

    /// Convert a [`SimpleGraph`] into CSR form; the adjacency is unchanged.
    pub fn from(sg: &SimpleGraph) -> (g: Self)
        requires
            sg.wf(),
        ensures
            g.wf(),
            g@ == sg@,
    {
        proof {
            sg.lemma_wf();
        }
        let ghost adj = sg@;
        let n = sg.nv();
        let mut offsets: Vec<usize> = Vec::new();
        let mut targets: Vec<u32> = Vec::new();
        let mut offset: usize = 0;
        let mut v: usize = 0;
        proof {
            assert(adj.take(0) =~= Seq::<Seq<u32>>::empty());
        }
        while v < n
            invariant
                v <= n,
                n == adj.len(),
                adj == sg@,
                sg.wf(),
                valid_adjacency(adj),
                degree_sum(adj) <= usize::MAX,
                offsets@.len() == v,
                offset == targets@.len(),
                offset == degree_sum(adj.take(v as int)),
                forall|i: int, j: int| 0 <= i <= j < v ==> #[trigger] offsets@[i] <= #[trigger] offsets@[j],
                forall|i: int| 0 <= i < v ==> #[trigger] offsets@[i] <= offset,
                forall|i: int| 0 <= i < v ==> #[trigger] offsets@[i] == degree_sum(adj.take(i)),
                forall|i: int|
                    0 <= i < v ==> targets@.subrange(
                        offsets@[i] as int,
                        if i + 1 < v { offsets@[i + 1] as int } else { offset as int },
                    ) == #[trigger] adj[i],
            decreases n - v,
        {
            offsets.push(offset);
            let nbrs = sg.neighbors(v as u32);
            let ghost old_t = targets@;
            targets.extend_from_slice(nbrs);
            proof {
                lemma_degree_sum_take(adj, v as int);
                lemma_degree_sum_take_le(adj, v + 1);
                assert(targets@ =~= old_t + nbrs@);
                assert forall|i: int|
                    0 <= i < v + 1 implies targets@.subrange(
                        offsets@[i] as int,
                        if i + 1 < v + 1 { offsets@[i + 1] as int } else { (offset + nbrs@.len()) as int },
                    ) == #[trigger] adj[i] by {
                    if i < v {
                        let hi = if i + 1 < v { offsets@[i + 1] as int } else { offset as int };
                        assert(targets@.subrange(offsets@[i] as int, hi) =~= old_t.subrange(offsets@[i] as int, hi));
                    } else {
                        assert(targets@.subrange(offset as int, offset + nbrs@.len()) =~= nbrs@);
                    }
                }
            }
            offset = offset + nbrs.len();
            v += 1;
        }
        offsets.push(offset);
        let g = CsrGraph { nv: n, ne: sg.ne(), offsets, targets };
        proof {
            assert(adj.take(n as int) =~= adj);
            assert forall|i: int, j: int| 0 <= i <= j <= n implies #[trigger] g.offsets@[i] <= #[trigger] g.offsets@[j] by {}
            assert forall|i: int| 0 <= i < n implies g@[i] == adj[i] by {
                assert(g.offsets@[i] == offsets@[i]);
            }
            assert(g@ =~= adj);
        }
        g
    }

    /// Convert back to a mutable [`SimpleGraph`] with the same adjacency.
    pub fn to_simple_graph(&self) -> (sg: SimpleGraph)
        requires
            self.wf(),
        ensures
            sg.wf(),
            sg@ == self@,
    {
        proof {
            self.lemma_wf();
        }
        SimpleGraph::from_csr(self.offsets.as_slice(), self.targets.as_slice(), self.ne)
    }
}


/// The incidence lists of sorted, unique, canonical pairs form a simple graph
/// whose edges are exactly the pairs.
proof fn lemma_incidence_valid(n: nat, edges: Seq<(u32, u32)>)
    requires
        n <= u32::MAX,
        canonical_edges(n, edges),
        sorted_unique_pairs(edges),
    ensures
        valid_adjacency(incidence(n, edges)),
        adjacency_of_edges(incidence(n, edges), n, edges),
        num_edges(incidence(n, edges)) == edges.len(),
{
    let adj = incidence(n, edges);
    assert forall|i: int| 0 <= i < edges.len() implies (#[trigger] edges[i]).0 != edges[i].1 && edges[i].0
        < n && edges[i].1 < n by {}
    assert forall|i: int| 0 <= i < edges.len() implies (#[trigger] edges[i]).0 < edges[i].1 by {}
    assert forall|u: int| 0 <= u < n implies strictly_increasing(#[trigger] adj[u]) by {
        lemma_others_sorted(edges, u);
    }
    assert forall|u: int, x: u32| 0 <= u < n implies (#[trigger] adj[u].contains(x) <==> listed(
        edges,
        u,
        x as int,
    )) by {
        lemma_others_contains(edges, u, x);
    }
    assert forall|u: int, x: u32|
        0 <= u < adj.len() && #[trigger] adj[u].contains(x) implies x < adj.len() && x != u
            && adj[x as int].contains(u as u32) by {
        lemma_others_contains(edges, u, x);
        let i = choose|i: int|
            0 <= i < edges.len() && ((#[trigger] edges[i]).0 == u && edges[i].1 == x || edges[i].0 == x
                && edges[i].1 == u);
        lemma_others_contains(edges, x as int, u as u32);
    }
    lemma_incidence_degree_sum(n, edges);
}

/// Degree of each vertex below `n` among the pairs.
fn count_degrees(n: usize, edges: &[(u32, u32)]) -> (deg: Vec<usize>)
    requires
        canonical_edges(n as nat, edges@),
        edges@.len() <= usize::MAX / 2,
    ensures
        deg@.len() == n,
        forall|x: int| 0 <= x < n ==> #[trigger] deg@[x] == others_of(edges@, x).len(),
{
    let mut deg: Vec<usize> = vec![0usize; n];
    let mut k: usize = 0;
    proof {
        assert(edges@.take(0) =~= Seq::<(u32, u32)>::empty());
    }
    while k < edges.len()
        invariant
            k <= edges@.len(),
            edges@.len() <= usize::MAX / 2,
            canonical_edges(n as nat, edges@),
            deg@.len() == n,
            forall|x: int| 0 <= x < n ==> #[trigger] deg@[x] == others_of(edges@.take(k as int), x).len(),
            forall|x: int| 0 <= x < n ==> #[trigger] deg@[x] <= k,
        decreases edges@.len() - k,
    {
        let (u, v) = edges[k];
        proof {
            assert(edges@[k as int].0 < edges@[k as int].1 && edges@[k as int].1 < n);
            assert forall|x: int| 0 <= x < n implies others_of(edges@.take(k + 1), x).len() == others_of(
                edges@.take(k as int),
                x,
            ).len() + if x == u || x == v { 1int } else { 0int } by {
                lemma_others_step(edges@, k as int, x);
            }
        }
        let du = deg[u as usize];
        deg.set(u as usize, du + 1);
        let dv = deg[v as usize];
        deg.set(v as usize, dv + 1);
        k += 1;
    }
    proof {
        assert(edges@.take(k as int) =~= edges@);
    }
    deg
}

/// Write `val` at the next free slot of vertex `x` and advance its cursor;
/// the filled part of every other vertex is unchanged.
fn place(targets: &mut Vec<u32>, cursor: &mut Vec<usize>, offsets: &Vec<usize>, n: usize, x: u32, val: u32)
    requires
        x < n,
        offsets@.len() == n + 1,
        old(targets)@.len() == offsets@[n as int],
        forall|i: int, j: int| 0 <= i <= j <= n ==> #[trigger] offsets@[i] <= #[trigger] offsets@[j],
        old(cursor)@.len() == n,
        forall|y: int| 0 <= y < n ==> offsets@[y] <= #[trigger] old(cursor)@[y] <= offsets@[y + 1],
        old(cursor)@[x as int] < offsets@[x as int + 1],
    ensures
        final(targets)@.len() == old(targets)@.len(),
        final(cursor)@ == old(cursor)@.update(x as int, (old(cursor)@[x as int] + 1) as usize),
        final(targets)@.subrange(offsets@[x as int] as int, final(cursor)@[x as int] as int)
            == old(targets)@.subrange(offsets@[x as int] as int, old(cursor)@[x as int] as int).push(val),
        forall|y: int|
            0 <= y < n && y != x ==> #[trigger] final(targets)@.subrange(offsets@[y] as int, old(cursor)@[y] as int)
                == old(targets)@.subrange(offsets@[y] as int, old(cursor)@[y] as int),
{
    let c = cursor[x as usize];
    proof {
        assert(offsets@[x as int + 1] <= offsets@[n as int]);
    }
    let ghost t0 = targets@;
    targets.set(c, val);
    cursor.set(x as usize, c + 1);
    proof {
        let lo = offsets@[x as int] as int;
        assert(targets@.subrange(lo, c + 1) =~= t0.subrange(lo, c as int).push(val));
        assert forall|y: int| 0 <= y < n && y != x implies #[trigger] targets@.subrange(offsets@[y] as int, old(cursor)@[y] as int)
            == t0.subrange(offsets@[y] as int, old(cursor)@[y] as int) by {
            if y < x {
                assert(offsets@[y + 1] <= offsets@[x as int]);
            } else {
                assert(offsets@[x as int + 1] <= offsets@[y]);
            }
            assert(targets@.subrange(offsets@[y] as int, old(cursor)@[y] as int) =~= t0.subrange(offsets@[y] as int, old(cursor)@[y] as int));
        }
    }
}

impl CsrGraph {
    /// Lay out the pairs in CSR form, given the degree of every vertex: the
    /// offsets are the prefix sums of the degrees, and each pair is written
    /// at the next free slot of both of its endpoints.
    #[verifier::spinoff_prover]
    #[verifier::rlimit(40)]
    fn from_degrees(n: usize, edges: &[(u32, u32)], deg: Vec<usize>) -> (g: Self)
        requires
            n <= u32::MAX,
            canonical_edges(n as nat, edges@),
            sorted_unique_pairs(edges@),
            edges@.len() <= usize::MAX / 2,
            deg@.len() == n,
            forall|x: int| 0 <= x < n ==> #[trigger] deg@[x] == others_of(edges@, x).len(),
        ensures
            g.wf(),
            g@ == incidence(n as nat, edges@),
            adjacency_of_edges(g@, n as nat, edges@),
            num_edges(g@) == edges@.len(),
    {
        let ghost inc = incidence(n as nat, edges@);
        proof {
            lemma_incidence_valid(n as nat, edges@);
            assert forall|i: int| 0 <= i < edges@.len() implies (#[trigger] edges@[i]).0 != edges@[i].1
                && edges@[i].0 < n && edges@[i].1 < n by {}
            lemma_incidence_degree_sum(n as nat, edges@);
            assert(inc.take(0) =~= Seq::<Seq<u32>>::empty());
        }
        let mut offsets: Vec<usize> = Vec::new();
        let mut running: usize = 0;
        offsets.push(0);
        let mut x: usize = 0;
        while x < n
            invariant
                x <= n,
                deg@.len() == n,
                inc == incidence(n as nat, edges@),
                forall|y: int| 0 <= y < n ==> #[trigger] deg@[y] == others_of(edges@, y).len(),
                degree_sum(inc) == 2 * edges@.len(),
                edges@.len() <= usize::MAX / 2,
                offsets@.len() == x + 1,
                running == offsets@[x as int],
                forall|i: int| 0 <= i <= x ==> #[trigger] offsets@[i] == degree_sum(inc.take(i)),
                forall|i: int, j: int| 0 <= i <= j <= x ==> #[trigger] offsets@[i] <= #[trigger] offsets@[j],
            decreases n - x,
        {
            proof {
                lemma_degree_sum_take(inc, x as int);
                lemma_degree_sum_take_le(inc, x + 1);
            }
            running = running + deg[x];
            offsets.push(running);
            x += 1;
        }
        proof {
            assert(inc.take(n as int) =~= inc);
        }
        let mut targets: Vec<u32> = vec![0u32; running];
        let mut cursor: Vec<usize> = slice_to_vec(slice_subrange(offsets.as_slice(), 0, n));
        let mut k: usize = 0;
        proof {
            assert(edges@.take(0) =~= Seq::<(u32, u32)>::empty());
            assert forall|y: int| 0 <= y < n implies offsets@[y + 1] == offsets@[y] + others_of(edges@, y).len() by {
                lemma_degree_sum_take(inc, y);
            }
            assert forall|y: int| 0 <= y < n implies targets@.subrange(
                offsets@[y] as int,
                cursor@[y] as int,
            ) == #[trigger] others_of(edges@.take(0), y) by {
                assert(targets@.subrange(offsets@[y] as int, cursor@[y] as int) =~= Seq::<u32>::empty());
            }
            assert forall|y: int| 0 <= y < n implies #[trigger] cursor@[y] <= offsets@[y + 1] by {}
        }
        while k < edges.len()
            invariant
                k <= edges@.len(),
                canonical_edges(n as nat, edges@),
                offsets@.len() == n + 1,
                targets@.len() == offsets@[n as int],
                forall|i: int, j: int| 0 <= i <= j <= n ==> #[trigger] offsets@[i] <= #[trigger] offsets@[j],
                forall|y: int| 0 <= y < n ==> offsets@[y + 1] == offsets@[y] + #[trigger] others_of(edges@, y).len(),
                cursor@.len() == n,
                forall|y: int|
                    0 <= y < n ==> #[trigger] cursor@[y] == offsets@[y] + others_of(edges@.take(k as int), y).len(),
                forall|y: int|
                    0 <= y < n ==> targets@.subrange(offsets@[y] as int, cursor@[y] as int)
                        == #[trigger] others_of(edges@.take(k as int), y),
                forall|y: int| 0 <= y < n ==> #[trigger] cursor@[y] <= offsets@[y + 1],
            decreases edges@.len() - k,
        {
            let (u, v) = edges[k];
            proof {
                assert(edges@[k as int].0 < edges@[k as int].1 && edges@[k as int].1 < n);
                assert(edges@.take(edges@.len() as int) =~= edges@);
                lemma_others_step(edges@, k as int, u as int);
                lemma_others_step(edges@, k as int, v as int);
                lemma_others_len_mono(edges@, k + 1, edges@.len() as int, u as int);
                lemma_others_len_mono(edges@, k + 1, edges@.len() as int, v as int);
            }
            place(&mut targets, &mut cursor, &offsets, n, u, v);
            place(&mut targets, &mut cursor, &offsets, n, v, u);
            proof {
                assert forall|y: int|
                    0 <= y < n implies targets@.subrange(offsets@[y] as int, cursor@[y] as int)
                        == #[trigger] others_of(edges@.take(k + 1), y) by {
                    lemma_others_step(edges@, k as int, y);
                }
                assert forall|y: int|
                    0 <= y < n implies #[trigger] cursor@[y] == offsets@[y] + others_of(edges@.take(k + 1), y).len() by {
                    lemma_others_step(edges@, k as int, y);
                }
                assert forall|y: int| 0 <= y < n implies #[trigger] cursor@[y] <= offsets@[y + 1] by {
                    lemma_others_len_mono(edges@, k + 1, edges@.len() as int, y);
                }
            }
            k += 1;
        }
        let g = CsrGraph { nv: n, ne: edges.len(), offsets, targets };
        proof {
            assert(edges@.take(edges@.len() as int) =~= edges@);
            assert forall|y: int| 0 <= y < n implies g@[y] == inc[y] by {}
            assert(g@ =~= inc);
        }
        g
    }

    /// Build a CsrGraph directly from edge pairs that are canonical
    /// (`u < v`), sorted and unique.
    pub fn from_sorted_unique_edges(n: usize, edges: &[(u32, u32)]) -> (g: Self)
        requires
            n <= u32::MAX,
            canonical_edges(n as nat, edges@),
            sorted_unique_pairs(edges@),
            edges@.len() <= usize::MAX / 2,
        ensures
            g.wf(),
            adjacency_of_edges(g@, n as nat, edges@),
            num_edges(g@) == edges@.len(),
    {
        Self::from_sorted_unique_edges_unchecked(n, edges)
    }

    /// Count the degrees, then lay out the pairs.
    fn from_sorted_unique_edges_unchecked(n: usize, edges: &[(u32, u32)]) -> (g: Self)
        requires
            n <= u32::MAX,
            canonical_edges(n as nat, edges@),
            sorted_unique_pairs(edges@),
            edges@.len() <= usize::MAX / 2,
        ensures
            g.wf(),
            adjacency_of_edges(g@, n as nat, edges@),
            num_edges(g@) == edges@.len(),
    {
        let deg = count_degrees(n, edges);
        Self::from_degrees(n, edges, deg)
    }
}


/// `listed` by the presence of the pair in one of its two orientations.
pub proof fn lemma_listed_contains(edges: Seq<(u32, u32)>, u: u32, v: u32)
    ensures
        listed(edges, u as int, v as int) <==> (edges.contains((u, v)) || edges.contains((v, u))),
{
    if listed(edges, u as int, v as int) {
        let i = choose|i: int|
            0 <= i < edges.len() && ((#[trigger] edges[i]).0 == u && edges[i].1 == v || edges[i].0 == v
                && edges[i].1 == u);
        if edges[i].0 == u && edges[i].1 == v {
            assert(edges[i] == (u, v));
        } else {
            assert(edges[i] == (v, u));
        }
    }
    if edges.contains((u, v)) {
        let i = choose|i: int| 0 <= i < edges.len() && edges[i] == (u, v);
        assert(edges[i].0 == u && edges[i].1 == v);
    }
    if edges.contains((v, u)) {
        let i = choose|i: int| 0 <= i < edges.len() && edges[i] == (v, u);
        assert(edges[i].0 == v && edges[i].1 == u);
    }
}

/// Sorts the pairs with `slice::sort_unstable`; claims the result is a
/// permutation of the input in nondecreasing lexicographic order (the order
/// std documents for tuples).
#[verifier::external_body]
pub(crate) fn sort_pairs(v: &mut Vec<(u32, u32)>)
    ensures
        final(v)@.to_multiset() == old(v)@.to_multiset(),
        forall|i: int, j: int| 0 <= i < j < final(v)@.len() ==> !pair_lt(#[trigger] final(v)@[j], #[trigger] final(v)@[i]),
{
    v.sort_unstable();
}

/// Drop repeated pairs from a sorted sequence, keeping the first of each run.
pub(crate) fn dedup_sorted_pairs(v: &Vec<(u32, u32)>) -> (r: Vec<(u32, u32)>)
    requires
        forall|i: int, j: int| 0 <= i < j < v@.len() ==> !pair_lt(#[trigger] v@[j], #[trigger] v@[i]),
    ensures
        sorted_unique_pairs(r@),
        r@.len() <= v@.len(),
        r@.len() == v@.len() ==> r@ == v@,
        forall|e: (u32, u32)| #[trigger] r@.contains(e) <==> v@.contains(e),
{
    let mut r: Vec<(u32, u32)> = Vec::new();
    let mut i: usize = 0;
    while i < v.len()
        invariant
            i <= v@.len(),
            forall|a: int, b: int| 0 <= a < b < v@.len() ==> !pair_lt(#[trigger] v@[b], #[trigger] v@[a]),
            sorted_unique_pairs(r@),
            r@.len() <= i,
            r@.len() == i ==> r@ == v@.take(i as int),
            i > 0 ==> r@.len() > 0 && r@.last() == v@[i - 1],
            forall|e: (u32, u32)| #[trigger] r@.contains(e) <==> v@.take(i as int).contains(e),
        decreases v@.len() - i,
    {
        let e = v[i];
        let n = r.len();
        let ghost r0 = r@;
        if n == 0 || r[n - 1].0 != e.0 || r[n - 1].1 != e.1 {
            proof {
                if n > 0 {
                    assert(!pair_lt(v@[i as int], v@[i - 1]));
                    assert forall|a: int, b: int| 0 <= a < b < n + 1 implies pair_lt(#[trigger] r0.push(e)[a], #[trigger] r0.push(e)[b]) by {
                        if b == n && a < n - 1 {
                            assert(pair_lt(r0[a], r0[n - 1]));
                        }
                    }
                }
            }
            r.push(e);
        }
        proof {
            let t1 = v@.take(i + 1);
            let t0 = v@.take(i as int);
            assert(t1 =~= t0.push(e));
            assert forall|x: (u32, u32)| #[trigger] r@.contains(x) <==> t1.contains(x) by {
                if t1.contains(x) && x != e {
                    let k = choose|k: int| 0 <= k < i + 1 && t1[k] == x;
                    assert(t0[k] == x);
                    assert(r0.contains(x));
                    let p = choose|p: int| 0 <= p < r0.len() && r0[p] == x;
                    assert(r@[p] == x);
                }
                if t0.contains(x) {
                    let k = choose|k: int| 0 <= k < i && t0[k] == x;
                    assert(t1[k] == x);
                }
                assert(t1[i as int] == e);
                if r@.contains(x) && !r0.contains(x) {
                    let p = choose|p: int| 0 <= p < r@.len() && r@[p] == x;
                    assert(p == r0.len());
                }
                if r0.contains(x) {
                    let p = choose|p: int| 0 <= p < r0.len() && r0[p] == x;
                    assert(r@[p] == x);
                }
                if x == e {
                    assert(r@[r@.len() - 1] == e);
                }
            }
            if r@.len() == i + 1 {
                assert(r0.len() == i);
                assert(r@ =~= t1);
            }
        }
        i += 1;
    }
    proof {
        assert(v@.take(i as int) =~= v@);
    }
    r
}

/// Incremental builder for [`CsrGraph`]: collects edges one at a time, then
/// builds the CSR representation.
pub struct CsrBuilder {
    nv: usize,
    edges: Vec<(u32, u32)>,
    deg: Vec<usize>,
    sorted: bool,
}

impl View for CsrBuilder {
    type V = Seq<(u32, u32)>;

    /// The collected edges, each written with its smaller vertex first.
    closed spec fn view(&self) -> Seq<(u32, u32)> {
        self.edges@
    }
}

impl CsrBuilder {
    /// Number of vertices of the graph under construction.
    pub closed spec fn vertex_count(&self) -> nat {
        self.nv as nat
    }

    /// Collected edges are canonical pairs of vertices, `deg` counts the
    /// pairs at each vertex, and `sorted` is only set while the pairs are in
    /// nondecreasing order.
    pub closed spec fn wf(&self) -> bool {
        &&& self.nv <= u32::MAX
        &&& canonical_edges(self.nv as nat, self.edges@)
        &&& self.edges@.len() <= usize::MAX / 2
        &&& self.deg@.len() == self.nv
        &&& forall|x: int| 0 <= x < self.nv ==> #[trigger] self.deg@[x] == others_of(self.edges@, x).len()
        &&& forall|x: int| 0 <= x < self.nv ==> #[trigger] self.deg@[x] <= self.edges@.len()
        &&& self.sorted ==> forall|i: int, j: int|
            0 <= i < j < self.edges@.len() ==> !pair_lt(#[trigger] self.edges@[j], #[trigger] self.edges@[i])
    }

    /// Create a builder for a graph with `nv` vertices. Vertices are `u32`
    /// values, so a graph has at most `u32::MAX` of them, as for
    /// `SimpleGraph::new`.
    pub fn new(nv: usize) -> (b: Self)
        requires
            nv <= u32::MAX,
        ensures
            b.wf(),
            b.vertex_count() == nv,
            b@ == Seq::<(u32, u32)>::empty(),
    {
        CsrBuilder { nv, edges: Vec::new(), deg: vec![0usize; nv], sorted: true }
    }

    /// Create a builder with pre-allocated edge capacity, for at most
    /// `u32::MAX` vertices.
    pub fn with_capacity(nv: usize, edge_capacity: usize) -> (b: Self)
        requires
            nv <= u32::MAX,
        ensures
            b.wf(),
            b.vertex_count() == nv,
            b@ == Seq::<(u32, u32)>::empty(),
    {
        CsrBuilder { nv, edges: Vec::with_capacity(edge_capacity), deg: vec![0usize; nv], sorted: true }
    }

    /// Add an undirected edge, recorded with its smaller vertex first.
    /// Duplicates are collapsed during `build()`.
    pub fn add_edge(&mut self, u: u32, v: u32)
        requires
            old(self).wf(),
            u != v,
            u < old(self).vertex_count(),
            v < old(self).vertex_count(),
            old(self)@.len() < usize::MAX / 2,
        ensures
            final(self).wf(),
            final(self).vertex_count() == old(self).vertex_count(),
            final(self)@ == old(self)@.push(if u < v { (u, v) } else { (v, u) }),
    {
        let (a, b) = if u < v { (u, v) } else { (v, u) };
        let ghost e0 = self.edges@;
        if self.sorted {
            let n = self.edges.len();
            if n > 0 {
                let last = self.edges[n - 1];
                if a < last.0 || (a == last.0 && b < last.1) {
                    self.sorted = false;
                }
            }
        }
        let da = self.deg[a as usize];
        self.deg.set(a as usize, da + 1);
        let db = self.deg[b as usize];
        self.deg.set(b as usize, db + 1);
        self.edges.push((a, b));
        proof {
            let e1 = self.edges@;
            assert(e1.drop_last() =~= e0);
            assert forall|x: int| 0 <= x < self.nv implies #[trigger] self.deg@[x] == others_of(e1, x).len() by {}
            if self.sorted {
                assert forall|i: int, j: int| 0 <= i < j < e1.len() implies !pair_lt(#[trigger] e1[j], #[trigger] e1[i]) by {
                    if j == e1.len() - 1 && i < j - 1 {
                        assert(!pair_lt(e0[e0.len() - 1], e0[i]));
                    }
                }
            }
        }
    }

    /// Build the CsrGraph: sorts (when needed) and deduplicates the edges.
    /// The degree counts are kept when the pairs were already sorted and
    /// unique, and recounted otherwise.
    pub fn build(self) -> (g: CsrGraph)
        requires
            self.wf(),
        ensures
            g.wf(),
            adjacency_of_edges(g@, self.vertex_count(), self@),
    {
        let CsrBuilder { nv, mut edges, deg, sorted } = self;
        let ghost orig = edges@;
        if !sorted {
            sort_pairs(&mut edges);
        }
        proof {
            broadcast use vstd::seq_lib::group_to_multiset_ensures;
            assert forall|e: (u32, u32)| #[trigger] edges@.contains(e) <==> orig.contains(e) by {
                assert(edges@.to_multiset().count(e) == orig.to_multiset().count(e));
            }
            assert(edges@.len() == orig.len()) by {
                assert(edges@.to_multiset().len() == orig.to_multiset().len());
            }
        }
        let old_len = edges.len();
        let unique = dedup_sorted_pairs(&edges);
        let deduped = unique.len() != old_len;
        proof {
            assert forall|i: int| 0 <= i < unique@.len() implies (#[trigger] unique@[i]).0 < unique@[i].1 && unique@[i].1 < nv by {
                assert(unique@.contains(unique@[i]));
                assert(orig.contains(unique@[i]));
            }
        }
        let deg = if deduped || !sorted {
            count_degrees(nv, &unique)
        } else {
            proof {
                // already sorted and without repeats: the pairs are unchanged
                assert(unique@ == orig);
            }
            deg
        };
        let g = CsrGraph::from_degrees(nv, &unique, deg);
        proof {
            assert forall|u: int, x: u32| 0 <= u < nv implies (#[trigger] g@[u].contains(x) <==> listed(orig, u, x as int)) by {
                lemma_listed_contains(unique@, u as u32, x);
                lemma_listed_contains(orig, u as u32, x);
            }
        }
        g
    }
}


impl CsrGraph {
    /// Iterator over all edges `(u, v)` with `u < v`.
    pub fn edges(&self) -> (e: crate::iter::Edges<'_, Self>)
        requires
            self.wf(),
        ensures
            e.wf(),
            e.graph_adj() == self@,
            e.remaining() == crate::iter::edge_list(self@),
    {
        crate::iter::edges(self)
    }
}

} // verus!

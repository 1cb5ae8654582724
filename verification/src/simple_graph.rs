//! `SimpleGraph`: an undirected simple graph stored as one sorted neighbor
//! list per vertex.
use vstd::prelude::*;
use crate::model::{
    adjacent, degree_sum, edge_added, edge_removed, empty_adjacency, lemma_degree_sum_empty,
    lemma_degree_sum_push, lemma_degree_sum_take, lemma_degree_sum_take_le,
    lemma_degree_sum_update, lemma_insert_sorted, lemma_remove_sorted, lists_view, listed, listed_before,
    adjacency_of_edges, edges_valid, num_edges, strictly_increasing, valid_adjacency,
};
use crate::search::binary_search;
use crate::text::decimal;
use crate::csr::{csr_lists, offsets_ok};
use vstd::slice::{slice_subrange, slice_to_vec};

verus! {

/// An undirected simple graph with sorted adjacency lists.
///
/// Vertices are contiguous integers `0..nv()`. Each vertex stores a sorted
/// `Vec<u32>` of its neighbors.
#[derive(Debug, Clone, PartialEq, Eq)]
pub struct SimpleGraph {
    ne: usize,
    fadjlist: Vec<Vec<u32>>,
}

impl View for SimpleGraph {
    type V = Seq<Seq<u32>>;

    /// The adjacency lists, one per vertex.
    closed spec fn view(&self) -> Seq<Seq<u32>> {
        lists_view(self.fadjlist@)
    }
}

/// `n` empty lists.
fn empty_lists(n: usize) -> (r: Vec<Vec<u32>>)
    ensures
        r@.len() == n,
        forall|k: int| 0 <= k < n ==> (#[trigger] r@[k])@ == Seq::<u32>::empty(),
{
    let mut r: Vec<Vec<u32>> = Vec::new();
    let mut i: usize = 0;
    while i < n
        invariant
            i <= n,
            r@.len() == i,
            forall|k: int| 0 <= k < i ==> (#[trigger] r@[k])@ == Seq::<u32>::empty(),
        decreases n - i,
    {
        r.push(Vec::new());
        i += 1;
    }
    r
}

/// For each vertex, the other ends of the listed pairs that touch it, in the
/// order of the pairs and with repetitions.
fn incident_lists(n: usize, edges: &[(u32, u32)]) -> (raw: Vec<Vec<u32>>)
    requires
        edges_valid(n as nat, edges@),
    ensures
        raw@.len() == n,
        forall|x: int, y: u32|
            0 <= x < n ==> (#[trigger] raw@[x]@.contains(y) <==> listed(edges@, x, y as int)),
        forall|x: int, y: u32| 0 <= x < n && #[trigger] raw@[x]@.contains(y) ==> y < n,
        degree_sum(lists_view(raw@)) == 2 * edges@.len(),
{
    let mut raw = empty_lists(n);
    proof {
        assert(lists_view(raw@) =~= empty_adjacency(n as nat));
        lemma_degree_sum_empty(n as nat);
    }
    let mut k: usize = 0;
    while k < edges.len()
        invariant
            raw@.len() == n,
            k <= edges@.len(),
            edges_valid(n as nat, edges@),
            forall|x: int, y: u32|
                0 <= x < n ==> (#[trigger] raw@[x]@.contains(y) <==> listed_before(
                    edges@,
                    k as int,
                    x,
                    y as int,
                )),
            degree_sum(lists_view(raw@)) == 2 * k,
        decreases edges@.len() - k,
    {
        let (u, v) = edges[k];
        let ghost old_raw = raw@;
        proof {
            assert(edges@[k as int].0 != edges@[k as int].1 && edges@[k as int].0 < n
                && edges@[k as int].1 < n);
        }
        raw[u as usize].push(v);
        let ghost mid_raw = raw@;
        raw[v as usize].push(u);
        proof {
            let a0 = lists_view(old_raw);
            let a1 = lists_view(mid_raw);
            let a2 = lists_view(raw@);
            assert(a1 =~= a0.update(u as int, a0[u as int].push(v)));
            assert(a2 =~= a1.update(v as int, a1[v as int].push(u)));
            lemma_degree_sum_update(a0, u as int, a0[u as int].push(v));
            lemma_degree_sum_update(a1, v as int, a1[v as int].push(u));
            assert forall|x: int, y: u32| 0 <= x < n implies (#[trigger] raw@[x]@.contains(y)
                <==> listed_before(edges@, k + 1, x, y as int)) by {
                let e = edges@[k as int];
                assert(raw@[x]@ == a2[x]);
                assert(a2[x].contains(y) <==> (a0[x].contains(y) || (x == u && y == v) || (x == v
                    && y == u))) by {
                    if x == u {
                        assert(a0[x].push(v)[a0[x].len() as int] == v);
                        if a0[x].push(v).contains(y) && y != v {
                            let i = choose|i: int| 0 <= i < a0[x].push(v).len() && a0[x].push(v)[i] == y;
                            assert(a0[x][i] == y);
                        }
                        if a0[x].contains(y) {
                            let i = choose|i: int| 0 <= i < a0[x].len() && a0[x][i] == y;
                            assert(a0[x].push(v)[i] == y);
                        }
                    }
                    if x == v {
                        assert(a1[x].push(u)[a1[x].len() as int] == u);
                        if a1[x].push(u).contains(y) && y != u {
                            let i = choose|i: int| 0 <= i < a1[x].push(u).len() && a1[x].push(u)[i] == y;
                            assert(a1[x][i] == y);
                        }
                        if a1[x].contains(y) {
                            let i = choose|i: int| 0 <= i < a1[x].len() && a1[x][i] == y;
                            assert(a1[x].push(u)[i] == y);
                        }
                    }
                }
                assert(a0[x] == old_raw[x]@);
                if listed_before(edges@, k + 1, x, y as int) && !listed_before(edges@, k as int, x, y as int) {
                    let i = choose|i: int|
                        0 <= i < k + 1 && ((#[trigger] edges@[i]).0 == x && edges@[i].1 == y || edges@[i].0 == y
                            && edges@[i].1 == x);
                    assert(i == k);
                }
                if (x == u && y == v) || (x == v && y == u) {
                    assert(e == edges@[k as int]);
                }
            }
        }
        k += 1;
    }
    proof {
        assert forall|x: int, y: u32| 0 <= x < n && #[trigger] raw@[x]@.contains(y) implies y < n by {
            let i = choose|i: int|
                0 <= i < edges@.len() && ((#[trigger] edges@[i]).0 == x && edges@[i].1 == y || edges@[i].0 == y
                    && edges@[i].1 == x);
        }
    }
    raw
}

impl SimpleGraph {
    /// The lists form a simple undirected graph, `ne` counts its edges, and
    /// the total length of the lists fits in a `usize`.
    pub closed spec fn wf(&self) -> bool {
        &&& valid_adjacency(self@)
        &&& self.ne == num_edges(self@)
        &&& degree_sum(self@) <= usize::MAX
    }

    /// A well-formed graph has valid adjacency lists, whose total length
    /// fits in a `usize` and is twice the number of edges.
    pub proof fn lemma_wf(&self)
        requires
            self.wf(),
        ensures
            valid_adjacency(self@),
            degree_sum(self@) <= usize::MAX,
            degree_sum(self@) == 2 * num_edges(self@),
    {
        crate::iter::lemma_handshake(self@);
    }

    /// Create an empty graph with `n` vertices and no edges.
    pub fn new(n: usize) -> (g: Self)
        requires
            n <= u32::MAX,
        ensures
            g.wf(),
            g@ == empty_adjacency(n as nat),
    {
        let mut fadjlist: Vec<Vec<u32>> = Vec::new();
        let mut i: usize = 0;
        while i < n
            invariant
                i <= n,
                fadjlist@.len() == i,
                forall|k: int| 0 <= k < i ==> (#[trigger] fadjlist@[k])@.len() == 0,
            decreases n - i,
        {
            fadjlist.push(Vec::new());
            i += 1;
        }
        let g = SimpleGraph { ne: 0, fadjlist };
        proof {
            assert forall|k: int| 0 <= k < n implies g@[k] =~= empty_adjacency(n as nat)[k] by {
                assert(fadjlist@[k]@.len() == 0);
            }
            assert(g@ =~= empty_adjacency(n as nat));
            lemma_degree_sum_empty(n as nat);
        }
        g
    }

    /// Number of vertices.
    pub fn nv(&self) -> (n: usize)
        ensures
            n == self@.len(),
    {
        self.fadjlist.len()
    }

    /// Number of edges.
    pub fn ne(&self) -> (m: usize)
        requires
            self.wf(),
        ensures
            m == num_edges(self@),
    {
        self.ne
    }

    /// Whether vertex `v` exists in the graph.
    pub fn has_vertex(&self, v: u32) -> (b: bool)
        ensures
            b == (v < self@.len()),
    {
        (v as usize) < self.fadjlist.len()
    }

    /// Whether edge `(u, v)` exists. Returns `false` if either vertex is out
    /// of range. Searches the shorter of the two neighbor lists.
    pub fn has_edge(&self, u: u32, v: u32) -> (b: bool)
        requires
            self.wf(),
        ensures
            b == adjacent(self@, u as int, v as int),
    {
        if !self.has_vertex(u) || !self.has_vertex(v) {
            return false;
        }
        let ghost adj = self@;
        assert(self.fadjlist@[u as int]@ == adj[u as int]);
        assert(self.fadjlist@[v as int]@ == adj[v as int]);
        let (a, b) = if self.fadjlist[u as usize].len() <= self.fadjlist[v as usize].len() {
            (u, v)
        } else {
            (v, u)
        };
        let r = binary_search(self.fadjlist[a as usize].as_slice(), b);
        proof {
            if adj[v as int].contains(u) {
                assert(adj[u as int].contains(v));
            }
        }
        r.is_ok()
    }

    /// Degree of vertex `v`.
    pub fn degree(&self, v: u32) -> (d: usize)
        requires
            v < self@.len(),
        ensures
            d == self@[v as int].len(),
    {
        self.fadjlist[v as usize].len()
    }

    /// Sorted neighbor slice of vertex `v`.
    pub fn neighbors(&self, v: u32) -> (s: &[u32])
        requires
            v < self@.len(),
        ensures
            s@ == self@[v as int],
    {
        self.fadjlist[v as usize].as_slice()
    }

    /// Add undirected edge `(u, v)`. No-op if the edge already exists.
    pub fn add_edge(&mut self, u: u32, v: u32)
        requires
            old(self).wf(),
            u != v,
            u < old(self)@.len(),
            v < old(self)@.len(),
            degree_sum(old(self)@) + 2 <= usize::MAX,
        ensures
            final(self).wf(),
            final(self)@.len() == old(self)@.len(),
            edge_added(old(self)@, final(self)@, u as int, v as int),
            num_edges(final(self)@) == if adjacent(old(self)@, u as int, v as int) {
                num_edges(old(self)@)
            } else {
                num_edges(old(self)@) + 1
            },
    {
        let ghost adj = self@;
        assert(self.fadjlist@[u as int]@ == adj[u as int]);
        assert(self.fadjlist@[v as int]@ == adj[v as int]);
        let r = binary_search(self.fadjlist[u as usize].as_slice(), v);
        if let Err(pos) = r {
            let r2 = binary_search(self.fadjlist[v as usize].as_slice(), u);
            proof {
                if adj[v as int].contains(u) {
                    assert(adj[u as int].contains(v));
                }
            }
            if let Err(pos2) = r2 {
                let ghost l1 = adj[u as int].insert(pos as int, v);
                let ghost l2 = adj[v as int].insert(pos2 as int, u);
                proof {
                    lemma_insert_sorted(adj[u as int], pos as int, v);
                    lemma_insert_sorted(adj[v as int], pos2 as int, u);
                    lemma_degree_sum_update(adj, u as int, l1);
                    lemma_degree_sum_update(adj.update(u as int, l1), v as int, l2);
                }
                self.fadjlist[u as usize].insert(pos, v);
                self.fadjlist[v as usize].insert(pos2, u);
                self.ne = self.ne + 1;
                proof {
                    let new = self@;
                    assert(new =~= adj.update(u as int, l1).update(v as int, l2));
                    assert forall|w: int, x: u32|
                        0 <= w < new.len() implies #[trigger] new[w].contains(x) <==> (adj[w].contains(x)
                            || (w == u && x == v) || (w == v && x == u)) by {}
                    assert forall|w: int, x: u32|
                        0 <= w < new.len() && #[trigger] new[w].contains(x) implies x < new.len()
                            && x != w && new[x as int].contains(w as u32) by {
                        if adj[w].contains(x) {
                            assert(adj[x as int].contains(w as u32));
                        }
                    }
                    assert forall|a: int, b: int|
                        adjacent(new, a, b) <==> (adjacent(adj, a, b) || (a == u && b == v) || (a
                            == v && b == u)) by {
                        if 0 <= a < new.len() && 0 <= b < new.len() {
                            assert(new[a].contains(b as u32) <==> (adj[a].contains(b as u32) || (a
                                == u && b as u32 == v) || (a == v && b as u32 == u)));
                        }
                    }
                }
            }
        }
    }

    /// Remove undirected edge `(u, v)`. No-op if the edge does not exist or
    /// either vertex is out of range.
    pub fn rem_edge(&mut self, u: u32, v: u32)
        requires
            old(self).wf(),
        ensures
            final(self).wf(),
            final(self)@.len() == old(self)@.len(),
            edge_removed(old(self)@, final(self)@, u as int, v as int),
            num_edges(final(self)@) == if adjacent(old(self)@, u as int, v as int) {
                num_edges(old(self)@) - 1
            } else {
                num_edges(old(self)@) as int
            },
    {
        if !self.has_vertex(u) || !self.has_vertex(v) {
            return;
        }
        let ghost adj = self@;
        assert(self.fadjlist@[u as int]@ == adj[u as int]);
        assert(self.fadjlist@[v as int]@ == adj[v as int]);
        let r = binary_search(self.fadjlist[u as usize].as_slice(), v);
        if let Ok(pos) = r {
            let r2 = binary_search(self.fadjlist[v as usize].as_slice(), u);
            proof {
                assert(adj[u as int].contains(v));
                assert(adj[v as int].contains(u));
            }
            if let Ok(pos2) = r2 {
                let ghost l1 = adj[u as int].remove(pos as int);
                let ghost l2 = adj[v as int].remove(pos2 as int);
                proof {
                    lemma_remove_sorted(adj[u as int], pos as int);
                    lemma_remove_sorted(adj[v as int], pos2 as int);
                    lemma_degree_sum_update(adj, u as int, l1);
                    lemma_degree_sum_update(adj.update(u as int, l1), v as int, l2);
                }
                self.fadjlist[u as usize].remove(pos);
                self.fadjlist[v as usize].remove(pos2);
                self.ne = self.ne - 1;
                proof {
                    let new = self@;
                    assert(new =~= adj.update(u as int, l1).update(v as int, l2));
                    assert forall|w: int, x: u32|
                        0 <= w < new.len() implies #[trigger] new[w].contains(x) <==> (adj[w].contains(x)
                            && !(w == u && x == v) && !(w == v && x == u)) by {}
                    assert forall|w: int, x: u32|
                        0 <= w < new.len() && #[trigger] new[w].contains(x) implies x < new.len()
                            && x != w && new[x as int].contains(w as u32) by {
                        assert(adj[x as int].contains(w as u32));
                    }
                    assert forall|a: int, b: int|
                        adjacent(new, a, b) <==> (adjacent(adj, a, b) && !(a == u && b == v) && !(a
                            == v && b == u)) by {
                        if 0 <= a < new.len() && 0 <= b < new.len() {
                            assert(new[a].contains(b as u32) <==> (adj[a].contains(b as u32) && !(a
                                == u && b as u32 == v) && !(a == v && b as u32 == u)));
                        }
                    }
                }
            }
        } else {
            proof {
                assert(!adjacent(adj, u as int, v as int));
                assert forall|a: int, b: int|
                    adjacent(adj, a, b) implies !(a == u && b == v) && !(a == v && b == u) by {
                    if a == v && b == u {
                        assert(adj[v as int].contains(u));
                        assert(adj[u as int].contains(v));
                    }
                }
            }
        }
    }

    /// Add a new isolated vertex and return its index.
    pub fn add_vertex(&mut self) -> (v: u32)
        requires
            old(self).wf(),
            old(self)@.len() < u32::MAX,
        ensures
            final(self).wf(),
            v == old(self)@.len(),
            final(self)@ == old(self)@.push(Seq::<u32>::empty()),
    {
        let ghost adj = self@;
        let v = self.fadjlist.len() as u32;
        self.fadjlist.push(Vec::new());
        proof {
            let new = self@;
            assert(new =~= adj.push(Seq::<u32>::empty()));
            lemma_degree_sum_push(adj, Seq::<u32>::empty());
            assert forall|w: int, x: u32|
                0 <= w < new.len() && #[trigger] new[w].contains(x) implies x < new.len() && x != w
                    && new[x as int].contains(w as u32) by {
                assert(w < adj.len());
                assert(adj[w].contains(x));
            }
        }
        v
    }
}


impl SimpleGraph {
    /// The graph on `n` vertices with the listed edges, for pairs already
    /// known to be valid. Each vertex `x`, taken in increasing order, is
    /// appended to the lists of the vertices it touches, so every list comes
    /// out sorted; a repeated pair is skipped where it would repeat the last entry.
    fn from_valid_edges(n: usize, edges: &[(u32, u32)]) -> (g: Self)
        requires
            n <= u32::MAX,
            edges_valid(n as nat, edges@),
            edges@.len() <= usize::MAX / 2,
        ensures
            g.wf(),
            adjacency_of_edges(g@, n as nat, edges@),
    {
        let raw = incident_lists(n, edges);
        let ghost rawv = lists_view(raw@);
        let mut fadj = empty_lists(n);
        proof {
            assert(lists_view(fadj@) =~= empty_adjacency(n as nat));
            lemma_degree_sum_empty(n as nat);
            assert(rawv.take(0) =~= Seq::<Seq<u32>>::empty());
        }
        let mut total: usize = 0;
        let ghost mut seen: nat = 0;
        let mut x: usize = 0;
        while x < n
            invariant
                x <= n,
                n <= u32::MAX,
                raw@.len() == n,
                fadj@.len() == n,
                rawv == lists_view(raw@),
                forall|a: int, y: u32| 0 <= a < n && #[trigger] raw@[a]@.contains(y) ==> y < n,
                forall|y: int| 0 <= y < n ==> strictly_increasing(#[trigger] fadj@[y]@),
                forall|y: int, i: int|
                    0 <= y < n && 0 <= i < fadj@[y]@.len() ==> #[trigger] fadj@[y]@[i] < x,
                forall|y: int, z: u32|
                    0 <= y < n ==> (#[trigger] fadj@[y]@.contains(z) <==> (z < x && raw@[z as int]@.contains(
                        y as u32,
                    ))),
                total == degree_sum(lists_view(fadj@)),
                total <= seen,
                seen == degree_sum(rawv.take(x as int)),
                degree_sum(rawv) <= usize::MAX,
            decreases n - x,
        {
            let mut j: usize = 0;
            let ghost seen0 = seen;
            proof {
                lemma_degree_sum_take(rawv, x as int);
                lemma_degree_sum_take_le(rawv, x as int + 1);
            }
            while j < raw[x].len()
                invariant
                    x < n,
                    n <= u32::MAX,
                    raw@.len() == n,
                    fadj@.len() == n,
                    rawv == lists_view(raw@),
                    j <= raw@[x as int]@.len(),
                    forall|a: int, y: u32| 0 <= a < n && #[trigger] raw@[a]@.contains(y) ==> y < n,
                    forall|y: int| 0 <= y < n ==> strictly_increasing(#[trigger] fadj@[y]@),
                    forall|y: int, i: int|
                        0 <= y < n && 0 <= i < fadj@[y]@.len() ==> #[trigger] fadj@[y]@[i] <= x,
                    forall|y: int, z: u32|
                        0 <= y < n ==> (#[trigger] fadj@[y]@.contains(z) <==> ((z < x
                            && raw@[z as int]@.contains(y as u32)) || (z == x && raw@[x as int]@.take(
                            j as int,
                        ).contains(y as u32)))),
                    total == degree_sum(lists_view(fadj@)),
                    total <= seen,
                    seen == seen0 + j,
                    seen0 + raw@[x as int]@.len() <= degree_sum(rawv),
                    degree_sum(rawv) <= usize::MAX,
                decreases raw@[x as int]@.len() - j,
            {
                let y = raw[x][j];
                proof {
                    assert(raw@[x as int]@.contains(y));
                }
                let len = fadj[y as usize].len();
                let ghost old_f = fadj@;
                let ghost fy = fadj@[y as int]@;
                if len == 0 || fadj[y as usize][len - 1] != x as u32 {
                    fadj[y as usize].push(x as u32);
                    total = total + 1;
                    proof {
                        let f0 = lists_view(old_f);
                        assert(lists_view(fadj@) =~= f0.update(y as int, fy.push(x as u32)));
                        lemma_degree_sum_update(f0, y as int, fy.push(x as u32));
                        let fp = fy.push(x as u32);
                        assert(fp[fy.len() as int] == x as u32);
                        assert forall|i: int, k: int|
                            0 <= i < k < fy.len() + 1 implies #[trigger] fp[i] < #[trigger] fp[k] by {
                            if k == fy.len() {
                                assert(fy[i] <= fy[len - 1]);
                                assert(fy[len - 1] <= x);
                            }
                        }
                        assert forall|z: u32| fp.contains(z) <==> (fy.contains(z) || z == x) by {
                            if fp.contains(z) && z != x {
                                let i = choose|i: int| 0 <= i < fy.len() + 1 && fp[i] == z;
                                assert(fy[i] == z);
                            }
                            if fy.contains(z) {
                                let i = choose|i: int| 0 <= i < fy.len() && fy[i] == z;
                                assert(fp[i] == z);
                            }
                        }
                    }
                } else {
                    proof {
                        assert(fy.contains(x as u32));
                    }
                }
                proof {
                    let r = raw@[x as int]@;
                    let t1 = r.take(j + 1);
                    let t0 = r.take(j as int);
                    assert(t1 =~= t0.push(y));
                    assert forall|w: u32| t1.contains(w) <==> (t0.contains(w) || w == y) by {
                        if t1.contains(w) && w != y {
                            let i = choose|i: int| 0 <= i < j + 1 && t1[i] == w;
                            assert(t0[i] == w);
                        }
                        if t0.contains(w) {
                            let i = choose|i: int| 0 <= i < j && t0[i] == w;
                            assert(t1[i] == w);
                        }
                        assert(t1[j as int] == y);
                    }
                    seen = seen + 1;
                }
                j += 1;
            }
            proof {
                assert(raw@[x as int]@.take(j as int) =~= raw@[x as int]@);
                assert(rawv[x as int] == raw@[x as int]@);
            }
            x += 1;
        }
        let g = SimpleGraph { ne: total / 2, fadjlist: fadj };
        proof {
            let adj = g@;
            assert forall|u: int, z: u32| 0 <= u < n implies (#[trigger] adj[u].contains(z) <==> listed(edges@, u, z as int)) by {
                assert(adj[u] == fadj@[u]@);
                if adj[u].contains(z) {
                    assert(raw@[z as int]@.contains(u as u32));
                    let i = choose|i: int|
                        0 <= i < edges@.len() && ((#[trigger] edges@[i]).0 == z && edges@[i].1 == u as u32
                            || edges@[i].0 == u as u32 && edges@[i].1 == z);
                }
                if listed(edges@, u, z as int) {
                    let i = choose|i: int|
                        0 <= i < edges@.len() && ((#[trigger] edges@[i]).0 == u && edges@[i].1 == z
                            || edges@[i].0 == z && edges@[i].1 == u);
                    assert(edges@[i].0 < n && edges@[i].1 < n);
                    assert(listed(edges@, z as int, u));
                    assert(raw@[z as int]@.contains(u as u32));
                }
            }
            assert forall|u: int, z: u32| 0 <= u < adj.len() && #[trigger] adj[u].contains(z) implies z
                < adj.len() && z != u && adj[z as int].contains(u as u32) by {
                assert(listed(edges@, u, z as int));
                let i = choose|i: int|
                    0 <= i < edges@.len() && ((#[trigger] edges@[i]).0 == u && edges@[i].1 == z
                        || edges@[i].0 == z && edges@[i].1 == u);
                assert(edges@[i].0 != edges@[i].1);
                assert(listed(edges@, z as int, u));
                assert(z < n) by {
                    assert(fadj@[u]@.contains(z));
                }
            }
        }
        g
    }
}


/// Pair `e` joins two distinct vertices below `n`.
pub open spec fn edge_ok(n: nat, e: (u32, u32)) -> bool {
    e.0 != e.1 && e.0 < n && e.1 < n
}

/// `i` is the position of the first pair of `edges` that is not a valid edge
/// of a graph on `n` vertices.
pub open spec fn first_bad_edge(n: nat, edges: Seq<(u32, u32)>, i: int) -> bool {
    &&& 0 <= i < edges.len()
    &&& !edge_ok(n, edges[i])
    &&& forall|j: int| 0 <= j < i ==> edge_ok(n, #[trigger] edges[j])
}

/// Text of the error for a vertex count above `u32::MAX`.
pub open spec fn too_many_vertices_message(n: nat) -> Seq<char> {
    "vertex count "@ + decimal(n) + " exceeds u32::MAX"@
}

/// Text of the error for the invalid pair `e` in a graph on `n` vertices:
/// a self-loop, or else an endpoint out of range.
pub open spec fn bad_edge_message(n: nat, e: (u32, u32)) -> Seq<char> {
    if e.0 == e.1 {
        "self-loop on vertex "@ + decimal(e.0 as nat)
    } else {
        "vertex out of range: ("@ + decimal(e.0 as nat) + ", "@ + decimal(e.1 as nat) + "), n="@
            + decimal(n)
    }
}

/// Formats the vertex-count error with `format!`; claims the text is the
/// decimal notation of `n` between the fixed words.
#[verifier::external_body]
fn too_many_vertices_error(n: usize) -> (m: String)
    ensures
        m@ == too_many_vertices_message(n as nat),
{
    format!("vertex count {} exceeds u32::MAX", n)
}

/// Formats the self-loop error with `format!`; claims the text is the fixed
/// words followed by the decimal notation of `u`.
#[verifier::external_body]
fn self_loop_error(u: u32) -> (m: String)
    ensures
        m@ == "self-loop on vertex "@ + decimal(u as nat),
{
    format!("self-loop on vertex {}", u)
}

/// Formats the out-of-range error with `format!`; claims the text is the
/// decimal notations of `u`, `v` and `n` between the fixed words.
#[verifier::external_body]
fn out_of_range_error(u: u32, v: u32, n: usize) -> (m: String)
    ensures
        m@ == "vertex out of range: ("@ + decimal(u as nat) + ", "@ + decimal(v as nat) + "), n="@
            + decimal(n as nat),
{
    format!("vertex out of range: ({}, {}), n={}", u, v, n)
}

impl SimpleGraph {
    /// Create a graph from a list of edges. Duplicate edges (in either
    /// orientation) are collapsed; self-loops and out-of-range vertices are
    /// not allowed. (A slice of 8-byte pairs never holds more than
    /// `usize::MAX / 2` of them.)
    pub fn from_edges(n: usize, edges: &[(u32, u32)]) -> (g: Self)
        requires
            n <= u32::MAX,
            edges_valid(n as nat, edges@),
            edges@.len() <= usize::MAX / 2,
        ensures
            g.wf(),
            adjacency_of_edges(g@, n as nat, edges@),
    {
        Self::from_valid_edges(n, edges)
    }

    /// Fallible version of `from_edges`: an error message for a vertex count
    /// above `u32::MAX`, else for the first pair that is a self-loop or has an
    /// endpoint out of range. (A slice of 8-byte pairs never holds more than
    /// `usize::MAX / 2` of them.)
    pub fn try_from_edges(n: usize, edges: &[(u32, u32)]) -> (r: Result<Self, String>)
        requires
            edges@.len() <= usize::MAX / 2,
        ensures
            r is Ok <==> (n <= u32::MAX && edges_valid(n as nat, edges@)),
            r matches Ok(g) ==> g.wf() && adjacency_of_edges(g@, n as nat, edges@),
            n > u32::MAX ==> (r matches Err(m) && m@ == too_many_vertices_message(n as nat)),
            n <= u32::MAX ==> (r matches Err(m) ==> exists|i: int|
                first_bad_edge(n as nat, edges@, i) && m@ == bad_edge_message(n as nat, #[trigger] edges@[i])),
    {
        if n > u32::MAX as usize {
            return Err(too_many_vertices_error(n));
        }
        let mut i: usize = 0;
        while i < edges.len()
            invariant
                i <= edges@.len(),
                n <= u32::MAX,
                forall|j: int| 0 <= j < i ==> edge_ok(n as nat, #[trigger] edges@[j]),
            decreases edges@.len() - i,
        {
            let (u, v) = edges[i];
            if u == v {
                proof {
                    assert(first_bad_edge(n as nat, edges@, i as int));
                }
                return Err(self_loop_error(u));
            }
            if (u as usize) >= n || (v as usize) >= n {
                proof {
                    assert(first_bad_edge(n as nat, edges@, i as int));
                }
                return Err(out_of_range_error(u, v, n));
            }
            i += 1;
        }
        proof {
            assert forall|j: int| 0 <= j < edges@.len() implies (#[trigger] edges@[j]).0 != edges@[j].1
                && edges@[j].0 < n && edges@[j].1 < n by {
                assert(edge_ok(n as nat, edges@[j]));
            }
        }
        Ok(Self::from_valid_edges(n, edges))
    }
}


/// `vmap` lists, in increasing order, exactly the vertices `v < n` with `keep[v]`.
pub open spec fn kept_in_order(n: nat, keep: spec_fn(u32) -> bool, vmap: Seq<u32>) -> bool {
    &&& strictly_increasing(vmap)
    &&& forall|v: u32| #[trigger] vmap.contains(v) <==> (v < n && keep(v))
}

/// `sub` is the subgraph of `adj` induced by the vertices `vmap`, renumbered
/// so that new vertex `i` is old vertex `vmap[i]`.
pub open spec fn induced_by(adj: Seq<Seq<u32>>, vmap: Seq<u32>, sub: Seq<Seq<u32>>) -> bool {
    &&& sub.len() == vmap.len()
    &&& forall|i: int, j: int|
        0 <= i < vmap.len() && 0 <= j < vmap.len() ==> (#[trigger] sub[i].contains(j as u32)
            <==> adj[vmap[i] as int].contains(#[trigger] vmap[j]))
}

/// A membership mask of the values below `n` that occur in `vs`.
fn occurrence_mask(n: usize, vs: &[u32]) -> (mask: Vec<bool>)
    requires
        n <= u32::MAX,
    ensures
        mask@.len() == n,
        forall|v: int| 0 <= v < n ==> (#[trigger] mask@[v] <==> vs@.contains(v as u32)),
{
    let mut mask = vec![false; n];
    let mut i: usize = 0;
    while i < vs.len()
        invariant
            i <= vs@.len(),
            n <= u32::MAX,
            mask@.len() == n,
            forall|v: int| 0 <= v < n ==> (#[trigger] mask@[v] <==> vs@.take(i as int).contains(v as u32)),
        decreases vs@.len() - i,
    {
        let v = vs[i];
        if (v as usize) < n {
            mask.set(v as usize, true);
        }
        proof {
            let t1 = vs@.take(i + 1);
            let t0 = vs@.take(i as int);
            assert(t1 =~= t0.push(v));
            assert forall|w: u32| t1.contains(w) <==> (t0.contains(w) || w == v) by {
                if t1.contains(w) && w != v {
                    let k = choose|k: int| 0 <= k < i + 1 && t1[k] == w;
                    assert(t0[k] == w);
                }
                if t0.contains(w) {
                    let k = choose|k: int| 0 <= k < i && t0[k] == w;
                    assert(t1[k] == w);
                }
                assert(t1[i as int] == v);
            }
        }
        i += 1;
    }
    proof {
        assert(vs@.take(vs@.len() as int) =~= vs@);
    }
    mask
}

/// The new numbers of the kept entries of `list`, in order; `u32::MAX`
/// marks a vertex that is not kept.
spec fn renumbered(list: Seq<u32>, otn: Seq<u32>) -> Seq<u32>
    decreases list.len(),
{
    if list.len() == 0 {
        Seq::empty()
    } else {
        let rest = renumbered(list.drop_last(), otn);
        if otn[list.last() as int] != u32::MAX {
            rest.push(otn[list.last() as int])
        } else {
            rest
        }
    }
}

proof fn lemma_renumbered(list: Seq<u32>, otn: Seq<u32>)
    requires
        forall|m: int| 0 <= m < list.len() ==> #[trigger] list[m] < otn.len(),
    ensures
        renumbered(list, otn).len() <= list.len(),
        forall|x: u32|
            #[trigger] renumbered(list, otn).contains(x) <==> (x != u32::MAX && exists|m: int|
                0 <= m < list.len() && otn[#[trigger] list[m] as int] == x),
        strictly_increasing(list) && (forall|a: int, b: int|
            0 <= a < b < otn.len() && otn[a] != u32::MAX && otn[b] != u32::MAX ==> #[trigger] otn[a]
                < #[trigger] otn[b]) ==> strictly_increasing(renumbered(list, otn)),
    decreases list.len(),
{
    if list.len() > 0 {
        let pre = list.drop_last();
        lemma_renumbered(pre, otn);
        let rest = renumbered(pre, otn);
        let last = list.last();
        let r = renumbered(list, otn);
        assert forall|x: u32|
            #[trigger] r.contains(x) <==> (x != u32::MAX && exists|m: int|
                0 <= m < list.len() && otn[#[trigger] list[m] as int] == x) by {
            if otn[last as int] != u32::MAX {
                assert(r == rest.push(otn[last as int]));
                if r.contains(x) {
                    let p = choose|p: int| 0 <= p < r.len() && r[p] == x;
                    if p < rest.len() {
                        assert(rest[p] == x);
                        assert(rest.contains(x));
                        let m = choose|m: int| 0 <= m < pre.len() && otn[#[trigger] pre[m] as int] == x;
                        assert(list[m] == pre[m]);
                    } else {
                        assert(list[list.len() - 1] == last);
                    }
                }
                if x != u32::MAX && exists|m: int| 0 <= m < list.len() && otn[#[trigger] list[m] as int] == x {
                    let m = choose|m: int| 0 <= m < list.len() && otn[#[trigger] list[m] as int] == x;
                    if m < pre.len() {
                        assert(pre[m] == list[m]);
                        assert(rest.contains(x));
                        let p = choose|p: int| 0 <= p < rest.len() && rest[p] == x;
                        assert(r[p] == x);
                    } else {
                        assert(r[rest.len() as int] == x);
                    }
                }
            } else {
                assert(r == rest);
                if x != u32::MAX && exists|m: int| 0 <= m < list.len() && otn[#[trigger] list[m] as int] == x {
                    let m = choose|m: int| 0 <= m < list.len() && otn[#[trigger] list[m] as int] == x;
                    assert(m < pre.len());
                    assert(pre[m] == list[m]);
                }
                if r.contains(x) {
                    let m = choose|m: int| 0 <= m < pre.len() && otn[#[trigger] pre[m] as int] == x;
                    assert(list[m] == pre[m]);
                }
            }
        }
        if strictly_increasing(list) && (forall|a: int, b: int|
            0 <= a < b < otn.len() && otn[a] != u32::MAX && otn[b] != u32::MAX ==> #[trigger] otn[a]
                < #[trigger] otn[b]) {
            assert(strictly_increasing(pre));
            if otn[last as int] != u32::MAX {
                assert forall|a: int, b: int| 0 <= a < b < r.len() implies r[a] < r[b] by {
                    if b == rest.len() {
                        assert(rest.contains(rest[a]));
                        let m = choose|m: int| 0 <= m < pre.len() && otn[#[trigger] pre[m] as int] == rest[a];
                        assert(pre[m] < last);
                        assert(otn[pre[m] as int] < otn[last as int]);
                    }
                }
            }
        }
    }
}

impl SimpleGraph {
    /// Remove the vertices listed in `to_remove` and renumber the rest.
    /// Duplicates and out-of-range entries are ignored. Returns the new graph
    /// and `vmap` with `vmap[new] = old`; kept vertices stay in ascending order.
    pub fn rem_vertices(&self, to_remove: &[u32]) -> (r: (Self, Vec<u32>))
        requires
            self.wf(),
        ensures
            r.0.wf(),
            kept_in_order(self@.len(), |v: u32| !to_remove@.contains(v), r.1@),
            induced_by(self@, r.1@, r.0@),
    {
        let n = self.nv();
        proof {
            self.lemma_wf();
        }
        let removed = occurrence_mask(n, to_remove);
        let mut keep = vec![true; n];
        let mut i: usize = 0;
        while i < n
            invariant
                i <= n,
                removed@.len() == n,
                keep@.len() == n,
                forall|v: int| 0 <= v < i ==> (#[trigger] keep@[v] <==> !removed@[v]),
            decreases n - i,
        {
            keep.set(i, !removed[i]);
            i += 1;
        }
        let r = self.build_subgraph(&keep);
        proof {
            assert forall|v: u32| #[trigger] r.1@.contains(v) <==> (v < self@.len() && !to_remove@.contains(v)) by {
                if v < n {
                    assert(keep@[v as int] <==> !removed@[v as int]);
                }
            }
        }
        r
    }

    /// The subgraph induced by the listed vertices, renumbered. Duplicates and
    /// out-of-range entries are ignored. Returns the subgraph and `vmap` with
    /// `vmap[new] = old`; kept vertices are in ascending order regardless of
    /// the input order.
    pub fn induced_subgraph(&self, vertices: &[u32]) -> (r: (Self, Vec<u32>))
        requires
            self.wf(),
        ensures
            r.0.wf(),
            kept_in_order(self@.len(), |v: u32| vertices@.contains(v), r.1@),
            induced_by(self@, r.1@, r.0@),
    {
        proof {
            self.lemma_wf();
        }
        let keep = occurrence_mask(self.nv(), vertices);
        let r = self.build_subgraph(&keep);
        proof {
            assert forall|v: u32| #[trigger] r.1@.contains(v) <==> (v < self@.len() && vertices@.contains(v)) by {
                if v < self@.len() {
                    assert(keep@[v as int] <==> vertices@.contains(v));
                }
            }
        }
        r
    }

    /// The subgraph induced by the vertices `v` with `keep[v]`, renumbered
    /// in increasing order of the old indices.
    fn build_subgraph(&self, keep: &Vec<bool>) -> (r: (Self, Vec<u32>))
        requires
            self.wf(),
            keep@.len() == self@.len(),
        ensures
            r.0.wf(),
            degree_sum(r.0@) == 2 * num_edges(r.0@),
            kept_in_order(self@.len(), |v: u32| keep@[v as int], r.1@),
            induced_by(self@, r.1@, r.0@),
    {
        let ghost adj = self@;
        let n = self.nv();
        let mut old_to_new: Vec<u32> = vec![u32::MAX; n];
        let mut vmap: Vec<u32> = Vec::new();
        let mut new_idx: u32 = 0;
        let mut old: usize = 0;
        while old < n
            invariant
                old <= n,
                n == adj.len(),
                n <= u32::MAX,
                keep@.len() == n,
                old_to_new@.len() == n,
                new_idx as int == vmap@.len(),
                new_idx <= old,
                strictly_increasing(vmap@),
                forall|i: int| 0 <= i < vmap@.len() ==> #[trigger] vmap@[i] < old && keep@[vmap@[i] as int],
                forall|i: int| 0 <= i < vmap@.len() ==> old_to_new@[#[trigger] vmap@[i] as int] == i,
                forall|w: int|
                    0 <= w < n ==> (#[trigger] old_to_new@[w] != u32::MAX <==> (w < old && keep@[w])),
                forall|w: int|
                    0 <= w < n && old_to_new@[w] != u32::MAX ==> #[trigger] old_to_new@[w] < vmap@.len()
                        && vmap@[old_to_new@[w] as int] == w,
            decreases n - old,
        {
            if keep[old] {
                old_to_new.set(old, new_idx);
                proof {
                    assert forall|i: int, j: int| 0 <= i < j < vmap@.len() + 1 implies #[trigger] vmap@.push(
                        old as u32,
                    )[i] < #[trigger] vmap@.push(old as u32)[j] by {}
                }
                vmap.push(old as u32);
                new_idx += 1;
            }
            old += 1;
        }
        let ghost k = vmap@.len();
        proof {
            assert forall|v: u32| #[trigger] vmap@.contains(v) <==> (v < n && keep@[v as int]) by {
                if v < n && keep@[v as int] {
                    assert(vmap@[old_to_new@[v as int] as int] == v);
                }
            }
        }
        // the renumbering is increasing on kept vertices
        assert forall|a: int, b: int|
            0 <= a < b < n && old_to_new@[a] != u32::MAX && old_to_new@[b] != u32::MAX implies #[trigger] old_to_new@[a]
                < #[trigger] old_to_new@[b] by {
            let ia = old_to_new@[a] as int;
            let ib = old_to_new@[b] as int;
            if ia >= ib {
                if ia > ib {
                    assert(vmap@[ib] < vmap@[ia]);
                }
            }
        }
        let mut fadjlist: Vec<Vec<u32>> = Vec::new();
        let mut ne: usize = 0;
        let mut i: usize = 0;
        proof {
            assert(adj.take(0) =~= Seq::<Seq<u32>>::empty());
            self.lemma_wf();
        }
        while i < vmap.len()
            invariant
                i <= vmap@.len(),
                k == vmap@.len(),
                k <= n,
                n == adj.len(),
                adj == self@,
                self.wf(),
                valid_adjacency(adj),
                degree_sum(adj) <= usize::MAX,
                old_to_new@.len() == n,
                strictly_increasing(vmap@),
                forall|i: int| 0 <= i < vmap@.len() ==> #[trigger] vmap@[i] < n,
                forall|i: int| 0 <= i < vmap@.len() ==> old_to_new@[#[trigger] vmap@[i] as int] == i,
                forall|w: int|
                    0 <= w < n && old_to_new@[w] != u32::MAX ==> #[trigger] old_to_new@[w] < vmap@.len()
                        && vmap@[old_to_new@[w] as int] == w,
                forall|a: int, b: int|
                    0 <= a < b < n && old_to_new@[a] != u32::MAX && old_to_new@[b] != u32::MAX ==> #[trigger] old_to_new@[a]
                        < #[trigger] old_to_new@[b],
                fadjlist@.len() == i,
                forall|p: int| 0 <= p < i ==> strictly_increasing(#[trigger] fadjlist@[p]@),
                forall|p: int, j: int|
                    0 <= p < i && 0 <= j < k ==> (#[trigger] fadjlist@[p]@.contains(j as u32)
                        <==> adj[vmap@[p] as int].contains(#[trigger] vmap@[j])),
                forall|p: int, x: u32| 0 <= p < i && #[trigger] fadjlist@[p]@.contains(x) ==> x < k,
                ne == degree_sum(lists_view(fadjlist@)),
                i == 0 ==> ne == 0,
                i > 0 ==> ne <= degree_sum(adj.take(vmap@[i - 1] + 1)),
            decreases k - i,
        {
            let old_v = vmap[i];
            let list = self.neighbors(old_v);
            let mut new_nbrs: Vec<u32> = Vec::new();
            let mut j: usize = 0;
            proof {
                assert(list@.take(0) =~= Seq::<u32>::empty());
            }
            while j < list.len()
                invariant
                    j <= list@.len(),
                    list@ == adj[old_v as int],
                    n == adj.len(),
                    valid_adjacency(adj),
                    0 <= old_v < n,
                    old_to_new@.len() == n,
                    new_nbrs@ == renumbered(list@.take(j as int), old_to_new@),
                decreases list@.len() - j,
            {
                let nbr = list[j];
                proof {
                    assert(adj[old_v as int].contains(nbr));
                    assert(list@.take(j + 1).drop_last() =~= list@.take(j as int));
                }
                let new = old_to_new[nbr as usize];
                if new != u32::MAX {
                    new_nbrs.push(new);
                }
                j += 1;
            }
            proof {
                assert(list@.take(j as int) =~= list@);
                assert forall|m: int| 0 <= m < list@.len() implies #[trigger] list@[m] < old_to_new@.len() by {
                    assert(adj[old_v as int].contains(list@[m]));
                }
                lemma_renumbered(list@, old_to_new@);
                assert(new_nbrs@ == renumbered(list@, old_to_new@));
                assert forall|q: int| 0 <= q < k implies (#[trigger] new_nbrs@.contains(q as u32)
                    <==> adj[old_v as int].contains(#[trigger] vmap@[q])) by {
                    assert(vmap@[q] < n);
                    assert(old_to_new@[vmap@[q] as int] == q);
                    if new_nbrs@.contains(q as u32) {
                        assert(renumbered(list@, old_to_new@).contains(q as u32));
                        let m = choose|m: int| 0 <= m < list@.len() && old_to_new@[#[trigger] list@[m] as int] == q as u32;
                        assert(vmap@[q] == list@[m]);
                    }
                    if adj[old_v as int].contains(vmap@[q]) {
                        let m = choose|m: int| 0 <= m < list@.len() && list@[m] == vmap@[q];
                        assert(old_to_new@[list@[m] as int] == q);
                        assert(renumbered(list@, old_to_new@).contains(q as u32));
                    }
                }
                assert forall|x: u32| #[trigger] new_nbrs@.contains(x) implies x < k by {
                    let m = choose|m: int| 0 <= m < list@.len() && old_to_new@[#[trigger] list@[m] as int] == x;
                }
                assert(new_nbrs@.len() <= adj[old_v as int].len());
                lemma_degree_sum_take(adj, old_v as int);
                if i > 0 {
                    assert(vmap@[i - 1] < vmap@[i as int]);
                    assert(adj.take(old_v as int).take(vmap@[i - 1] + 1) =~= adj.take(vmap@[i - 1] + 1));
                    lemma_degree_sum_take_le(adj.take(old_v as int), vmap@[i - 1] + 1);
                }
                lemma_degree_sum_take_le(adj, old_v + 1);
                let f0 = lists_view(fadjlist@);
                lemma_degree_sum_push(f0, new_nbrs@);
                assert(lists_view(fadjlist@.push(new_nbrs)) =~= f0.push(new_nbrs@));
            }
            ne = ne + new_nbrs.len();
            fadjlist.push(new_nbrs);
            i += 1;
        }
        let g = SimpleGraph { ne: ne / 2, fadjlist };
        proof {
            let sub = g@;
            assert forall|p: int, x: u32| 0 <= p < sub.len() && #[trigger] sub[p].contains(x) implies x
                < sub.len() && x != p && sub[x as int].contains(p as u32) by {
                assert(fadjlist@[p]@.contains(x));
                assert(x < k);
                assert(fadjlist@[p]@.contains((x as int) as u32));
                assert(adj[vmap@[p] as int].contains(vmap@[x as int]));
                assert(adj[vmap@[x as int] as int].contains(vmap@[p]));
                assert(vmap@[x as int] != vmap@[p]);
            }
            assert forall|p: int| 0 <= p < sub.len() implies strictly_increasing(#[trigger] sub[p]) by {
                assert(sub[p] == fadjlist@[p]@);
            }
            assert forall|p: int, q: int|
                0 <= p < k && 0 <= q < k implies (#[trigger] sub[p].contains(q as u32)
                    <==> adj[vmap@[p] as int].contains(#[trigger] vmap@[q])) by {
                assert(sub[p] == fadjlist@[p]@);
            }
        }
        proof {
            g.lemma_wf();
        }
        (g, vmap)
    }
}


impl SimpleGraph {
    /// Rebuild the neighbor lists from compressed sparse row arrays.
    pub(crate) fn from_csr(offsets: &[usize], targets: &[u32], ne: usize) -> (g: Self)
        requires
            offsets@.len() >= 1,
            offsets_ok(offsets@, (offsets@.len() - 1) as nat, targets@.len()),
            valid_adjacency(csr_lists(offsets@, targets@, (offsets@.len() - 1) as nat)),
            ne == num_edges(csr_lists(offsets@, targets@, (offsets@.len() - 1) as nat)),
            degree_sum(csr_lists(offsets@, targets@, (offsets@.len() - 1) as nat)) <= usize::MAX,
        ensures
            g.wf(),
            g@ == csr_lists(offsets@, targets@, (offsets@.len() - 1) as nat),
    {
        let ghost lists = csr_lists(offsets@, targets@, (offsets@.len() - 1) as nat);
        let n = if offsets.len() == 0 {
            0
        } else {
            offsets.len() - 1
        };
        let mut fadjlist: Vec<Vec<u32>> = Vec::new();
        let mut v: usize = 0;
        while v < n
            invariant
                v <= n,
                n == offsets@.len() - 1,
                offsets_ok(offsets@, n as nat, targets@.len()),
                lists == csr_lists(offsets@, targets@, n as nat),
                fadjlist@.len() == v,
                forall|i: int| 0 <= i < v ==> (#[trigger] fadjlist@[i])@ == lists[i],
            decreases n - v,
        {
            proof {
                assert(offsets@[v as int] <= offsets@[v + 1]);
                assert(offsets@[v + 1] <= offsets@[n as int]);
            }
            let list = slice_to_vec(slice_subrange(targets, offsets[v], offsets[v + 1]));
            fadjlist.push(list);
            v += 1;
        }
        let g = SimpleGraph { ne, fadjlist };
        proof {
            assert(g@ =~= lists);
        }
        g
    }
}


impl SimpleGraph {
    /// Iterator over all edges `(u, v)` with `u < v`.
    pub fn edges(&self) -> (e: crate::iter::Edges<'_, Self>)
        requires
            self.wf(),
        ensures
            e.wf(),
            e.graph_adj() == self@,
            e.remaining() == crate::iter::edge_list(self@),
    {
        crate::iter::edges(self)
    }
}

impl Default for SimpleGraph {
    /// The graph without vertices.
    fn default() -> (g: Self)
        ensures
            g.wf(),
            g@ == empty_adjacency(0),
    {
        Self::new(0)
    }
}

/// Why adjacency lists handed in whole do not form a graph.
#[derive(Debug, Clone, Copy, PartialEq, Eq)]
pub enum RawGraphError {
    /// A neighbor is not a vertex ("neighbor out of range").
    NeighborOutOfRange,
    /// A vertex lists itself ("self-loop detected").
    SelfLoop,
    /// A list is not strictly increasing ("adjacency list not sorted or has duplicates").
    NotSorted,
    /// A neighbor does not list the vertex back ("asymmetric edge").
    Asymmetric,
    /// The edge count is not half the total length of the lists ("incorrect edge count").
    WrongEdgeCount,
}

/// `(u, i)` is a position in the lists.
pub open spec fn is_position(lists: Seq<Seq<u32>>, u: int, i: int) -> bool {
    0 <= u < lists.len() && 0 <= i < lists[u].len()
}

/// What is wrong with entry `i` of list `u`, checked in this order: range,
/// self-loop, order after the previous entry, listed back.
pub open spec fn entry_problem(lists: Seq<Seq<u32>>, u: int, i: int) -> Option<RawGraphError> {
    let v = lists[u][i];
    if v >= lists.len() {
        Some(RawGraphError::NeighborOutOfRange)
    } else if v == u {
        Some(RawGraphError::SelfLoop)
    } else if i > 0 && lists[u][i - 1] >= v {
        Some(RawGraphError::NotSorted)
    } else if !lists[v as int].contains(u as u32) {
        Some(RawGraphError::Asymmetric)
    } else {
        None
    }
}

/// The entry at `(u, i)` has problem `e`, and every entry before it (lists
/// in order, entries in order) has none.
pub open spec fn first_problem(lists: Seq<Seq<u32>>, u: int, i: int, e: RawGraphError) -> bool {
    &&& is_position(lists, u, i)
    &&& entry_problem(lists, u, i) == Some(e)
    &&& forall|u2: int, i2: int|
        is_position(lists, u2, i2) && (u2 < u || (u2 == u && i2 < i)) ==> #[trigger] entry_problem(lists, u2, i2)
            is None
}

/// Lists whose consecutive entries increase are strictly increasing.
proof fn lemma_consecutive_increasing(s: Seq<u32>)
    requires
        forall|i: int| 0 < i < s.len() ==> #[trigger] s[i - 1] < s[i],
    ensures
        strictly_increasing(s),
    decreases s.len(),
{
    if s.len() > 0 {
        let pre = s.drop_last();
        assert forall|i: int| 0 < i < pre.len() implies #[trigger] pre[i - 1] < pre[i] by {
            assert(pre[i - 1] == s[i - 1] && pre[i] == s[i]);
        }
        lemma_consecutive_increasing(pre);
        assert forall|i: int, j: int| 0 <= i < j < s.len() implies s[i] < s[j] by {
            if j == s.len() - 1 && i < j - 1 {
                assert(pre[i] < pre[j - 1]);
                assert(s[j - 1] < s[j]);
            } else if j < s.len() - 1 {
                assert(pre[i] < pre[j]);
            }
        }
    }
}

/// Lists without any entry problem are exactly the valid adjacencies.
proof fn lemma_no_problem_valid(lists: Seq<Seq<u32>>)
    requires
        lists.len() <= u32::MAX,
    ensures
        (forall|u: int, i: int| is_position(lists, u, i) ==> #[trigger] entry_problem(lists, u, i) is None)
            <==> valid_adjacency(lists),
{
    if forall|u: int, i: int| is_position(lists, u, i) ==> #[trigger] entry_problem(lists, u, i) is None {
        assert forall|u: int| 0 <= u < lists.len() implies strictly_increasing(#[trigger] lists[u]) by {
            assert forall|i: int| 0 < i < lists[u].len() implies #[trigger] lists[u][i - 1] < lists[u][i] by {
                assert(entry_problem(lists, u, i) is None);
            }
            lemma_consecutive_increasing(lists[u]);
        }
        assert forall|u: int, x: u32| 0 <= u < lists.len() && #[trigger] lists[u].contains(x) implies x < lists.len()
            && x != u && lists[x as int].contains(u as u32) by {
            let i = choose|i: int| 0 <= i < lists[u].len() && lists[u][i] == x;
            assert(entry_problem(lists, u, i) is None);
        }
    }
    if valid_adjacency(lists) {
        assert forall|u: int, i: int| is_position(lists, u, i) implies #[trigger] entry_problem(lists, u, i) is None by {
            assert(lists[u].contains(lists[u][i]));
            if i > 0 {
                assert(lists[u][i - 1] < lists[u][i]);
            }
        }
    }
}

/// Whether `l` holds `x`, by a linear scan.
fn list_contains(l: &Vec<u32>, x: u32) -> (b: bool)
    ensures
        b == l@.contains(x),
{
    let mut i: usize = 0;
    while i < l.len()
        invariant
            i <= l@.len(),
            forall|k: int| 0 <= k < i ==> l@[k] != x,
        decreases l@.len() - i,
    {
        if l[i] == x {
            return true;
        }
        i += 1;
    }
    false
}

/// Whether each list is strictly increasing.
fn increasing_flags(lists: &Vec<Vec<u32>>) -> (f: Vec<bool>)
    ensures
        f@.len() == lists@.len(),
        forall|v: int| 0 <= v < lists@.len() ==> #[trigger] f@[v] == strictly_increasing(lists@[v]@),
{
    let mut f: Vec<bool> = Vec::new();
    let mut v: usize = 0;
    while v < lists.len()
        invariant
            v <= lists@.len(),
            f@.len() == v,
            forall|w: int| 0 <= w < v ==> #[trigger] f@[w] == strictly_increasing(lists@[w]@),
        decreases lists@.len() - v,
    {
        let l = &lists[v];
        let mut ok = true;
        let mut i: usize = 1;
        while i < l.len()
            invariant
                1 <= i,
                i <= l@.len() || l@.len() == 0,
                ok ==> forall|k: int| 0 < k < i && k < l@.len() ==> #[trigger] l@[k - 1] < l@[k],
                !ok ==> !strictly_increasing(l@),
            decreases l@.len() - i,
        {
            if l[i - 1] >= l[i] {
                ok = false;
            }
            i += 1;
        }
        proof {
            if ok {
                lemma_consecutive_increasing(l@);
            }
        }
        f.push(ok);
        v += 1;
    }
    f
}

impl SimpleGraph {
    /// A graph from its edge count and adjacency lists, after checking them:
    /// every entry is a vertex other than its owner, each list is strictly
    /// increasing, each neighbor lists the vertex back (checked entry by
    /// entry, lists in order), and the edge count is half the total length.
    /// This is what deserializing a graph checks. Graphs have at most
    /// `u32::MAX` vertices, and lists held in memory have a total length
    /// that fits in a `usize`.
    pub fn from_raw(ne: usize, fadjlist: Vec<Vec<u32>>) -> (r: Result<SimpleGraph, RawGraphError>)
        requires
            fadjlist@.len() <= u32::MAX,
            degree_sum(lists_view(fadjlist@)) <= usize::MAX,
        ensures
            r is Ok <==> valid_adjacency(lists_view(fadjlist@)) && num_edges(lists_view(fadjlist@)) == ne,
            r matches Ok(g) ==> g.wf() && g@ == lists_view(fadjlist@),
            !valid_adjacency(lists_view(fadjlist@)) ==> (r matches Err(e) && exists|u: int, i: int|
                first_problem(lists_view(fadjlist@), u, i, e)),
            valid_adjacency(lists_view(fadjlist@)) && num_edges(lists_view(fadjlist@)) != ne ==> r
                == Err::<SimpleGraph, RawGraphError>(RawGraphError::WrongEdgeCount),
    {
        let ghost lists = lists_view(fadjlist@);
        let n = fadjlist.len();
        let sorted = increasing_flags(&fadjlist);
        let mut total: usize = 0;
        let mut u: usize = 0;
        while u < n
            invariant
                n == fadjlist@.len() == lists.len(),
                n <= u32::MAX,
                lists == lists_view(fadjlist@),
                degree_sum(lists) <= usize::MAX,
                sorted@.len() == n,
                forall|v: int| 0 <= v < n ==> #[trigger] sorted@[v] == strictly_increasing(lists[v]),
                u <= n,
                total == degree_sum(lists.take(u as int)),
                forall|u2: int, i2: int| is_position(lists, u2, i2) && u2 < u ==> #[trigger] entry_problem(lists, u2, i2)
                    is None,
            decreases n - u,
        {
            let l = &fadjlist[u];
            assert(l@ == lists[u as int]);
            let mut i: usize = 0;
            while i < l.len()
                invariant
                    n == fadjlist@.len() == lists.len(),
                    n <= u32::MAX,
                    lists == lists_view(fadjlist@),
                    sorted@.len() == n,
                    forall|v: int| 0 <= v < n ==> #[trigger] sorted@[v] == strictly_increasing(lists[v]),
                    u < n,
                    l@ == lists[u as int],
                    i <= l@.len(),
                    forall|u2: int, i2: int|
                        is_position(lists, u2, i2) && (u2 < u || (u2 == u && i2 < i)) ==> #[trigger] entry_problem(
                            lists,
                            u2,
                            i2,
                        ) is None,
                decreases l@.len() - i,
            {
                let v = l[i];
                let bad = if (v as usize) >= n {
                    Some(RawGraphError::NeighborOutOfRange)
                } else if (v as usize) == u {
                    Some(RawGraphError::SelfLoop)
                } else if i > 0 && l[i - 1] >= v {
                    Some(RawGraphError::NotSorted)
                } else {
                    let lv = &fadjlist[v as usize];
                    assert(lv@ == lists[v as int]);
                    let back = if sorted[v as usize] {
                        binary_search(lv.as_slice(), u as u32).is_ok()
                    } else {
                        list_contains(lv, u as u32)
                    };
                    if back {
                        None
                    } else {
                        Some(RawGraphError::Asymmetric)
                    }
                };
                assert(bad == entry_problem(lists, u as int, i as int));
                if let Some(e) = bad {
                    proof {
                        assert(first_problem(lists, u as int, i as int, e));
                        lemma_no_problem_valid(lists);
                    }
                    return Err(e);
                }
                i += 1;
            }
            proof {
                lemma_degree_sum_take(lists, u as int);
                lemma_degree_sum_take_le(lists, u + 1);
            }
            total = total + l.len();
            u += 1;
        }
        proof {
            assert(lists.take(n as int) =~= lists);
            lemma_no_problem_valid(lists);
        }
        if total / 2 != ne {
            return Err(RawGraphError::WrongEdgeCount);
        }
        let g = SimpleGraph { ne, fadjlist };
        Ok(g)
    }
}

} // verus!

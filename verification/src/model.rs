//! Mathematical model of an undirected simple graph: one adjacency list per
//! vertex, each strictly increasing, symmetric, without self-loops.
use vstd::prelude::*;

verus! {

/// The entries of `s` are in strictly increasing order (sorted, no duplicates).
pub open spec fn strictly_increasing(s: Seq<u32>) -> bool {
    forall|i: int, j: int| 0 <= i < j < s.len() ==> s[i] < s[j]
}

/// Adjacency lists of a simple undirected graph on the vertices `0..adj.len()`:
/// vertex ids fit in `u32`, every list is strictly increasing, holds only
/// vertices of the graph other than its owner, and the relation is symmetric.
pub open spec fn valid_adjacency(adj: Seq<Seq<u32>>) -> bool {
    &&& adj.len() <= u32::MAX
    &&& forall|u: int| 0 <= u < adj.len() ==> strictly_increasing(#[trigger] adj[u])
    &&& forall|u: int, x: u32|
        0 <= u < adj.len() && #[trigger] adj[u].contains(x) ==> x < adj.len() && x != u
            && adj[x as int].contains(u as u32)
}

/// `u` and `v` are joined by an edge.
pub open spec fn adjacent(adj: Seq<Seq<u32>>, u: int, v: int) -> bool {
    &&& 0 <= u < adj.len()
    &&& 0 <= v < adj.len()
    &&& adj[u].contains(v as u32)
}

/// Sum of the lengths of all adjacency lists.
pub open spec fn degree_sum(adj: Seq<Seq<u32>>) -> nat
    decreases adj.len(),
{
    if adj.len() == 0 {
        0
    } else {
        degree_sum(adj.drop_last()) + adj.last().len()
    }
}

/// Number of edges: every edge is listed once at each of its two ends.
pub open spec fn num_edges(adj: Seq<Seq<u32>>) -> nat {
    degree_sum(adj) / 2
}

/// The graph on `n` vertices without edges.
pub open spec fn empty_adjacency(n: nat) -> Seq<Seq<u32>> {
    Seq::new(n, |i: int| Seq::<u32>::empty())
}

pub proof fn lemma_degree_sum_empty(n: nat)
    ensures
        degree_sum(empty_adjacency(n)) == 0,
    decreases n,
{
    if n > 0 {
        assert(empty_adjacency(n).drop_last() =~= empty_adjacency((n - 1) as nat));
        lemma_degree_sum_empty((n - 1) as nat);
    }
}

/// Changing one list changes the degree sum by the difference of the lengths.
pub proof fn lemma_degree_sum_update(adj: Seq<Seq<u32>>, k: int, l: Seq<u32>)
    requires
        0 <= k < adj.len(),
    ensures
        degree_sum(adj.update(k, l)) + adj[k].len() == degree_sum(adj) + l.len(),
    decreases adj.len(),
{
    let a2 = adj.update(k, l);
    if k == adj.len() - 1 {
        assert(a2.drop_last() =~= adj.drop_last());
    } else {
        assert(a2.drop_last() =~= adj.drop_last().update(k, l));
        lemma_degree_sum_update(adj.drop_last(), k, l);
    }
}

/// Appending a list adds its length to the degree sum.
pub proof fn lemma_degree_sum_push(adj: Seq<Seq<u32>>, l: Seq<u32>)
    ensures
        degree_sum(adj.push(l)) == degree_sum(adj) + l.len(),
{
    assert(adj.push(l).drop_last() =~= adj);
}

/// Every list is no longer than the degree sum.
pub proof fn lemma_degree_le_sum(adj: Seq<Seq<u32>>, k: int)
    requires
        0 <= k < adj.len(),
    ensures
        adj[k].len() <= degree_sum(adj),
    decreases adj.len(),
{
    if k < adj.len() - 1 {
        lemma_degree_le_sum(adj.drop_last(), k);
    }
}

/// The view of nested vectors as a sequence of sequences.
pub open spec fn lists_view(v: Seq<Vec<u32>>) -> Seq<Seq<u32>> {
    Seq::new(v.len(), |i: int| v[i]@)
}

/// Edge `{u, v}` occurs among the first `k` pairs of `edges`, in either orientation.
pub open spec fn listed_before(edges: Seq<(u32, u32)>, k: int, u: int, v: int) -> bool {
    exists|i: int|
        0 <= i < k && ((#[trigger] edges[i]).0 == u && edges[i].1 == v || edges[i].0 == v
            && edges[i].1 == u)
}

/// Edge `{u, v}` occurs in `edges`, in either orientation.
pub open spec fn listed(edges: Seq<(u32, u32)>, u: int, v: int) -> bool {
    listed_before(edges, edges.len() as int, u, v)
}

/// Every pair joins two distinct vertices below `n`.
pub open spec fn edges_valid(n: nat, edges: Seq<(u32, u32)>) -> bool {
    forall|i: int|
        0 <= i < edges.len() ==> (#[trigger] edges[i]).0 != edges[i].1 && edges[i].0 < n
            && edges[i].1 < n
}

/// `adj` is the graph on `n` vertices whose edges are the listed pairs:
/// strictly increasing lists, and `x` is a neighbor of `u` exactly when
/// `{u, x}` is listed.
pub open spec fn adjacency_of_edges(adj: Seq<Seq<u32>>, n: nat, edges: Seq<(u32, u32)>) -> bool {
    &&& adj.len() == n
    &&& forall|u: int| 0 <= u < n ==> strictly_increasing(#[trigger] adj[u])
    &&& forall|u: int, x: u32| 0 <= u < n ==> (#[trigger] adj[u].contains(x) <==> listed(edges, u, x as int))
}

/// The lists of the first `k` entries add up to the degree sum of that prefix.
pub proof fn lemma_degree_sum_take(adj: Seq<Seq<u32>>, k: int)
    requires
        0 <= k < adj.len(),
    ensures
        degree_sum(adj.take(k + 1)) == degree_sum(adj.take(k)) + adj[k].len(),
{
    assert(adj.take(k + 1).drop_last() =~= adj.take(k));
}

/// A prefix has no larger degree sum than the whole.
pub proof fn lemma_degree_sum_take_le(adj: Seq<Seq<u32>>, k: int)
    requires
        0 <= k <= adj.len(),
    ensures
        degree_sum(adj.take(k)) <= degree_sum(adj),
    decreases adj.len() - k,
{
    if k == adj.len() {
        assert(adj.take(k) =~= adj);
    } else {
        lemma_degree_sum_take(adj, k);
        lemma_degree_sum_take_le(adj, k + 1);
    }
}

/// Inserting `x` at its sorted position keeps a list strictly increasing.
pub proof fn lemma_insert_sorted(s: Seq<u32>, pos: int, x: u32)
    requires
        strictly_increasing(s),
        0 <= pos <= s.len(),
        forall|j: int| 0 <= j < pos ==> s[j] < x,
        forall|j: int| pos <= j < s.len() ==> s[j] > x,
    ensures
        strictly_increasing(s.insert(pos, x)),
        s.insert(pos, x).len() == s.len() + 1,
        forall|y: u32| s.insert(pos, x).contains(y) <==> (s.contains(y) || y == x),
{
    let t = s.insert(pos, x);
    assert forall|i: int, j: int| 0 <= i < j < t.len() implies t[i] < t[j] by {
        if j < pos {
        } else if j == pos {
        } else if i < pos {
        } else if i == pos {
        } else {
            assert(t[i] == s[i - 1] && t[j] == s[j - 1]);
        }
    }
    assert forall|y: u32| t.contains(y) <==> (s.contains(y) || y == x) by {
        if t.contains(y) {
            let i = choose|i: int| 0 <= i < t.len() && t[i] == y;
            if i < pos {
                assert(s[i] == y);
            } else if i > pos {
                assert(s[i - 1] == y);
            }
        }
        if s.contains(y) {
            let i = choose|i: int| 0 <= i < s.len() && s[i] == y;
            if i < pos {
                assert(t[i] == y);
            } else {
                assert(t[i + 1] == y);
            }
        }
        if y == x {
            assert(t[pos] == x);
        }
    }
}

/// Removing an entry keeps a list strictly increasing and drops exactly that value.
pub proof fn lemma_remove_sorted(s: Seq<u32>, pos: int)
    requires
        strictly_increasing(s),
        0 <= pos < s.len(),
    ensures
        strictly_increasing(s.remove(pos)),
        s.remove(pos).len() == s.len() - 1,
        forall|y: u32| s.remove(pos).contains(y) <==> (s.contains(y) && y != s[pos]),
{
    let t = s.remove(pos);
    assert forall|i: int, j: int| 0 <= i < j < t.len() implies t[i] < t[j] by {
        if j < pos {
        } else if i < pos {
            assert(t[j] == s[j + 1]);
        } else {
            assert(t[i] == s[i + 1] && t[j] == s[j + 1]);
        }
    }
    assert forall|y: u32| t.contains(y) <==> (s.contains(y) && y != s[pos]) by {
        if t.contains(y) {
            let i = choose|i: int| 0 <= i < t.len() && t[i] == y;
            if i < pos {
                assert(s[i] == y);
            } else {
                assert(s[i + 1] == y);
            }
        }
        if s.contains(y) && y != s[pos] {
            let i = choose|i: int| 0 <= i < s.len() && s[i] == y;
            if i < pos {
                assert(t[i] == y);
            } else {
                assert(i != pos);
                assert(t[i - 1] == y);
            }
        }
    }
}

/// A strictly increasing sequence holds each value at most once, so it is
/// determined by the set of its values.
pub proof fn lemma_strictly_increasing_unique(a: Seq<u32>, b: Seq<u32>)
    requires
        strictly_increasing(a),
        strictly_increasing(b),
        forall|x: u32| a.contains(x) <==> b.contains(x),
    ensures
        a == b,
    decreases a.len() + b.len(),
{
    if a.len() == 0 {
        if b.len() > 0 {
            assert(b.contains(b[0]));
        }
        assert(a =~= b);
    } else if b.len() == 0 {
        assert(a.contains(a[0]));
    } else {
        // the smallest values agree
        assert(a.contains(a[0]));
        assert(b.contains(b[0]));
        let ia = choose|i: int| 0 <= i < a.len() && a[i] == b[0];
        let ib = choose|i: int| 0 <= i < b.len() && b[i] == a[0];
        assert(a[0] == b[0]) by {
            if a[0] < b[0] {
                assert(b[ib] == a[0]);
                if ib > 0 {
                    assert(b[0] < b[ib]);
                }
            } else if a[0] > b[0] {
                if ia > 0 {
                    assert(a[0] < a[ia]);
                }
            }
        }
        let a1 = a.drop_first();
        let b1 = b.drop_first();
        assert forall|x: u32| a1.contains(x) <==> b1.contains(x) by {
            if a1.contains(x) {
                let i = choose|i: int| 0 <= i < a1.len() && a1[i] == x;
                assert(a[i + 1] == x);
                assert(x > a[0]);
                assert(b.contains(x));
                let j = choose|j: int| 0 <= j < b.len() && b[j] == x;
                assert(j != 0);
                assert(b1[j - 1] == x);
            }
            if b1.contains(x) {
                let i = choose|i: int| 0 <= i < b1.len() && b1[i] == x;
                assert(b[i + 1] == x);
                assert(x > b[0]);
                assert(a.contains(x));
                let j = choose|j: int| 0 <= j < a.len() && a[j] == x;
                assert(j != 0);
                assert(a1[j - 1] == x);
            }
        }
        lemma_strictly_increasing_unique(a1, b1);
        assert(a =~= b) by {
            assert forall|i: int| 0 <= i < a.len() implies a[i] == b[i] by {
                if i > 0 {
                    assert(a[i] == a1[i - 1]);
                    assert(b[i] == b1[i - 1]);
                }
            }
        }
    }
}


/// A repeat-free sequence of values below `n` has at most `n` entries, and
/// exactly `n` when it holds every value below `n`.
pub proof fn lemma_distinct_below(s: Seq<u32>, n: nat)
    requires
        s.no_duplicates(),
        forall|i: int| 0 <= i < s.len() ==> (#[trigger] s[i] as int) < n,
        n <= u32::MAX + 1,
    ensures
        s.len() <= n,
        s.len() == n <==> forall|v: int| 0 <= v < n ==> #[trigger] s.contains(v as u32),
{
    broadcast use vstd::seq_lib::seq_to_set_is_finite;
    let all = Seq::new(n, |i: int| i as u32);
    assert(all.no_duplicates());
    all.unique_seq_to_set();
    s.unique_seq_to_set();
    let a = s.to_set();
    let r = all.to_set();
    assert(a.subset_of(r)) by {
        assert forall|x: u32| a.contains(x) implies r.contains(x) by {
            let i = choose|i: int| 0 <= i < s.len() && s[i] == x;
            assert(all[x as int] == x);
        }
    }
    vstd::set_lib::lemma_len_subset(a, r);
    if s.len() == n {
        vstd::set_lib::lemma_subset_equality(a, r);
        assert forall|v: int| 0 <= v < n implies #[trigger] s.contains(v as u32) by {
            assert(all[v] == v as u32);
            assert(r.contains(v as u32));
        }
    }
    if forall|v: int| 0 <= v < n ==> #[trigger] s.contains(v as u32) {
        assert(r.subset_of(a)) by {
            assert forall|x: u32| r.contains(x) implies a.contains(x) by {
                let i = choose|i: int| 0 <= i < all.len() && all[i] == x;
                assert(s.contains(i as u32));
            }
        }
        vstd::set_lib::lemma_len_subset(r, a);
    }
}


/// Appending a pair lists that pair in addition to the earlier ones.
pub proof fn lemma_listed_push(edges: Seq<(u32, u32)>, e: (u32, u32), u: int, v: int)
    ensures
        listed(edges.push(e), u, v) <==> (listed(edges, u, v) || (e.0 == u && e.1 == v) || (e.0 == v
            && e.1 == u)),
{
    let f = edges.push(e);
    if listed(f, u, v) {
        let i = choose|i: int|
            0 <= i < f.len() && ((#[trigger] f[i]).0 == u && f[i].1 == v || f[i].0 == v && f[i].1 == u);
        if i < edges.len() {
            assert(edges[i] == f[i]);
        }
    }
    if listed(edges, u, v) {
        let i = choose|i: int|
            0 <= i < edges.len() && ((#[trigger] edges[i]).0 == u && edges[i].1 == v || edges[i].0 == v
                && edges[i].1 == u);
        assert(f[i] == edges[i]);
    }
    assert(f[edges.len() as int] == e);
}

/// `b` is `a` with the edge `{u, v}` added (if it was not there).
pub open spec fn edge_added(a: Seq<Seq<u32>>, b: Seq<Seq<u32>>, u: int, v: int) -> bool {
    &&& b.len() == a.len()
    &&& forall|x: int, y: int|
        adjacent(b, x, y) <==> (adjacent(a, x, y) || (x == u && y == v) || (x == v && y == u))
}

/// `b` is `a` with the edge `{u, v}` removed (if it was there).
pub open spec fn edge_removed(a: Seq<Seq<u32>>, b: Seq<Seq<u32>>, u: int, v: int) -> bool {
    &&& b.len() == a.len()
    &&& forall|x: int, y: int| adjacent(b, x, y) <==> (adjacent(a, x, y) && !(x == u && y == v) && !(x == v && y == u))
}

/// A valid adjacency is determined by its number of vertices and which
/// pairs are adjacent.
pub proof fn lemma_adjacency_extensional(a: Seq<Seq<u32>>, b: Seq<Seq<u32>>)
    requires
        valid_adjacency(a),
        valid_adjacency(b),
        a.len() == b.len(),
        forall|x: int, y: int| adjacent(a, x, y) <==> adjacent(b, x, y),
    ensures
        a == b,
{
    assert forall|u: int| 0 <= u < a.len() implies a[u] == b[u] by {
        assert forall|x: u32| a[u].contains(x) <==> b[u].contains(x) by {
            assert(adjacent(a, u, x as int) <==> adjacent(b, u, x as int));
        }
        lemma_strictly_increasing_unique(a[u], b[u]);
    }
    assert(a =~= b);
}

} // verus!

//! Unweighted shortest-path distances by breadth-first search.
use vstd::prelude::*;
use crate::algo::bfs::labeled;
use crate::algo::traversal::{
    closed_outside, discovered, fresh, is_distance, is_walk, lemma_fresh_props, lemma_fresh_take,
    lemma_frontier_cut, lemma_frontier_index, lemma_reachable_refl, lemma_step_state,
    lemma_unvisited_decreases, lemma_unvisited_mono, lemma_walk_prefix, mark, reachable,
    rest_of, traversal_state, unvisited_count, within,
};
use crate::graph::Graph;
use crate::model::{adjacent, lemma_distinct_below, valid_adjacency};

verus! {

/// A walk from `s` to a vertex not yet reached is longer than the distance
/// of the vertex at the front of the queue.
proof fn lemma_unreached_far(
    adj: Seq<Seq<u32>>,
    q: Seq<u32>,
    head: int,
    dist: Seq<u32>,
    s: int,
    p: Seq<int>,
)
    requires
        0 <= head < q.len(),
        traversal_state(adj, q.subrange(head, q.len() as int), labeled(dist)),
        forall|i: int, j: int| 0 <= i <= j < q.len() ==> dist[#[trigger] q[i] as int] <= dist[#[trigger] q[j] as int],
        forall|v: int| 0 <= v < adj.len() && #[trigger] dist[v] != u32::MAX ==> !within(adj, s, v, dist[v] - 1),
        is_walk(adj, p),
        p[0] == s,
        dist[s] != u32::MAX,
        dist[p.last()] == u32::MAX,
    ensures
        p.len() - 1 >= dist[q[head] as int] + 1,
{
    let f = q.subrange(head, q.len() as int);
    assert(labeled(dist)[p[0]]);
    assert(!labeled(dist)[p.last()]);
    lemma_frontier_index(adj, f, labeled(dist), p);
    let i = choose|i: int| 0 <= i < p.len() - 1 && #[trigger] f.contains(p[i] as u32);
    let k = choose|k: int| 0 <= k < f.len() && f[k] == p[i] as u32;
    assert(q[head + k] == p[i] as u32);
    assert(dist[q[head] as int] <= dist[q[head + k] as int]);
    lemma_walk_prefix(adj, p, i + 1);
    let pre = p.take(i + 1);
    assert(pre.last() == p[i]);
    assert(dist[p[i]] != u32::MAX) by {
        assert(labeled(dist)[f[k] as int]);
    }
    if dist[p[i]] > i {
        assert(within(adj, s, p[i], dist[p[i]] - 1));
    }
}

/// The queue lists the reached vertices (distance not `u32::MAX`), without
/// repeats, starting with the source at distance 0.
pub open spec fn queue_ok(adj: Seq<Seq<u32>>, s: int, q: Seq<u32>, dist: Seq<u32>) -> bool {
    let n = adj.len();
    &&& 0 <= s < n
    &&& dist.len() == n
    &&& q.len() > 0
    &&& q[0] == s
    &&& dist[s] == 0
    &&& q.no_duplicates()
    &&& forall|i: int| 0 <= i < q.len() ==> (#[trigger] q[i] as int) < n
    &&& forall|v: int| 0 <= v < n ==> (#[trigger] dist[v] != u32::MAX <==> q.contains(v as u32))
}

/// Distances along the queue are nondecreasing, those still to be processed
/// are within one of the front, and position `i` holds distance at most `i`.
pub open spec fn queue_ordered(q: Seq<u32>, head: int, dist: Seq<u32>) -> bool {
    &&& forall|i: int, j: int| 0 <= i <= j < q.len() ==> dist[#[trigger] q[i] as int] <= dist[#[trigger] q[j] as int]
    &&& head < q.len() ==> forall|i: int| head <= i < q.len() ==> dist[#[trigger] q[i] as int] <= dist[q[head] as int] + 1
    &&& forall|i: int| 0 <= i < q.len() ==> dist[#[trigger] q[i] as int] <= i
}

/// Every reached vertex has its exact distance from `s`.
pub open spec fn distances_exact(adj: Seq<Seq<u32>>, s: int, dist: Seq<u32>) -> bool {
    &&& forall|v: int| 0 <= v < adj.len() && #[trigger] dist[v] != u32::MAX ==> within(adj, s, v, dist[v] as int)
    &&& forall|v: int| 0 <= v < adj.len() && #[trigger] dist[v] != u32::MAX ==> !within(adj, s, v, dist[v] - 1)
}

/// The state of the distance search.
pub open spec fn search_state(adj: Seq<Seq<u32>>, s: int, q: Seq<u32>, head: int, dist: Seq<u32>) -> bool {
    &&& valid_adjacency(adj)
    &&& 0 <= head <= q.len()
    &&& queue_ok(adj, s, q, dist)
    &&& traversal_state(adj, q.subrange(head, q.len() as int), labeled(dist))
    &&& queue_ordered(q, head, dist)
    &&& distances_exact(adj, s, dist)
}

/// The effect of processing the front vertex `u = q0[h0]`: its unreached
/// neighbors `new` join the queue at distance one more than `u`'s.
pub open spec fn step_effect(adj: Seq<Seq<u32>>, q0: Seq<u32>, h0: int, d0: Seq<u32>, q1: Seq<u32>, d1: Seq<u32>) -> bool {
    let u = q0[h0];
    let new = fresh(adj[u as int], labeled(d0));
    &&& q1 == q0 + new
    &&& d1.len() == d0.len()
    &&& d0[u as int] + 1 <= u32::MAX
    &&& new.len() > 0 ==> d0[u as int] + 1 < u32::MAX
    &&& forall|v: int| 0 <= v < d0.len() ==> #[trigger] d1[v] == if new.contains(v as u32) {
        (d0[u as int] + 1) as u32
    } else {
        d0[v]
    }
}

proof fn lemma_step_queue(adj: Seq<Seq<u32>>, s: int, q0: Seq<u32>, h0: int, d0: Seq<u32>, q1: Seq<u32>, d1: Seq<u32>)
    requires
        valid_adjacency(adj),
        queue_ok(adj, s, q0, d0),
        0 <= h0 < q0.len(),
        step_effect(adj, q0, h0, d0, q1, d1),
    ensures
        queue_ok(adj, s, q1, d1),
        forall|i: int| 0 <= i < q0.len() ==> #[trigger] d1[q1[i] as int] == d0[q0[i] as int] && q1[i] == q0[i],
        forall|i: int| q0.len() <= i < q1.len() ==> #[trigger] d1[q1[i] as int] == d0[q0[h0] as int] + 1,
{
    let n = adj.len();
    let vis0 = labeled(d0);
    let u = q0[h0];
    let new = fresh(adj[u as int], vis0);
    lemma_fresh_props(adj[u as int], vis0);
    assert forall|i: int| q0.len() <= i < q1.len() implies #[trigger] d1[q1[i] as int] == d0[u as int] + 1 by {
        assert(new[i - q0.len()] == q1[i]);
        assert(new.contains(q1[i]));
    }
    assert forall|i: int| 0 <= i < q0.len() implies #[trigger] d1[q1[i] as int] == d0[q0[i] as int] && q1[i] == q0[i] by {
        assert(q1[i] == q0[i]);
        assert(q0.contains(q0[i]));
        assert(vis0[q0[i] as int]);
        assert(!new.contains(q0[i]));
    }
    assert(q1.no_duplicates()) by {
        assert forall|a: int, b: int| 0 <= a < q1.len() && 0 <= b < q1.len() && a != b implies q1[a] != q1[b] by {
            if a < q0.len() && b < q0.len() {
                assert(q1[a] == q0[a] && q1[b] == q0[b]);
            } else if a >= q0.len() && b >= q0.len() {
                lemma_fresh_no_dup_sorted(adj, u as int, vis0);
                assert(q1[a] == new[a - q0.len()] && q1[b] == new[b - q0.len()]);
            } else if a < q0.len() {
                assert(q0.contains(q1[a]));
                assert(vis0[q1[a] as int]);
                assert(new.contains(q1[b]));
            } else {
                assert(q0.contains(q1[b]));
                assert(vis0[q1[b] as int]);
                assert(new.contains(q1[a]));
            }
        }
    }
    assert forall|i: int| 0 <= i < q1.len() implies (#[trigger] q1[i] as int) < n by {
        if i >= q0.len() {
            assert(new.contains(q1[i]));
        } else {
            assert(q1[i] == q0[i]);
        }
    }
    assert forall|v: int| 0 <= v < n implies (#[trigger] d1[v] != u32::MAX <==> q1.contains(v as u32)) by {
        if new.contains(v as u32) {
            assert(new.len() > 0);
        }
        if q1.contains(v as u32) {
            let i = choose|i: int| 0 <= i < q1.len() && q1[i] == v as u32;
            if i < q0.len() {
                assert(q0[i] == v as u32);
                assert(q0.contains(v as u32));
            } else {
                assert(new[i - q0.len()] == v as u32);
            }
        }
        if d1[v] != u32::MAX && !new.contains(v as u32) {
            assert(q0.contains(v as u32));
            let i = choose|i: int| 0 <= i < q0.len() && q0[i] == v as u32;
            assert(q1[i] == v as u32);
        }
        if new.contains(v as u32) {
            let i = choose|i: int| 0 <= i < new.len() && new[i] == v as u32;
            assert(q1[q0.len() + i] == v as u32);
        }
    }
    assert(d1[s] == 0) by {
        assert(q0[0] == s);
        assert(q0.contains(s as u32));
        assert(vis0[s]);
    }
    assert(q1[0] == s);
}

proof fn lemma_fresh_no_dup_sorted(adj: Seq<Seq<u32>>, u: int, vis: Seq<bool>)
    requires
        valid_adjacency(adj),
        0 <= u < adj.len(),
    ensures
        fresh(adj[u], vis).no_duplicates(),
{
    assert(adj[u].no_duplicates()) by {
        assert forall|i: int, j: int| 0 <= i < adj[u].len() && 0 <= j < adj[u].len() && i != j implies adj[u][i] != adj[u][j] by {
            if i < j {
                assert(adj[u][i] < adj[u][j]);
            } else {
                assert(adj[u][j] < adj[u][i]);
            }
        }
    }
    crate::algo::traversal::lemma_fresh_no_dup(adj[u], vis);
}

proof fn lemma_step_order(q0: Seq<u32>, h0: int, d0: Seq<u32>, q1: Seq<u32>, d1: Seq<u32>)
    requires
        queue_ordered(q0, h0, d0),
        0 <= h0 < q0.len(),
        q1.len() >= q0.len(),
        forall|i: int| 0 <= i < q0.len() ==> #[trigger] d1[q1[i] as int] == d0[q0[i] as int] && q1[i] == q0[i],
        forall|i: int| q0.len() <= i < q1.len() ==> #[trigger] d1[q1[i] as int] == d0[q0[h0] as int] + 1,
    ensures
        queue_ordered(q1, h0 + 1, d1),
{
    let head = h0 + 1;
    assert forall|i: int, k: int| 0 <= i <= k < q1.len() implies d1[#[trigger] q1[i] as int] <= d1[#[trigger] q1[k] as int] by {
        if k >= q0.len() && i < q0.len() {
            if i >= h0 {
                assert(d0[q0[i] as int] <= d0[q0[h0] as int] + 1);
            } else {
                assert(d0[q0[i] as int] <= d0[q0[h0] as int]);
            }
        } else if k < q0.len() {
            assert(d0[q0[i] as int] <= d0[q0[k] as int]);
        }
    }
    if head < q1.len() {
        assert forall|i: int| head <= i < q1.len() implies d1[#[trigger] q1[i] as int] <= d1[q1[head] as int] + 1 by {
            if head < q0.len() {
                assert(d0[q0[h0] as int] <= d0[q0[head] as int]);
                if i < q0.len() {
                    assert(d0[q0[i] as int] <= d0[q0[h0] as int] + 1);
                }
            }
        }
    }
    assert(d0[q0[h0] as int] <= h0);
    assert forall|i: int| 0 <= i < q1.len() implies d1[#[trigger] q1[i] as int] <= i by {
        if i < q0.len() {
            assert(d0[q0[i] as int] <= i);
        }
    }
}

proof fn lemma_step_dist(adj: Seq<Seq<u32>>, s: int, q0: Seq<u32>, h0: int, d0: Seq<u32>, q1: Seq<u32>, d1: Seq<u32>)
    requires
        search_state(adj, s, q0, h0, d0),
        h0 < q0.len(),
        step_effect(adj, q0, h0, d0, q1, d1),
    ensures
        distances_exact(adj, s, d1),
{
    let n = adj.len();
    let vis0 = labeled(d0);
    let u = q0[h0];
    let du = d0[u as int];
    let new = fresh(adj[u as int], vis0);
    lemma_fresh_props(adj[u as int], vis0);
    assert(q0.contains(u)) by {
        assert(q0[h0] == u);
    }
    assert(d0[u as int] != u32::MAX);
    assert forall|v: int| 0 <= v < n && #[trigger] d1[v] != u32::MAX implies within(adj, s, v, d1[v] as int) by {
        if new.contains(v as u32) {
            assert(within(adj, s, u as int, du as int));
            let p = choose|p: Seq<int>| #[trigger] is_walk(adj, p) && p[0] == s && p.last() == u as int && p.len() <= du + 1;
            let p2 = p.push(v);
            assert(adj[u as int].contains(v as u32));
            assert forall|i: int| 0 <= i < p2.len() - 1 implies adjacent(adj, #[trigger] p2[i], p2[i + 1]) by {
                if i < p.len() - 1 {
                    assert(p2[i] == p[i] && p2[i + 1] == p[i + 1]);
                }
            }
            assert(is_walk(adj, p2));
        }
    }
    assert forall|v: int| 0 <= v < n && #[trigger] d1[v] != u32::MAX implies !within(adj, s, v, d1[v] - 1) by {
        if new.contains(v as u32) {
            if within(adj, s, v, du as int) {
                let p = choose|p: Seq<int>| #[trigger] is_walk(adj, p) && p[0] == s && p.last() == v && p.len() <= du + 1;
                assert(!vis0[v]);
                lemma_unreached_far(adj, q0, h0, d0, s, p);
            }
        }
    }
}

/// Processing the front vertex keeps the search state, and the search
/// makes progress.
#[verifier::rlimit(40)]
proof fn lemma_search_step(
    adj: Seq<Seq<u32>>,
    s: int,
    q0: Seq<u32>,
    h0: int,
    d0: Seq<u32>,
    q1: Seq<u32>,
    d1: Seq<u32>,
)
    requires
        search_state(adj, s, q0, h0, d0),
        h0 < q0.len(),
        step_effect(adj, q0, h0, d0, q1, d1),
    ensures
        search_state(adj, s, q1, h0 + 1, d1),
        unvisited_count(labeled(d1)) < unvisited_count(labeled(d0)) || (unvisited_count(labeled(d1)) == unvisited_count(labeled(d0)) && q1.len() - (h0 + 1) < q0.len() - h0),
{
    let frontier = q0.subrange(h0, q0.len() as int);
    let vis0 = labeled(d0);
    let u = q0[h0];
    let new = fresh(adj[u as int], vis0);
    lemma_step_queue(adj, s, q0, h0, d0, q1, d1);
    lemma_step_order(q0, h0, d0, q1, d1);
    lemma_step_dist(adj, s, q0, h0, d0, q1, d1);
    assert(frontier[0] == u);
    lemma_step_state(adj, frontier, vis0, false);
    lemma_fresh_props(adj[u as int], vis0);
    assert(discovered(adj, frontier, vis0, false) == new);
    assert(labeled(d1) =~= mark(vis0, new));
    assert(q1.subrange(h0 + 1, q1.len() as int) =~= rest_of(frontier, false) + new);
    if new.len() > 0 {
        assert(new.contains(new[0]));
        lemma_unvisited_decreases(vis0, mark(vis0, new), new[0] as int);
    } else {
        lemma_unvisited_mono(vis0, mark(vis0, new));
        assert(mark(vis0, new) =~= vis0);
    }
}

/// Compute unweighted shortest-path distances from `source`: entry `v` is
/// `Some(d)` when the fewest edges on a walk from `source` to `v` is `d`, and
/// `None` when `v` is unreachable (every entry when `source` is out of range).
pub fn shortest_path_lengths<G: Graph>(graph: &G, source: u32) -> (r: Vec<Option<u32>>)
    requires
        graph.inv(),
    ensures
        r@.len() == graph.adj().len(),
        forall|v: int|
            0 <= v < graph.adj().len() ==> match #[trigger] r@[v] {
                Some(d) => is_distance(graph.adj(), source as int, v, d as int),
                None => !reachable(graph.adj(), source as int, v),
            },
{
    let ghost adj = graph.adj();
    proof {
        graph.lemma_inv();
    }
    let n = graph.nv();
    let ghost s = source as int;
    if !graph.has_vertex(source) {
        let mut none: Vec<Option<u32>> = Vec::new();
        let mut i: usize = 0;
        while i < n
            invariant
                i <= n,
                n == adj.len(),
                none@.len() == i,
                forall|v: int| 0 <= v < i ==> #[trigger] none@[v] == None::<u32>,
            decreases n - i,
        {
            none.push(None);
            i += 1;
        }
        proof {
            assert forall|v: int| 0 <= v < n implies !reachable(adj, s, v) by {
                if reachable(adj, s, v) {
                    let p = choose|p: Seq<int>| #[trigger] is_walk(adj, p) && p[0] == s && p.last() == v;
                    assert(0 <= p[0] < adj.len());
                }
            }
        }
        return none;
    }
    let mut dist: Vec<u32> = vec![u32::MAX; n];
    dist.set(source as usize, 0);
    let mut queue: Vec<u32> = Vec::new();
    let mut head: usize = 0;
    queue.push(source);
    proof {
        let f = queue@.subrange(0, 1);
        assert(f =~= seq![source]);
        assert(closed_outside(adj, f, labeled(dist@))) by {
            assert forall|w: int, x: u32|
                0 <= w < adj.len() && labeled(dist@)[w] && !f.contains(w as u32) && #[trigger] adj[w].contains(x) implies labeled(dist@)[x as int] by {
                assert(w == s);
                assert(f[0] == source);
            }
        }
        lemma_reachable_refl(adj, s);
        assert forall|v: int| 0 <= v < n implies (#[trigger] dist@[v] != u32::MAX <==> queue@.contains(v as u32)) by {
            assert(queue@[0] == source);
            if queue@.contains(v as u32) {
                let i = choose|i: int| 0 <= i < queue@.len() && queue@[i] == v as u32;
                assert(i == 0);
            }
        }
        assert(is_walk(adj, seq![s]));
        assert(within(adj, s, s, 0));
        assert forall|v: int| 0 <= v < adj.len() && #[trigger] dist@[v] != u32::MAX implies !within(adj, s, v, dist@[v] - 1) by {
            if within(adj, s, v, dist@[v] - 1) {
                let p = choose|p: Seq<int>| #[trigger] is_walk(adj, p) && p[0] == s && p.last() == v && p.len() <= dist@[v] - 1 + 1;
            }
        }
    }
    while head < queue.len()
        invariant
            n == adj.len(),
            graph.inv(),
            graph.adj() == adj,
            s == source as int,
            search_state(adj, s, queue@, head as int, dist@),
        decreases unvisited_count(labeled(dist@)), queue@.len() - head,
    {
        let ghost frontier = queue@.subrange(head as int, queue@.len() as int);
        let ghost q0 = queue@;
        let ghost d0 = dist@;
        let ghost vis0 = labeled(dist@);
        let ghost h0 = head as int;
        let u = queue[head];
        head = head + 1;
        proof {
            assert(frontier[0] == u);
            lemma_distinct_below(q0, n as nat);
            assert(d0[u as int] <= h0);
        }
        let next_d = dist[u as usize] + 1;
        let nbrs = graph.neighbors(u);
        let mut j: usize = 0;
        proof {
            assert(nbrs@.take(0) =~= Seq::<u32>::empty());
        }
        while j < nbrs.len()
            invariant
                j <= nbrs@.len(),
                nbrs@ == adj[u as int],
                valid_adjacency(adj),
                (u as int) < adj.len(),
                dist@.len() == adj.len(),
                d0.len() == adj.len(),
                vis0 == labeled(d0),
                queue@ == q0 + fresh(nbrs@.take(j as int), vis0),
                forall|v: int|
                    0 <= v < adj.len() ==> #[trigger] dist@[v] == if fresh(nbrs@.take(j as int), vis0).contains(v as u32) {
                        next_d
                    } else {
                        d0[v]
                    },
            decreases nbrs@.len() - j,
        {
            let v = nbrs[j];
            proof {
                assert(adj[u as int].contains(v));
                lemma_fresh_props(nbrs@.take(j as int), vis0);
                if nbrs@.take(j as int).contains(v) {
                    let i = choose|i: int| 0 <= i < j && nbrs@.take(j as int)[i] == v;
                    assert(nbrs@[i] < nbrs@[j as int]);
                }
                lemma_fresh_take(nbrs@, vis0, j as int);
                lemma_fresh_props(nbrs@.take(j + 1), vis0);
            }
            if dist[v as usize] == u32::MAX {
                dist.set(v as usize, next_d);
                queue.push(v);
            }
            proof {
                let f1 = fresh(nbrs@.take(j + 1), vis0);
                assert(queue@ =~= q0 + f1);
            }
            j += 1;
        }
        proof {
            assert(nbrs@.take(j as int) =~= nbrs@);
            assert forall|v: int| 0 <= v < d0.len() implies #[trigger] dist@[v] == if fresh(adj[u as int], vis0).contains(v as u32) {
                (d0[u as int] + 1) as u32
            } else {
                d0[v]
            } by {}
            let new = fresh(adj[u as int], vis0);
            if new.len() > 0 {
                lemma_fresh_props(adj[u as int], vis0);
                assert(new.contains(new[0]));
                assert(!q0.contains(new[0]));
                if q0.len() == n {
                    assert(q0.contains(new[0]));
                }
            }
            lemma_search_step(adj, s, q0, h0, d0, queue@, dist@);
        }
    }
    // every vertex reachable from the source has been reached
    proof {
        assert forall|v: int| 0 <= v < n && reachable(adj, s, v) implies #[trigger] dist@[v] != u32::MAX by {
            if dist@[v] == u32::MAX {
                let p = choose|p: Seq<int>| #[trigger] is_walk(adj, p) && p[0] == s && p.last() == v;
                assert(labeled(dist@)[s]);
                lemma_frontier_cut(adj, queue@.subrange(head as int, queue@.len() as int), labeled(dist@), p);
            }
        }
    }
    let mut result: Vec<Option<u32>> = Vec::new();
    let mut i: usize = 0;
    while i < n
        invariant
            i <= n,
            n == adj.len(),
            dist@.len() == n,
            result@.len() == i,
            forall|v: int|
                0 <= v < i ==> #[trigger] result@[v] == if dist@[v] == u32::MAX {
                    None
                } else {
                    Some(dist@[v])
                },
        decreases n - i,
    {
        let d = dist[i];
        if d == u32::MAX {
            result.push(None);
        } else {
            result.push(Some(d));
        }
        i += 1;
    }
    proof {
        assert forall|v: int| 0 <= v < n implies match #[trigger] result@[v] {
            Some(d) => is_distance(adj, s, v, d as int),
            None => !reachable(adj, s, v),
        } by {
            if dist@[v] != u32::MAX {
            }
        }
    }
    result
}

} // verus!

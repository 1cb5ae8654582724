//! Distances along walks, and the order of a breadth-first traversal by
//! distance from its source.
use vstd::prelude::*;
use crate::algo::traversal::{
    discovered, is_distance, is_walk, lemma_fresh_props, lemma_order_from, lemma_reachable_refl,
    lemma_reachable_step, lemma_step_state, lemma_unvisited_decreases, lemma_unvisited_mono, mark,
    next_vertex, only_visited, order_from, reachable, rest_of, traversal_order, traversal_state,
    unvisited_count, within, closed_outside,
};
use crate::model::{adjacent, valid_adjacency};

verus! {

/// The number of edges on a shortest walk from `s` to `t` (meaningful when
/// `t` is reachable from `s`).
pub open spec fn distance(adj: Seq<Seq<u32>>, s: int, t: int) -> int {
    choose|d: int| is_distance(adj, s, t, d)
}

/// A walk within `d` edges is within any larger bound.
proof fn lemma_within_mono(adj: Seq<Seq<u32>>, s: int, t: int, d: int, e: int)
    requires
        within(adj, s, t, d),
        d <= e,
    ensures
        within(adj, s, t, e),
{
    let p = choose|p: Seq<int>| #[trigger] is_walk(adj, p) && p[0] == s && p.last() == t && p.len() <= d + 1;
    assert(is_walk(adj, p) && p[0] == s && p.last() == t && p.len() <= e + 1);
}

/// Below some bound within which `t` lies, there is a least one.
proof fn lemma_least_within(adj: Seq<Seq<u32>>, s: int, t: int, k: int)
    requires
        within(adj, s, t, k),
    ensures
        exists|d: int| 0 <= d <= k && is_distance(adj, s, t, d),
    decreases k,
{
    if within(adj, s, t, k - 1) && k > 0 {
        lemma_least_within(adj, s, t, k - 1);
        let d = choose|d: int| 0 <= d <= k - 1 && is_distance(adj, s, t, d);
        assert(0 <= d <= k && is_distance(adj, s, t, d));
    } else if k <= 0 {
        let p = choose|p: Seq<int>| #[trigger] is_walk(adj, p) && p[0] == s && p.last() == t && p.len() <= k + 1;
        assert(k == 0);
        if within(adj, s, t, -1) {
            let q = choose|q: Seq<int>| #[trigger] is_walk(adj, q) && q[0] == s && q.last() == t && q.len() <= 0;
        }
        assert(is_distance(adj, s, t, 0));
    } else {
        assert(is_distance(adj, s, t, k));
    }
}

/// A reachable vertex is at a distance, the only one.
pub proof fn lemma_distance(adj: Seq<Seq<u32>>, s: int, t: int)
    requires
        reachable(adj, s, t),
    ensures
        distance(adj, s, t) >= 0,
        is_distance(adj, s, t, distance(adj, s, t)),
        forall|d: int| #[trigger] is_distance(adj, s, t, d) ==> d == distance(adj, s, t),
        forall|d: int| #[trigger] within(adj, s, t, d) <==> d >= distance(adj, s, t),
{
    let p = choose|p: Seq<int>| #[trigger] is_walk(adj, p) && p[0] == s && p.last() == t;
    assert(within(adj, s, t, p.len() - 1));
    lemma_least_within(adj, s, t, p.len() - 1);
    let d0 = choose|d: int| 0 <= d <= p.len() - 1 && is_distance(adj, s, t, d);
    let d = distance(adj, s, t);
    assert(is_distance(adj, s, t, d));
    assert forall|e: int| #[trigger] within(adj, s, t, e) <==> e >= d by {
        if e >= d {
            lemma_within_mono(adj, s, t, d, e);
        }
        if within(adj, s, t, e) && e < d {
            lemma_within_mono(adj, s, t, e, d - 1);
        }
    }
    if d < 0 {
        assert(within(adj, s, t, d));
        let q = choose|q: Seq<int>| #[trigger] is_walk(adj, q) && q[0] == s && q.last() == t && q.len() <= d + 1;
    }
}

/// The source is at distance zero, and only the source.
pub proof fn lemma_distance_zero(adj: Seq<Seq<u32>>, s: int, t: int)
    requires
        reachable(adj, s, t),
    ensures
        distance(adj, s, t) == 0 <==> t == s,
{
    lemma_distance(adj, s, t);
    if t == s {
        let p = seq![s];
        assert(p.last() == t);
        assert(is_walk(adj, p));
        assert(within(adj, s, t, 0));
    }
    if distance(adj, s, t) == 0 {
        assert(within(adj, s, t, 0));
        let p = choose|p: Seq<int>| #[trigger] is_walk(adj, p) && p[0] == s && p.last() == t && p.len() <= 1;
        assert(p.last() == p[0]);
    }
}

/// A neighbor of a reachable vertex is reachable, at most one edge further.
pub proof fn lemma_distance_step(adj: Seq<Seq<u32>>, s: int, u: int, v: int)
    requires
        reachable(adj, s, u),
        adjacent(adj, u, v),
    ensures
        reachable(adj, s, v),
        distance(adj, s, v) <= distance(adj, s, u) + 1,
{
    lemma_reachable_step(adj, s, u, v);
    lemma_distance(adj, s, u);
    lemma_distance(adj, s, v);
    let du = distance(adj, s, u);
    assert(within(adj, s, u, du));
    let p = choose|p: Seq<int>| #[trigger] is_walk(adj, p) && p[0] == s && p.last() == u && p.len() <= du + 1;
    let q = p.push(v);
    assert forall|i: int| 0 <= i < q.len() - 1 implies adjacent(adj, #[trigger] q[i], q[i + 1]) by {
        if i < p.len() - 1 {
            assert(q[i] == p[i] && q[i + 1] == p[i + 1]);
        }
    }
    assert(is_walk(adj, q) && q[0] == s && q.last() == v && q.len() <= du + 2);
    assert(within(adj, s, v, du + 1));
}

/// A reachable vertex other than the source has a neighbor one edge closer.
pub proof fn lemma_distance_pred(adj: Seq<Seq<u32>>, s: int, v: int)
    requires
        valid_adjacency(adj),
        reachable(adj, s, v),
        distance(adj, s, v) > 0,
    ensures
        exists|x: int| #![trigger adjacent(adj, x, v)]
            adjacent(adj, x, v) && reachable(adj, s, x) && distance(adj, s, x) == distance(adj, s, v) - 1,
{
    lemma_distance(adj, s, v);
    let dv = distance(adj, s, v);
    assert(within(adj, s, v, dv));
    let p = choose|p: Seq<int>| #[trigger] is_walk(adj, p) && p[0] == s && p.last() == v && p.len() <= dv + 1;
    assert(!within(adj, s, v, dv - 1));
    assert(p.len() == dv + 1);
    let x = p[p.len() - 2];
    let q = p.take(p.len() - 1);
    assert forall|i: int| 0 <= i < q.len() - 1 implies adjacent(adj, #[trigger] q[i], q[i + 1]) by {
        assert(q[i] == p[i] && q[i + 1] == p[i + 1]);
    }
    assert forall|i: int| 0 <= i < q.len() implies 0 <= #[trigger] q[i] < adj.len() by {
        assert(q[i] == p[i]);
    }
    assert(is_walk(adj, q) && q[0] == s && q.last() == x);
    assert(within(adj, s, x, dv - 1));
    assert(adjacent(adj, x, v));
    lemma_distance_step(adj, s, x, v);
    lemma_distance(adj, s, x);
}

/// A breadth-first state seen from `s`: a consistent traversal state whose
/// visited vertices are reachable from `s`, whose frontier is in
/// nondecreasing distance and spans at most two consecutive distances, and
/// in which every reachable vertex not yet visited lies farther than the
/// front of the frontier.
pub open spec fn layered(adj: Seq<Seq<u32>>, s: int, f: Seq<u32>, vis: Seq<bool>) -> bool {
    &&& traversal_state(adj, f, vis)
    &&& forall|v: int| 0 <= v < adj.len() && #[trigger] vis[v] ==> reachable(adj, s, v)
    &&& forall|i: int, j: int|
        0 <= i <= j < f.len() ==> distance(adj, s, #[trigger] f[i] as int) <= distance(adj, s, #[trigger] f[j] as int)
    &&& f.len() > 0 ==> forall|i: int|
        0 <= i < f.len() ==> distance(adj, s, #[trigger] f[i] as int) <= distance(adj, s, f[0] as int) + 1
    &&& f.len() > 0 ==> forall|v: int|
        0 <= v < adj.len() && !#[trigger] vis[v] && reachable(adj, s, v) ==> distance(adj, s, v) > distance(
            adj,
            s,
            f[0] as int,
        )
}

/// One breadth-first step keeps the state layered, and the front of the
/// frontier does not get closer.
#[verifier::spinoff_prover]
#[verifier::rlimit(80)]
proof fn lemma_layered_step(adj: Seq<Seq<u32>>, s: int, f: Seq<u32>, vis: Seq<bool>)
    requires
        layered(adj, s, f, vis),
        f.len() > 0,
    ensures
        ({
            let nf = rest_of(f, false) + discovered(adj, f, vis, false);
            let nv = mark(vis, discovered(adj, f, vis, false));
            &&& layered(adj, s, nf, nv)
            &&& nf.len() > 0 ==> distance(adj, s, nf[0] as int) >= distance(adj, s, f[0] as int)
        }),
{
    let u = f[0];
    let rest = rest_of(f, false);
    let new = discovered(adj, f, vis, false);
    let nf = rest + new;
    let nv = mark(vis, new);
    lemma_step_state(adj, f, vis, false);
    assert(next_vertex(f, false) == u);
    let du = distance(adj, s, u as int);
    assert(vis[u as int]);
    assert(reachable(adj, s, u as int));
    lemma_distance(adj, s, u as int);
    assert forall|v: u32| #[trigger] new.contains(v) implies reachable(adj, s, v as int) && distance(adj, s, v as int)
        == du + 1 by {
        assert(adj[u as int].contains(v));
        assert(adjacent(adj, u as int, v as int));
        lemma_distance_step(adj, s, u as int, v as int);
    }
    assert forall|v: int| 0 <= v < adj.len() && #[trigger] nv[v] implies reachable(adj, s, v) by {
        if !vis[v] {
            assert(new.contains(v as u32));
        }
    }
    assert forall|i: int| 0 <= i < nf.len() implies du <= distance(adj, s, #[trigger] nf[i] as int) <= du + 1 by {
        if i < rest.len() {
            assert(nf[i] == f[i + 1]);
        } else {
            assert(nf[i] == new[i - rest.len()]);
            assert(new.contains(new[i - rest.len()]));
        }
    }
    assert forall|i: int, j: int| 0 <= i <= j < nf.len() implies distance(adj, s, #[trigger] nf[i] as int) <= distance(
        adj,
        s,
        #[trigger] nf[j] as int,
    ) by {
        if j < rest.len() {
            assert(nf[i] == f[i + 1] && nf[j] == f[j + 1]);
        } else {
            assert(nf[j] == new[j - rest.len()]);
            assert(new.contains(new[j - rest.len()]));
            assert(du <= distance(adj, s, nf[i] as int) <= du + 1);
        }
    }
    if nf.len() > 0 {
        let d0 = distance(adj, s, nf[0] as int);
        assert(du <= d0 <= du + 1);
        assert forall|i: int| 0 <= i < nf.len() implies distance(adj, s, #[trigger] nf[i] as int) <= d0 + 1 by {
            assert(du <= distance(adj, s, nf[i] as int) <= du + 1);
        }
        assert forall|v: int| 0 <= v < adj.len() && !#[trigger] nv[v] && reachable(adj, s, v) implies distance(
            adj,
            s,
            v,
        ) > d0 by {
            assert(!vis[v]);
            assert(distance(adj, s, v) > du);
            if d0 == du + 1 && distance(adj, s, v) == du + 1 {
                lemma_distance_pred(adj, s, v);
                let x = choose|x: int| #![trigger adjacent(adj, x, v)]
                    adjacent(adj, x, v) && reachable(adj, s, x) && distance(adj, s, x) == distance(adj, s, v) - 1;
                assert(vis[x]);
                assert(adj[x].contains(v as u32));
                if x == u {
                    assert(new.contains(v as u32));
                } else if f.contains(x as u32) {
                    assert(rest.contains(x as u32));
                    assert(nf.contains(x as u32));
                    let k = choose|k: int| 0 <= k < nf.len() && nf[k] == x as u32;
                    assert(distance(adj, s, nf[0] as int) <= distance(adj, s, nf[k] as int));
                } else {
                    assert(closed_outside(adj, f, vis));
                    assert(vis[v]);
                }
            }
        }
    }
}

/// A breadth-first traversal from a layered state visits vertices in
/// nondecreasing distance, none closer than the front of the frontier.
proof fn lemma_layered_order(adj: Seq<Seq<u32>>, s: int, f: Seq<u32>, vis: Seq<bool>)
    requires
        layered(adj, s, f, vis),
    ensures
        ({
            let o = traversal_order(adj, f, vis, false);
            &&& forall|i: int, j: int|
                0 <= i <= j < o.len() ==> distance(adj, s, #[trigger] o[i] as int) <= distance(adj, s, #[trigger] o[j] as int)
            &&& f.len() > 0 ==> forall|i: int|
                0 <= i < o.len() ==> distance(adj, s, #[trigger] o[i] as int) >= distance(adj, s, f[0] as int)
        }),
    decreases unvisited_count(vis), f.len(),
{
    if f.len() > 0 {
        let u = f[0];
        let new = discovered(adj, f, vis, false);
        let nf = rest_of(f, false) + new;
        let nv = mark(vis, new);
        lemma_fresh_props(adj[u as int], vis);
        if new.len() > 0 {
            assert(new.contains(new[0]));
            lemma_unvisited_decreases(vis, nv, new[0] as int);
        } else {
            lemma_unvisited_mono(vis, nv);
        }
        lemma_layered_step(adj, s, f, vis);
        lemma_layered_order(adj, s, nf, nv);
        let o = traversal_order(adj, f, vis, false);
        let o2 = traversal_order(adj, nf, nv, false);
        assert(next_vertex(f, false) == u);
        assert(o == seq![u] + o2);
        let du = distance(adj, s, u as int);
        assert forall|i: int| 0 <= i < o.len() implies distance(adj, s, #[trigger] o[i] as int) >= du by {
            if i > 0 {
                assert(o[i] == o2[i - 1]);
            }
        }
        assert forall|i: int, j: int| 0 <= i <= j < o.len() implies distance(adj, s, #[trigger] o[i] as int) <= distance(
            adj,
            s,
            #[trigger] o[j] as int,
        ) by {
            if i == 0 {
                assert(o[0] == u);
                assert(distance(adj, s, o[j] as int) >= du);
            } else {
                assert(o[i] == o2[i - 1] && o[j] == o2[j - 1]);
            }
        }
    }
}

/// A traversal from a vertex starts with it.
pub proof fn lemma_traversal_starts(adj: Seq<Seq<u32>>, s: int, lifo: bool)
    requires
        0 <= s < adj.len() <= u32::MAX,
    ensures
        order_from(adj, s, lifo).len() > 0,
        order_from(adj, s, lifo)[0] == s,
{
    let f = seq![s as u32];
    let vis = only_visited(adj.len(), s);
    assert(next_vertex(f, lifo) == s as u32);
    let o = traversal_order(adj, f, vis, lifo);
    assert(o == seq![s as u32] + traversal_order(
        adj,
        rest_of(f, lifo) + discovered(adj, f, vis, lifo),
        mark(vis, discovered(adj, f, vis, lifo)),
        lifo,
    ));
    assert(o[0] == s as u32);
}

/// Breadth-first search from `s` starts at `s`, visits each vertex reachable
/// from `s` exactly once and nothing else, and visits them in nondecreasing
/// distance from `s`.
pub proof fn lemma_bfs_order(adj: Seq<Seq<u32>>, s: int)
    requires
        valid_adjacency(adj),
        0 <= s < adj.len(),
    ensures
        order_from(adj, s, false).len() > 0,
        order_from(adj, s, false)[0] == s,
        order_from(adj, s, false).no_duplicates(),
        forall|v: u32| #[trigger] order_from(adj, s, false).contains(v) <==> reachable(adj, s, v as int),
        forall|i: int, j: int|
            0 <= i <= j < order_from(adj, s, false).len() ==> distance(adj, s, #[trigger] order_from(adj, s, false)[i] as int)
                <= distance(adj, s, #[trigger] order_from(adj, s, false)[j] as int),
{
    lemma_traversal_starts(adj, s, false);
    lemma_order_from(adj, s, false);
    let f = seq![s as u32];
    let vis = only_visited(adj.len(), s);
    lemma_reachable_refl(adj, s);
    lemma_distance_zero(adj, s, s);
    assert(closed_outside(adj, f, vis)) by {
        assert forall|w: int, x: u32|
            0 <= w < adj.len() && vis[w] && !f.contains(w as u32) && #[trigger] adj[w].contains(x) implies vis[x as int] by {
            assert(w == s);
            assert(f[0] == s as u32);
        }
    }
    assert(traversal_state(adj, f, vis));
    assert forall|v: int| 0 <= v < adj.len() && !#[trigger] vis[v] && reachable(adj, s, v) implies distance(adj, s, v) > distance(
        adj,
        s,
        f[0] as int,
    ) by {
        lemma_distance_zero(adj, s, v);
        lemma_distance(adj, s, v);
    }
    assert(layered(adj, s, f, vis));
    lemma_layered_order(adj, s, f, vis);
}

} // verus!

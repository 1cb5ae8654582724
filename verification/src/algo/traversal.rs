//! Walks, reachability, and the visiting order of breadth-first and
//! depth-first traversals, with the facts that tie them together.
use vstd::prelude::*;
use crate::model::{adjacent, strictly_increasing, valid_adjacency};

verus! {

/// `p` is a walk: a nonempty sequence of vertices in which consecutive
/// entries are joined by edges.
pub open spec fn is_walk(adj: Seq<Seq<u32>>, p: Seq<int>) -> bool {
    &&& p.len() > 0
    &&& forall|i: int| 0 <= i < p.len() ==> 0 <= #[trigger] p[i] < adj.len()
    &&& forall|i: int| 0 <= i < p.len() - 1 ==> adjacent(adj, #[trigger] p[i], p[i + 1])
}

/// Some walk leads from `s` to `t`.
pub open spec fn reachable(adj: Seq<Seq<u32>>, s: int, t: int) -> bool {
    exists|p: Seq<int>| #[trigger] is_walk(adj, p) && p[0] == s && p.last() == t
}

pub proof fn lemma_reachable_refl(adj: Seq<Seq<u32>>, s: int)
    requires
        0 <= s < adj.len(),
    ensures
        reachable(adj, s, s),
{
    let p = seq![s];
    assert(is_walk(adj, p));
}

/// A walk to `u` extends along the edge `(u, v)`.
pub proof fn lemma_reachable_step(adj: Seq<Seq<u32>>, s: int, u: int, v: int)
    requires
        reachable(adj, s, u),
        adjacent(adj, u, v),
    ensures
        reachable(adj, s, v),
{
    let p = choose|p: Seq<int>| #[trigger] is_walk(adj, p) && p[0] == s && p.last() == u;
    let q = p.push(v);
    assert forall|i: int| 0 <= i < q.len() - 1 implies adjacent(adj, #[trigger] q[i], q[i + 1]) by {
        if i < p.len() - 1 {
            assert(q[i] == p[i] && q[i + 1] == p[i + 1]);
        }
    }
    assert(is_walk(adj, q));
}

/// Walks compose.
pub proof fn lemma_reachable_trans(adj: Seq<Seq<u32>>, a: int, b: int, c: int)
    requires
        reachable(adj, a, b),
        reachable(adj, b, c),
    ensures
        reachable(adj, a, c),
{
    let p = choose|p: Seq<int>| #[trigger] is_walk(adj, p) && p[0] == a && p.last() == b;
    let q = choose|q: Seq<int>| #[trigger] is_walk(adj, q) && q[0] == b && q.last() == c;
    let r = p + q.drop_first();
    assert forall|i: int| 0 <= i < r.len() implies 0 <= #[trigger] r[i] < adj.len() by {
        if i >= p.len() {
            assert(r[i] == q[i - p.len() + 1]);
        }
    }
    assert forall|i: int| 0 <= i < r.len() - 1 implies adjacent(adj, #[trigger] r[i], r[i + 1]) by {
        if i < p.len() - 1 {
            assert(r[i] == p[i] && r[i + 1] == p[i + 1]);
        } else if i == p.len() - 1 {
            assert(r[i] == q[0]);
            assert(r[i + 1] == q[1]);
        } else {
            assert(r[i] == q[i - p.len() + 1]);
            assert(r[i + 1] == q[i - p.len() + 2]);
        }
    }
    if q.len() == 1 {
        assert(r =~= p);
    }
    assert(is_walk(adj, r));
}

/// In a symmetric graph walks can be reversed.
pub proof fn lemma_reachable_symm(adj: Seq<Seq<u32>>, a: int, b: int)
    requires
        valid_adjacency(adj),
        reachable(adj, a, b),
    ensures
        reachable(adj, b, a),
{
    let p = choose|p: Seq<int>| #[trigger] is_walk(adj, p) && p[0] == a && p.last() == b;
    let r = p.reverse();
    assert forall|i: int| 0 <= i < r.len() implies 0 <= #[trigger] r[i] < adj.len() by {
        assert(r[i] == p[p.len() - 1 - i]);
    }
    assert forall|i: int| 0 <= i < r.len() - 1 implies adjacent(adj, #[trigger] r[i], r[i + 1]) by {
        let j = p.len() - 2 - i;
        assert(r[i] == p[j + 1] && r[i + 1] == p[j]);
        assert(adjacent(adj, p[j], p[j + 1]));
        assert(adj[p[j]].contains(p[j + 1] as u32));
    }
    assert(is_walk(adj, r));
}

/// The entries of `list`, in order, that are vertices not yet visited.
pub open spec fn fresh(list: Seq<u32>, visited: Seq<bool>) -> Seq<u32>
    decreases list.len(),
{
    if list.len() == 0 {
        Seq::empty()
    } else {
        let rest = fresh(list.drop_last(), visited);
        let v = list.last();
        if (v as int) < visited.len() && !visited[v as int] {
            rest.push(v)
        } else {
            rest
        }
    }
}

/// Number of vertices not yet visited.
pub open spec fn unvisited_count(visited: Seq<bool>) -> nat
    decreases visited.len(),
{
    if visited.len() == 0 {
        0
    } else {
        unvisited_count(visited.drop_last()) + if visited.last() {
            0nat
        } else {
            1nat
        }
    }
}

/// `visited` with the vertices of `new` marked.
pub open spec fn mark(visited: Seq<bool>, new: Seq<u32>) -> Seq<bool> {
    Seq::new(visited.len(), |w: int| visited[w] || new.contains(w as u32))
}

/// The vertex a traversal visits next: the front of the queue, or the top
/// of the stack (`lifo`).
pub open spec fn next_vertex(frontier: Seq<u32>, lifo: bool) -> u32 {
    if lifo {
        frontier.last()
    } else {
        frontier[0]
    }
}

/// The frontier without its next vertex.
pub open spec fn rest_of(frontier: Seq<u32>, lifo: bool) -> Seq<u32> {
    if lifo {
        frontier.drop_last()
    } else {
        frontier.drop_first()
    }
}

/// The neighbors of the next vertex that are not yet visited, in the order in
/// which they join the frontier: ascending for a queue, descending for a
/// stack (so that the smallest is on top).
pub open spec fn discovered(adj: Seq<Seq<u32>>, frontier: Seq<u32>, visited: Seq<bool>, lifo: bool) -> Seq<u32> {
    let u = next_vertex(frontier, lifo);
    if lifo {
        fresh(adj[u as int].reverse(), visited)
    } else {
        fresh(adj[u as int], visited)
    }
}

/// A list of booleans with one more entry set has fewer unset entries.
pub proof fn lemma_unvisited_decreases(a: Seq<bool>, b: Seq<bool>, k: int)
    requires
        a.len() == b.len(),
        forall|i: int| 0 <= i < a.len() && #[trigger] a[i] ==> b[i],
        0 <= k < a.len(),
        !a[k],
        b[k],
    ensures
        unvisited_count(b) < unvisited_count(a),
    decreases a.len(),
{
    lemma_unvisited_mono(a.drop_last(), b.drop_last());
    if k < a.len() - 1 {
        lemma_unvisited_decreases(a.drop_last(), b.drop_last(), k);
    }
}

pub proof fn lemma_unvisited_mono(a: Seq<bool>, b: Seq<bool>)
    requires
        a.len() == b.len(),
        forall|i: int| 0 <= i < a.len() && #[trigger] a[i] ==> b[i],
    ensures
        unvisited_count(b) <= unvisited_count(a),
    decreases a.len(),
{
    if a.len() > 0 {
        lemma_unvisited_mono(a.drop_last(), b.drop_last());
    }
}

pub proof fn lemma_fresh_props(list: Seq<u32>, visited: Seq<bool>)
    ensures
        forall|v: u32| #[trigger] fresh(list, visited).contains(v) <==> (list.contains(v) && (v as int)
            < visited.len() && !visited[v as int]),
        fresh(list, visited).len() <= list.len(),
    decreases list.len(),
{
    if list.len() > 0 {
        let pre = list.drop_last();
        lemma_fresh_props(pre, visited);
        let r = fresh(list, visited);
        let rest = fresh(pre, visited);
        let x = list.last();
        assert forall|v: u32| #[trigger] r.contains(v) <==> (list.contains(v) && (v as int) < visited.len()
            && !visited[v as int]) by {
            if list.contains(v) {
                let i = choose|i: int| 0 <= i < list.len() && list[i] == v;
                if i < list.len() - 1 {
                    assert(pre[i] == v);
                }
            }
            if pre.contains(v) {
                let i = choose|i: int| 0 <= i < pre.len() && pre[i] == v;
                assert(list[i] == v);
            }
            if (x as int) < visited.len() && !visited[x as int] {
                assert(r == rest.push(x));
                assert(r[rest.len() as int] == x);
                if r.contains(v) && v != x {
                    let i = choose|i: int| 0 <= i < r.len() && r[i] == v;
                    assert(rest[i] == v);
                }
                if rest.contains(v) {
                    let i = choose|i: int| 0 <= i < rest.len() && rest[i] == v;
                    assert(r[i] == v);
                }
            }
        }
    }
}

/// `fresh` of a list without repeats has no repeats.
pub proof fn lemma_fresh_no_dup(list: Seq<u32>, visited: Seq<bool>)
    requires
        list.no_duplicates(),
    ensures
        fresh(list, visited).no_duplicates(),
    decreases list.len(),
{
    if list.len() > 0 {
        let pre = list.drop_last();
        lemma_fresh_no_dup(pre, visited);
        lemma_fresh_props(pre, visited);
        let rest = fresh(pre, visited);
        let x = list.last();
        if (x as int) < visited.len() && !visited[x as int] {
            assert(!pre.contains(x)) by {
                if pre.contains(x) {
                    let i = choose|i: int| 0 <= i < pre.len() && pre[i] == x;
                    assert(list[i] == list[list.len() - 1]);
                }
            }
            assert(!rest.contains(x));
            let r = rest.push(x);
            assert forall|i: int, j: int| 0 <= i < r.len() && 0 <= j < r.len() && i != j implies r[i] != r[j] by {
                if j == rest.len() {
                    assert(rest.contains(rest[i]));
                } else if i == rest.len() {
                    assert(rest.contains(rest[j]));
                }
            }
        }
    }
}

/// Taking one more entry of `list` extends `fresh` by that entry when it is
/// a vertex not yet visited.
pub proof fn lemma_fresh_take(list: Seq<u32>, visited: Seq<bool>, j: int)
    requires
        0 <= j < list.len(),
    ensures
        fresh(list.take(j + 1), visited) == if (list[j] as int) < visited.len() && !visited[list[j] as int] {
            fresh(list.take(j), visited).push(list[j])
        } else {
            fresh(list.take(j), visited)
        },
{
    assert(list.take(j + 1).drop_last() =~= list.take(j));
}

/// The order in which a traversal from the given frontier and visited marks
/// visits the vertices: take the next vertex, then continue with the rest
/// of the frontier followed by its newly discovered neighbors, now marked.
pub open spec fn traversal_order(adj: Seq<Seq<u32>>, frontier: Seq<u32>, visited: Seq<bool>, lifo: bool) -> Seq<
    u32,
>
    decreases unvisited_count(visited), frontier.len(),
{
    if frontier.len() == 0 {
        Seq::empty()
    } else {
        let new = discovered(adj, frontier, visited, lifo);
        let u = next_vertex(frontier, lifo);
        proof {
            let list = if lifo {
                adj[u as int].reverse()
            } else {
                adj[u as int]
            };
            lemma_fresh_props(list, visited);
            if new.len() > 0 {
                assert(new.contains(new[0]));
                lemma_unvisited_decreases(visited, mark(visited, new), new[0] as int);
            } else {
                lemma_unvisited_mono(visited, mark(visited, new));
            }
        }
        seq![u] + traversal_order(adj, rest_of(frontier, lifo) + new, mark(visited, new), lifo)
    }
}

/// Every visited vertex that has left the frontier has all its neighbors visited.
pub open spec fn closed_outside(adj: Seq<Seq<u32>>, frontier: Seq<u32>, visited: Seq<bool>) -> bool {
    forall|w: int, x: u32|
        0 <= w < adj.len() && visited[w] && !frontier.contains(w as u32) && #[trigger] adj[w].contains(x)
            ==> visited[x as int]
}

/// A consistent traversal state: marks for every vertex; the frontier holds
/// distinct visited vertices; visited vertices off the frontier are closed.
pub open spec fn traversal_state(adj: Seq<Seq<u32>>, frontier: Seq<u32>, visited: Seq<bool>) -> bool {
    &&& valid_adjacency(adj)
    &&& visited.len() == adj.len()
    &&& frontier.no_duplicates()
    &&& forall|i: int| 0 <= i < frontier.len() ==> (#[trigger] frontier[i] as int) < adj.len() && visited[frontier[i] as int]
    &&& closed_outside(adj, frontier, visited)
}

/// A walk from a visited vertex to an unvisited one passes through the frontier.
pub proof fn lemma_frontier_cut(adj: Seq<Seq<u32>>, frontier: Seq<u32>, visited: Seq<bool>, p: Seq<int>)
    requires
        traversal_state(adj, frontier, visited),
        is_walk(adj, p),
        visited[p[0]],
        !visited[p.last()],
    ensures
        exists|q: u32| #[trigger] frontier.contains(q) && reachable(adj, q as int, p.last()),
    decreases p.len(),
{
    if frontier.contains(p[0] as u32) {
        assert(reachable(adj, (p[0] as u32) as int, p.last())) by {
            assert(is_walk(adj, p));
        }
    } else {
        assert(p.len() >= 2);
        assert(adjacent(adj, p[0], p[1]));
        assert(adj[p[0]].contains(p[1] as u32));
        let q = p.drop_first();
        assert forall|i: int| 0 <= i < q.len() - 1 implies adjacent(adj, #[trigger] q[i], q[i + 1]) by {
            assert(q[i] == p[i + 1] && q[i + 1] == p[i + 2]);
            assert(adjacent(adj, p[i + 1], p[i + 2]));
        }
        assert forall|i: int| 0 <= i < q.len() implies 0 <= #[trigger] q[i] < adj.len() by {
            assert(q[i] == p[i + 1]);
        }
        lemma_frontier_cut(adj, frontier, visited, q);
    }
}

/// One step of a traversal keeps the state consistent; the new frontier is
/// the old one without the next vertex plus its unvisited neighbors.
pub proof fn lemma_step_state(adj: Seq<Seq<u32>>, frontier: Seq<u32>, visited: Seq<bool>, lifo: bool)
    requires
    traversal_state(adj, frontier, visited),
    frontier.len() > 0,
    ensures
    ({
        let u = next_vertex(frontier, lifo);
        let rest = rest_of(frontier, lifo);
        let new = discovered(adj, frontier, visited, lifo);
        &&& traversal_state(adj, rest + new, mark(visited, new))
        &&& frontier.contains(u)
        &&& (u as int) < adj.len()
        &&& visited[u as int]
        &&& forall|v: u32| #[trigger] new.contains(v) <==> (adj[u as int].contains(v) && !visited[v as int])
        &&& forall|v: u32| #[trigger] rest.contains(v) <==> (frontier.contains(v) && v != u)
        &&& forall|v: u32| #[trigger] (rest + new).contains(v) <==> (rest.contains(v) || new.contains(v))
    }),
{
    let u = next_vertex(frontier, lifo);
    let rest = rest_of(frontier, lifo);
    let new = discovered(adj, frontier, visited, lifo);
    let nf = rest + new;
    let nv = mark(visited, new);
    let list = if lifo {
        adj[u as int].reverse()
    } else {
        adj[u as int]
    };
    assert(frontier.contains(u)) by {
        if lifo {
            assert(frontier[frontier.len() - 1] == u);
        } else {
            assert(frontier[0] == u);
        }
    }
    assert((u as int) < adj.len() && visited[u as int]);
    assert(strictly_increasing(adj[u as int]));
    assert(list.no_duplicates()) by {
        assert forall|i: int, j: int| 0 <= i < list.len() && 0 <= j < list.len() && i != j implies list[i] != list[j] by {
            if lifo {
                let a = adj[u as int];
                assert(list[i] == a[a.len() - 1 - i] && list[j] == a[a.len() - 1 - j]);
            }
        }
    }
    assert forall|v: u32| #[trigger] list.contains(v) <==> adj[u as int].contains(v) by {
        if lifo {
            let a = adj[u as int];
            if list.contains(v) {
                let i = choose|i: int| 0 <= i < list.len() && list[i] == v;
                assert(a[a.len() - 1 - i] == v);
            }
            if a.contains(v) {
                let i = choose|i: int| 0 <= i < a.len() && a[i] == v;
                assert(list[a.len() - 1 - i] == v);
            }
        }
    }
    lemma_fresh_props(list, visited);
    lemma_fresh_no_dup(list, visited);
    // the rest of the frontier: all of it but `u`
    assert forall|v: u32| #[trigger] rest.contains(v) <==> (frontier.contains(v) && v != u) by {
        if lifo {
            if rest.contains(v) {
                let i = choose|i: int| 0 <= i < rest.len() && rest[i] == v;
                assert(frontier[i] == v);
                assert(frontier[frontier.len() - 1] == u);
            }
            if frontier.contains(v) && v != u {
                let i = choose|i: int| 0 <= i < frontier.len() && frontier[i] == v;
                assert(i != frontier.len() - 1);
                assert(rest[i] == v);
            }
        } else {
            if rest.contains(v) {
                let i = choose|i: int| 0 <= i < rest.len() && rest[i] == v;
                assert(frontier[i + 1] == v);
                assert(frontier[0] == u);
            }
            if frontier.contains(v) && v != u {
                let i = choose|i: int| 0 <= i < frontier.len() && frontier[i] == v;
                assert(i != 0);
                assert(rest[i - 1] == v);
            }
        }
    }
    assert(rest.no_duplicates()) by {
        assert forall|i: int, j: int| 0 <= i < rest.len() && 0 <= j < rest.len() && i != j implies rest[i] != rest[j] by {
            if lifo {
                assert(rest[i] == frontier[i] && rest[j] == frontier[j]);
            } else {
                assert(rest[i] == frontier[i + 1] && rest[j] == frontier[j + 1]);
            }
        }
    }
    assert forall|v: u32| #[trigger] nf.contains(v) <==> (rest.contains(v) || new.contains(v)) by {
        if nf.contains(v) {
            let i = choose|i: int| 0 <= i < nf.len() && nf[i] == v;
            if i < rest.len() {
                assert(rest[i] == v);
            } else {
                assert(new[i - rest.len()] == v);
            }
        }
        if rest.contains(v) {
            let i = choose|i: int| 0 <= i < rest.len() && rest[i] == v;
            assert(nf[i] == v);
        }
        if new.contains(v) {
            let i = choose|i: int| 0 <= i < new.len() && new[i] == v;
            assert(nf[rest.len() + i] == v);
        }
    }
    // the next state is consistent
    assert(nf.no_duplicates()) by {
        assert forall|i: int, j: int| 0 <= i < nf.len() && 0 <= j < nf.len() && i != j implies nf[i] != nf[j] by {
            if i < rest.len() && j >= rest.len() {
                assert(rest.contains(nf[i]));
                assert(frontier.contains(nf[i]));
                assert(new.contains(nf[j]));
            } else if j < rest.len() && i >= rest.len() {
                assert(rest.contains(nf[j]));
                assert(frontier.contains(nf[j]));
                assert(new.contains(nf[i]));
            } else if i < rest.len() {
                assert(nf[i] == rest[i] && nf[j] == rest[j]);
            } else {
                assert(nf[i] == new[i - rest.len()] && nf[j] == new[j - rest.len()]);
            }
        }
    }
    assert forall|i: int| 0 <= i < nf.len() implies (#[trigger] nf[i] as int) < adj.len() && nv[nf[i] as int] by {
        assert(nf.contains(nf[i]));
        if rest.contains(nf[i]) {
            let k = choose|k: int| 0 <= k < frontier.len() && frontier[k] == nf[i];
        }
    }
    assert(closed_outside(adj, nf, nv)) by {
        assert forall|w: int, x: u32|
            0 <= w < adj.len() && nv[w] && !nf.contains(w as u32) && #[trigger] adj[w].contains(x) implies nv[x as int] by {
            assert(x < adj.len());
            if w == u {
                if !visited[x as int] {
                    assert(list.contains(x));
                    assert(new.contains(x));
                }
            } else if visited[w] {
                assert(!frontier.contains(w as u32));
            } else {
                assert(new.contains(w as u32));
            }
        }
    }
    assert(traversal_state(adj, nf, nv));
    assert forall|v: u32| #[trigger] new.contains(v) <==> (adj[u as int].contains(v) && !visited[v as int]) by {
        if adj[u as int].contains(v) {
            assert(v < adj.len());
        }
    }
}

/// Exactly what a traversal still visits: the frontier, and every vertex not
/// yet visited that some frontier vertex reaches; each at most once.
pub proof fn lemma_traversal_order(adj: Seq<Seq<u32>>, frontier: Seq<u32>, visited: Seq<bool>, lifo: bool)
    requires
        traversal_state(adj, frontier, visited),
    ensures
        traversal_order(adj, frontier, visited, lifo).no_duplicates(),
        forall|v: u32|
            #[trigger] traversal_order(adj, frontier, visited, lifo).contains(v) <==> (frontier.contains(v) || ((v
                as int) < adj.len() && !visited[v as int] && exists|q: u32|
                #[trigger] frontier.contains(q) && reachable(adj, q as int, v as int))),
    decreases unvisited_count(visited), frontier.len(),
{
    if frontier.len() > 0 {
        let u = next_vertex(frontier, lifo);
        let rest = rest_of(frontier, lifo);
        let new = discovered(adj, frontier, visited, lifo);
        let nf = rest + new;
        let nv = mark(visited, new);
        let list = if lifo {
            adj[u as int].reverse()
        } else {
            adj[u as int]
        };
        lemma_step_state(adj, frontier, visited, lifo);
        lemma_fresh_props(list, visited);
        assert(traversal_state(adj, nf, nv));
        if new.len() > 0 {
            assert(new.contains(new[0]));
            lemma_unvisited_decreases(visited, nv, new[0] as int);
        } else {
            lemma_unvisited_mono(visited, nv);
        }
        lemma_traversal_order(adj, nf, nv, lifo);
        let tail = traversal_order(adj, nf, nv, lifo);
        let all = traversal_order(adj, frontier, visited, lifo);
        assert(all == seq![u] + tail);
        assert(!tail.contains(u)) by {
            assert(!new.contains(u));
        }
        assert(all.no_duplicates()) by {
            assert forall|i: int, j: int| 0 <= i < all.len() && 0 <= j < all.len() && i != j implies all[i] != all[j] by {
                if i == 0 {
                    assert(tail.contains(all[j]));
                } else if j == 0 {
                    assert(tail.contains(all[i]));
                } else {
                    assert(all[i] == tail[i - 1] && all[j] == tail[j - 1]);
                }
            }
        }
        assert forall|v: u32|
            #[trigger] all.contains(v) <==> (frontier.contains(v) || ((v as int) < adj.len() && !visited[v as int]
                && exists|q: u32| #[trigger] frontier.contains(q) && reachable(adj, q as int, v as int))) by {
            assert(all.contains(v) <==> (v == u || tail.contains(v))) by {
                if all.contains(v) && v != u {
                    let i = choose|i: int| 0 <= i < all.len() && all[i] == v;
                    assert(tail[i - 1] == v);
                }
                if tail.contains(v) {
                    let i = choose|i: int| 0 <= i < tail.len() && tail[i] == v;
                    assert(all[i + 1] == v);
                }
                assert(all[0] == u);
            }
            if tail.contains(v) && !nf.contains(v) {
                let q = choose|q: u32| #[trigger] nf.contains(q) && reachable(adj, q as int, v as int);
                if new.contains(q) {
                    assert(adj[u as int].contains(q));
                    lemma_reachable_refl(adj, u as int);
                    lemma_reachable_step(adj, u as int, u as int, q as int);
                    lemma_reachable_trans(adj, u as int, q as int, v as int);
                    assert(frontier.contains(u));
                } else {
                    assert(frontier.contains(q));
                }
            }
            if new.contains(v) {
                assert(adj[u as int].contains(v));
                lemma_reachable_refl(adj, u as int);
                lemma_reachable_step(adj, u as int, u as int, v as int);
            }
            if !frontier.contains(v) && (v as int) < adj.len() && !visited[v as int] && exists|q: u32|
                #[trigger] frontier.contains(q) && reachable(adj, q as int, v as int) {
                let q = choose|q: u32| #[trigger] frontier.contains(q) && reachable(adj, q as int, v as int);
                if !nv[v as int] {
                    if q != u {
                        assert(rest.contains(q));
                        assert(nf.contains(q));
                    } else {
                        let p = choose|p: Seq<int>| #[trigger] is_walk(adj, p) && p[0] == q as int && p.last() == v as int;
                        lemma_frontier_cut(adj, nf, nv, p);
                    }
                } else {
                    assert(new.contains(v));
                }
            }
        }
    }
}


/// Marks with only `s` visited.
pub open spec fn only_visited(n: nat, s: int) -> Seq<bool> {
    Seq::new(n, |w: int| w == s)
}

/// The order of a traversal started at `s` (nothing when `s` is not a vertex).
pub open spec fn order_from(adj: Seq<Seq<u32>>, s: int, lifo: bool) -> Seq<u32> {
    if 0 <= s < adj.len() {
        traversal_order(adj, seq![s as u32], only_visited(adj.len(), s), lifo)
    } else {
        Seq::empty()
    }
}

/// A traversal from `s` visits each vertex reachable from `s` exactly once
/// and nothing else.
pub proof fn lemma_order_from(adj: Seq<Seq<u32>>, s: int, lifo: bool)
    requires
        valid_adjacency(adj),
    ensures
        order_from(adj, s, lifo).no_duplicates(),
        forall|v: u32| #[trigger] order_from(adj, s, lifo).contains(v) <==> (0 <= s < adj.len() && reachable(adj, s, v as int)),
        forall|i: int| 0 <= i < order_from(adj, s, lifo).len() ==> (#[trigger] order_from(adj, s, lifo)[i] as int) < adj.len(),
{
    let o = order_from(adj, s, lifo);
    if 0 <= s < adj.len() {
        let f = seq![s as u32];
        let vis = only_visited(adj.len(), s);
        assert(closed_outside(adj, f, vis)) by {
            assert forall|w: int, x: u32|
                0 <= w < adj.len() && vis[w] && !f.contains(w as u32) && #[trigger] adj[w].contains(x) implies vis[x as int] by {
                assert(w == s);
                assert(f[0] == s as u32);
            }
        }
        lemma_traversal_order(adj, f, vis, lifo);
        assert forall|v: u32| #[trigger] o.contains(v) <==> reachable(adj, s, v as int) by {
            assert(f.contains(v) <==> v == s) by {
                assert(f[0] == s as u32);
            }
            lemma_reachable_refl(adj, s);
            if reachable(adj, s, v as int) && v != s {
                let p = choose|p: Seq<int>| #[trigger] is_walk(adj, p) && p[0] == s && p.last() == v as int;
                assert((v as int) < adj.len());
                assert(f.contains(s as u32));
            }
            if o.contains(v) && v != s {
                let q = choose|q: u32| #[trigger] f.contains(q) && reachable(adj, q as int, v as int);
                assert(q == s);
            }
        }
        assert forall|i: int| 0 <= i < o.len() implies (#[trigger] o[i] as int) < adj.len() by {
            assert(o.contains(o[i]));
            let p = choose|p: Seq<int>| #[trigger] is_walk(adj, p) && p[0] == s && p.last() == o[i] as int;
            assert(p[p.len() - 1] < adj.len());
        }
    }
}


/// Some walk from `s` to `t` has at most `d` edges.
pub open spec fn within(adj: Seq<Seq<u32>>, s: int, t: int, d: int) -> bool {
    exists|p: Seq<int>| #[trigger] is_walk(adj, p) && p[0] == s && p.last() == t && p.len() <= d + 1
}

/// The fewest edges on a walk from `s` to `t` is `d`.
pub open spec fn is_distance(adj: Seq<Seq<u32>>, s: int, t: int, d: int) -> bool {
    within(adj, s, t, d) && !within(adj, s, t, d - 1)
}

/// A walk from a visited vertex to an unvisited one has an entry on the
/// frontier before its last position.
pub proof fn lemma_frontier_index(adj: Seq<Seq<u32>>, frontier: Seq<u32>, visited: Seq<bool>, p: Seq<int>)
    requires
        traversal_state(adj, frontier, visited),
        is_walk(adj, p),
        visited[p[0]],
        !visited[p.last()],
    ensures
        exists|i: int| 0 <= i < p.len() - 1 && #[trigger] frontier.contains(p[i] as u32),
    decreases p.len(),
{
    if !frontier.contains(p[0] as u32) {
        assert(p.len() >= 2);
        assert(adjacent(adj, p[0], p[1]));
        assert(adj[p[0]].contains(p[1] as u32));
        let q = p.drop_first();
        assert forall|i: int| 0 <= i < q.len() - 1 implies adjacent(adj, #[trigger] q[i], q[i + 1]) by {
            assert(q[i] == p[i + 1] && q[i + 1] == p[i + 2]);
            assert(adjacent(adj, p[i + 1], p[i + 2]));
        }
        assert forall|i: int| 0 <= i < q.len() implies 0 <= #[trigger] q[i] < adj.len() by {
            assert(q[i] == p[i + 1]);
        }
        lemma_frontier_index(adj, frontier, visited, q);
        let i = choose|i: int| 0 <= i < q.len() - 1 && #[trigger] frontier.contains(q[i] as u32);
        assert(p[i + 1] == q[i]);
    } else {
        assert(p.len() >= 2);
    }
}

/// A prefix of a walk is a walk.
pub proof fn lemma_walk_prefix(adj: Seq<Seq<u32>>, p: Seq<int>, k: int)
    requires
        is_walk(adj, p),
        1 <= k <= p.len(),
    ensures
        is_walk(adj, p.take(k)),
{
    let q = p.take(k);
    assert forall|i: int| 0 <= i < q.len() - 1 implies adjacent(adj, #[trigger] q[i], q[i + 1]) by {
        assert(q[i] == p[i] && q[i + 1] == p[i + 1]);
    }
    assert forall|i: int| 0 <= i < q.len() implies 0 <= #[trigger] q[i] < adj.len() by {
        assert(q[i] == p[i]);
    }
}

} // verus!

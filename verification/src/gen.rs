//! Generators of standard graphs: complete, cycle, path, 2D grid.
use vstd::prelude::*;
use crate::model::{adjacency_of_edges, adjacent, lemma_listed_push, listed};
use crate::simple_graph::SimpleGraph;

verus! {

/// In a graph built from `edges`, adjacency is being listed.
proof fn lemma_adjacent_listed(adj: Seq<Seq<u32>>, n: nat, edges: Seq<(u32, u32)>, u: int, v: int)
    requires
        adjacency_of_edges(adj, n, edges),
        n <= u32::MAX,
        0 <= u < n,
        0 <= v < n,
    ensures
        adjacent(adj, u, v) <==> listed(edges, u, v),
{
    assert(adj[u].contains(v as u32) <==> listed(edges, u, (v as u32) as int));
}

/// Complete graph K_n: every two distinct vertices are joined.
pub fn complete(n: usize) -> (g: SimpleGraph)
    requires
        n <= u32::MAX,
        n * n <= usize::MAX / 2,
    ensures
        g.wf(),
        g@.len() == n,
        forall|u: int, v: int| 0 <= u < n && 0 <= v < n ==> (adjacent(g@, u, v) <==> u != v),
{
    let cap = if n > 0 {
        proof {
            assert(n * (n - 1) <= n * n) by (nonlinear_arith)
                requires
                    n > 0,
            ;
        }
        n * (n - 1) / 2
    } else {
        0
    };
    let mut edges: Vec<(u32, u32)> = Vec::with_capacity(cap);
    let nn = n as u32;
    let mut u: u32 = 0;
    while u < nn
        invariant
            nn == n,
            n <= u32::MAX,
            n * n <= usize::MAX / 2,
            u <= nn,
            edges@.len() <= u * n,
            forall|i: int| 0 <= i < edges@.len() ==> (#[trigger] edges@[i]).0 < edges@[i].1 && edges@[i].1 < n && edges@[i].0 < u,
            forall|a: int, b: int| 0 <= a < u && a < b < n ==> listed(edges@, a, b),
        decreases nn - u,
    {
        let mut v: u32 = u + 1;
        let ghost e0 = edges@;
        while v < nn
            invariant
                nn == n,
                n * n <= usize::MAX / 2,
                u < nn,
                u + 1 <= v <= nn,
                edges@.len() <= u * n + (v - u - 1),
                e0.len() <= u * n,
                edges@.len() >= e0.len(),
                forall|i: int| 0 <= i < e0.len() ==> #[trigger] edges@[i] == e0[i],
                forall|i: int| 0 <= i < edges@.len() ==> (#[trigger] edges@[i]).0 < edges@[i].1 && edges@[i].1 < n && edges@[i].0 <= u,
                forall|b: int| u < b < v ==> listed(edges@, u as int, b),
            decreases nn - v,
        {
            proof {
                assert(u * n + (v - u - 1) < n * n) by (nonlinear_arith)
                    requires
                        u < n,
                        v < n,
                        u < v,
                ;
                let k = edges@.len() as int;
                assert(edges@.push((u, v))[k] == (u, v));
            }
            let ghost prev = edges@;
            edges.push((u, v));
            proof {
                assert forall|b: int| u < b < v + 1 implies listed(edges@, u as int, b) by {
                    lemma_listed_push(prev, (u, v), u as int, b);
                    if b < v {
                        assert(listed(prev, u as int, b));
                    }
                }
            }
            v += 1;
        }
        proof {
            assert(u * n + (n - u - 1) <= (u + 1) * n) by (nonlinear_arith)
                requires
                    u < n,
            ;
            assert forall|a: int, b: int| 0 <= a < u + 1 && a < b < n implies listed(edges@, a, b) by {
                if a < u {
                    assert(listed(e0, a, b));
                    let i = choose|i: int|
                        0 <= i < e0.len() && ((#[trigger] e0[i]).0 == a && e0[i].1 == b || e0[i].0 == b && e0[i].1 == a);
                    assert(edges@[i] == e0[i]);
                }
            }
        }
        u += 1;
    }
    proof {
        assert(n * n <= usize::MAX / 2);
        assert forall|i: int| 0 <= i < edges@.len() implies (#[trigger] edges@[i]).0 != edges@[i].1 && edges@[i].0 < n
            && edges@[i].1 < n by {}
    }
    let g = SimpleGraph::from_edges(n, edges.as_slice());
    proof {
        assert forall|a: int, b: int| 0 <= a < n && 0 <= b < n implies (adjacent(g@, a, b) <==> a != b) by {
            lemma_adjacent_listed(g@, n as nat, edges@, a, b);
            if a < b {
                assert(listed(edges@, a, b));
            } else if b < a {
                assert(listed(edges@, b, a));
                let i = choose|i: int|
                    0 <= i < edges@.len() && ((#[trigger] edges@[i]).0 == b && edges@[i].1 == a || edges@[i].0 == a
                        && edges@[i].1 == b);
            } else if listed(edges@, a, b) {
                let i = choose|i: int|
                    0 <= i < edges@.len() && ((#[trigger] edges@[i]).0 == a && edges@[i].1 == b || edges@[i].0 == b
                        && edges@[i].1 == a);
            }
        }
    }
    g
}

/// Cycle graph C_n: vertex `i` is joined to `i + 1` (and `n - 1` to 0).
pub fn cycle(n: usize) -> (g: SimpleGraph)
    requires
        3 <= n <= u32::MAX,
        n <= usize::MAX / 2,
    ensures
        g.wf(),
        g@.len() == n,
        forall|u: int, v: int|
            0 <= u < n && 0 <= v < n ==> (adjacent(g@, u, v) <==> (v == (u + 1) % (n as int) || u == (v + 1) % (n as int))),
{
    let mut edges: Vec<(u32, u32)> = Vec::with_capacity(n);
    let nn = n as u32;
    let mut i: u32 = 0;
    while i < nn
        invariant
            nn == n,
            3 <= n <= u32::MAX,
            i <= nn,
            edges@.len() == i,
            forall|k: int| 0 <= k < i ==> #[trigger] edges@[k] == (k as u32, ((k + 1) % (n as int)) as u32),
        decreases nn - i,
    {
        edges.push((i, (i + 1) % nn));
        i += 1;
    }
    proof {
        assert forall|k: int| 0 <= k < edges@.len() implies (#[trigger] edges@[k]).0 != edges@[k].1 && edges@[k].0 < n
            && edges@[k].1 < n by {
            assert(edges@[k] == (k as u32, ((k + 1) % (n as int)) as u32));
            if k + 1 < n {
                vstd::arithmetic::div_mod::lemma_small_mod((k + 1) as nat, n as nat);
            } else {
                vstd::arithmetic::div_mod::lemma_mod_self_0(n as int);
            }
        }
    }
    let g = SimpleGraph::from_edges(n, edges.as_slice());
    proof {
        assert forall|a: int, b: int|
            0 <= a < n && 0 <= b < n implies (adjacent(g@, a, b) <==> (b == (a + 1) % (n as int) || a == (b + 1) % (n as int))) by {
            lemma_adjacent_listed(g@, n as nat, edges@, a, b);
            if b == (a + 1) % (n as int) {
                assert(edges@[a] == (a as u32, b as u32));
            }
            if a == (b + 1) % (n as int) {
                assert(edges@[b] == (b as u32, a as u32));
            }
            if listed(edges@, a, b) {
                let k = choose|k: int|
                    0 <= k < edges@.len() && ((#[trigger] edges@[k]).0 == a && edges@[k].1 == b || edges@[k].0 == b
                        && edges@[k].1 == a);
                assert(edges@[k] == (k as u32, ((k + 1) % (n as int)) as u32));
            }
        }
    }
    g
}

/// Path graph P_n: vertex `i` is joined to `i + 1` (n vertices, n-1 edges).
pub fn path(n: usize) -> (g: SimpleGraph)
    requires
        n <= u32::MAX,
        n <= usize::MAX / 2,
    ensures
        g.wf(),
        g@.len() == n,
        forall|u: int, v: int| 0 <= u < n && 0 <= v < n ==> (adjacent(g@, u, v) <==> (v == u + 1 || u == v + 1)),
{
    if n <= 1 {
        let g = SimpleGraph::new(n);
        proof {
            assert forall|u: int, v: int| 0 <= u < n && 0 <= v < n implies (adjacent(g@, u, v) <==> (v == u + 1 || u == v + 1)) by {
                assert(g@[u].len() == 0);
            }
        }
        return g;
    }
    let mut edges: Vec<(u32, u32)> = Vec::new();
    let last = (n - 1) as u32;
    let mut i: u32 = 0;
    while i < last
        invariant
            last == n - 1,
            n <= u32::MAX,
            i <= last,
            edges@.len() == i,
            forall|k: int| 0 <= k < i ==> #[trigger] edges@[k] == (k as u32, (k + 1) as u32),
        decreases last - i,
    {
        edges.push((i, i + 1));
        i += 1;
    }
    let g = SimpleGraph::from_edges(n, edges.as_slice());
    proof {
        assert forall|a: int, b: int| 0 <= a < n && 0 <= b < n implies (adjacent(g@, a, b) <==> (b == a + 1 || a == b + 1)) by {
            lemma_adjacent_listed(g@, n as nat, edges@, a, b);
            if b == a + 1 {
                assert(edges@[a] == (a as u32, b as u32));
            }
            if a == b + 1 {
                assert(edges@[b] == (b as u32, a as u32));
            }
            if listed(edges@, a, b) {
                let k = choose|k: int|
                    0 <= k < edges@.len() && ((#[trigger] edges@[k]).0 == a && edges@[k].1 == b || edges@[k].0 == b
                        && edges@[k].1 == a);
                assert(edges@[k] == (k as u32, (k + 1) as u32));
            }
        }
    }
    g
}

/// Vertices `u` and `v` are neighbors in a grid with `cols` columns: side by
/// side in one row, or one above the other.
pub open spec fn grid_neighbors(cols: int, u: int, v: int) -> bool {
    ||| v == u + 1 && u % cols != cols - 1
    ||| u == v + 1 && v % cols != cols - 1
    ||| v == u + cols
    ||| u == v + cols
}

/// 2D grid graph with `rows` x `cols` vertices; position (r, c) is vertex
/// `r * cols + c`.
pub fn grid_2d(rows: usize, cols: usize) -> (g: SimpleGraph)
    requires
        rows * cols <= u32::MAX,
        rows * cols <= usize::MAX / 4,
    ensures
        g.wf(),
        g@.len() == rows * cols,
        forall|u: int, v: int|
            0 <= u < rows * cols && 0 <= v < rows * cols ==> (adjacent(g@, u, v) <==> grid_neighbors(cols as int, u, v)),
{
    let n = rows * cols;
    if n == 0 {
        let g = SimpleGraph::new(0);
        return g;
    }
    let mut edges: Vec<(u32, u32)> = Vec::new();
    let mut r: usize = 0;
    while r < rows
        invariant
            n == rows * cols,
            0 < n <= u32::MAX,
            n <= usize::MAX / 4,
            r <= rows,
            edges@.len() <= 2 * r * cols,
            forall|k: int| 0 <= k < edges@.len() ==> grid_edge(cols as int, n as int, #[trigger] edges@[k]),
            forall|u: int, v: int|
                0 <= u < r * cols && 0 <= v < n && u < v && grid_neighbors(cols as int, u, v) ==> listed(edges@, u, v),
        decreases rows - r,
    {
        let mut c: usize = 0;
        let ghost e0 = edges@;
        proof {
            assert((r + 1) * cols <= n) by (nonlinear_arith)
                requires
                    r < rows,
                    n == rows * cols,
            ;
            assert(r * cols + cols == (r + 1) * cols) by (nonlinear_arith);
            assert(2 * r * cols + 2 * cols == 2 * (r + 1) * cols) by (nonlinear_arith);
        }
        while c < cols
            invariant
                n == rows * cols,
                0 < n <= u32::MAX,
                n <= usize::MAX / 4,
                r < rows,
                (r + 1) * cols <= n,
                r * cols + cols == (r + 1) * cols,
                c <= cols,
                edges@.len() <= 2 * r * cols + 2 * c,
                2 * r * cols + 2 * cols == 2 * (r + 1) * cols,
                forall|k: int| 0 <= k < edges@.len() ==> grid_edge(cols as int, n as int, #[trigger] edges@[k]),
                forall|u: int, v: int|
                    0 <= u < r * cols + c && 0 <= v < n && u < v && grid_neighbors(cols as int, u, v) ==> listed(edges@, u, v),
            decreases cols - c,
        {
            let vv = r * cols + c;
            let v = vv as u32;
            let ghost prev = edges@;
            if c + 1 < cols {
                edges.push((v, v + 1));
                proof {
                    assert((vv as int) % (cols as int) == c) by (nonlinear_arith)
                        requires
                            vv == r * cols + c,
                            c < cols,
                    ;
                    assert(edges@[prev.len() as int] == (v, (v + 1) as u32));
                    assert forall|k: int| 0 <= k < edges@.len() implies grid_edge(cols as int, n as int, #[trigger] edges@[k]) by {
                        if k < prev.len() {
                            assert(edges@[k] == prev[k]);
                        }
                    }
                    assert forall|u: int, w: int|
                        0 <= u < r * cols + c && 0 <= w < n && u < w && grid_neighbors(cols as int, u, w) implies listed(edges@, u, w) by {
                        let i = choose|i: int|
                            0 <= i < prev.len() && ((#[trigger] prev[i]).0 == u && prev[i].1 == w || prev[i].0 == w
                                && prev[i].1 == u);
                        assert(edges@[i] == prev[i]);
                    }
                }
            }
            let ghost mid = edges@;
            if r + 1 < rows {
                proof {
                    assert(vv + cols < n) by (nonlinear_arith)
                        requires
                            vv == r * cols + c,
                            c < cols,
                            r + 1 < rows,
                            n == rows * cols,
                    ;
                }
                edges.push((v, v + cols as u32));
                proof {
                    assert(edges@[mid.len() as int] == (v, (vv + cols) as u32));
                    assert forall|k: int| 0 <= k < edges@.len() implies grid_edge(cols as int, n as int, #[trigger] edges@[k]) by {
                        if k < mid.len() {
                            assert(edges@[k] == mid[k]);
                        }
                    }
                    assert forall|u: int, w: int|
                        0 <= u < r * cols + c && 0 <= w < n && u < w && grid_neighbors(cols as int, u, w) implies listed(edges@, u, w) by {
                        let i = choose|i: int|
                            0 <= i < mid.len() && ((#[trigger] mid[i]).0 == u && mid[i].1 == w || mid[i].0 == w
                                && mid[i].1 == u);
                        assert(edges@[i] == mid[i]);
                    }
                }
            }
            proof {
                assert((vv as int) % (cols as int) == c) by (nonlinear_arith)
                    requires
                        vv == r * cols + c,
                        c < cols,
                ;
                assert forall|u: int, w: int|
                    0 <= u < r * cols + c + 1 && 0 <= w < n && u < w && grid_neighbors(cols as int, u, w) implies listed(edges@, u, w) by {
                    if u == vv {
                        if w != u + cols {
                            assert(w == u + 1);
                            assert(c + 1 < cols);
                            let i = prev.len() as int;
                            assert(edges@[i] == (v, (v + 1) as u32));
                        } else {
                            if r + 1 >= rows {
                                assert(u + cols >= n) by (nonlinear_arith)
                                    requires
                                        u == r * cols + c,
                                        r + 1 >= rows,
                                        n == rows * cols,
                                ;
                            }
                            assert(edges@[mid.len() as int] == (v, (vv + cols) as u32));
                        }
                    }
                }
            }
            c += 1;
        }
        r += 1;
    }
    proof {
        assert(r * cols == n);
        assert(cols > 0) by (nonlinear_arith)
            requires
                n == rows * cols,
                n > 0,
        ;
        assert forall|k: int| 0 <= k < edges@.len() implies (#[trigger] edges@[k]).0 != edges@[k].1 && edges@[k].0 < n
            && edges@[k].1 < n by {
            assert(grid_edge(cols as int, n as int, edges@[k]));
        }
        assert(2 * r * cols == 2 * n) by (nonlinear_arith)
            requires
                r * cols == n,
        ;
    }
    let g = SimpleGraph::from_edges(n, edges.as_slice());
    proof {
        assert forall|a: int, b: int| 0 <= a < n && 0 <= b < n implies (adjacent(g@, a, b) <==> grid_neighbors(cols as int, a, b)) by {
            lemma_adjacent_listed(g@, n as nat, edges@, a, b);
            if grid_neighbors(cols as int, a, b) {
                if a < b {
                    assert(listed(edges@, a, b));
                } else {
                    assert(grid_neighbors(cols as int, b, a));
                    assert(0 <= b < r * cols);
                    assert(listed(edges@, b, a));
                    let i = choose|i: int|
                        0 <= i < edges@.len() && ((#[trigger] edges@[i]).0 == b && edges@[i].1 == a || edges@[i].0
                            == a && edges@[i].1 == b);
                }
            }
            if listed(edges@, a, b) {
                let i = choose|i: int|
                    0 <= i < edges@.len() && ((#[trigger] edges@[i]).0 == a && edges@[i].1 == b || edges@[i].0 == b
                        && edges@[i].1 == a);
                assert(grid_edge(cols as int, n as int, edges@[i]));
            }
        }
    }
    g
}

/// A pair of the grid's edge list: a right or a down neighbor, below `n`.
pub open spec fn grid_edge(cols: int, n: int, e: (u32, u32)) -> bool {
    &&& (e.1 as int) < n
    &&& (e.1 == e.0 + 1 && (e.0 as int) % cols != cols - 1) || e.1 == e.0 + cols
    &&& cols > 0
}

} // verus!

//! Breadth-first search, connectivity and connected components.
use vstd::prelude::*;
use crate::algo::traversal::{
    closed_outside, discovered, fresh, is_walk, lemma_fresh_props, lemma_fresh_take,
    lemma_frontier_cut, lemma_order_from, lemma_reachable_refl, lemma_reachable_symm,
    lemma_reachable_trans, lemma_step_state, lemma_unvisited_decreases, lemma_unvisited_mono,
    mark, next_vertex, order_from, reachable, rest_of, traversal_order, traversal_state,
    unvisited_count,
};
use crate::graph::Graph;
use crate::model::{adjacent, lemma_distinct_below, strictly_increasing, valid_adjacency};

verus! {

/// BFS from a source vertex, one vertex per call of `next`.
pub struct Bfs<'a, G: Graph> {
    graph: &'a G,
    queue: Vec<u32>,
    head: usize,
    visited: Vec<bool>,
}

impl<'a, G: Graph> Bfs<'a, G> {
    /// The traversed graph.
    pub closed spec fn graph_adj(&self) -> Seq<Seq<u32>> {
        self.graph.adj()
    }

    /// The queue holds vertices of the graph and the marks cover every vertex.
    pub closed spec fn wf(&self) -> bool {
        &&& self.graph.inv()
        &&& self.visited@.len() == self.graph.adj().len()
        &&& self.head <= self.queue@.len()
        &&& forall|i: int| self.head <= i < self.queue@.len() ==> (#[trigger] self.queue@[i] as int) < self.graph.adj().len()
    }

    /// The vertices still to be produced, in order.
    pub closed spec fn remaining(&self) -> Seq<u32> {
        traversal_order(
            self.graph.adj(),
            self.queue@.subrange(self.head as int, self.queue@.len() as int),
            self.visited@,
            false,
        )
    }

    /// Produce the next vertex in breadth-first order.
    pub fn next(&mut self) -> (r: Option<u32>)
        requires
            old(self).wf(),
        ensures
            final(self).wf(),
            final(self).graph_adj() == old(self).graph_adj(),
            match r {
                None => old(self).remaining().len() == 0 && final(self).remaining() == old(self).remaining(),
                Some(u) => old(self).remaining() == seq![u] + final(self).remaining(),
            },
    {
        let ghost adj = self.graph.adj();
        if self.head >= self.queue.len() {
            return None;
        }
        let ghost frontier = self.queue@.subrange(self.head as int, self.queue@.len() as int);
        let ghost vis0 = self.visited@;
        let ghost q0 = self.queue@;
        let u = self.queue[self.head];
        self.head = self.head + 1;
        proof {
            self.graph.lemma_inv();
            assert(frontier[0] == u);
        }
        let nbrs = self.graph.neighbors(u);
        let mut j: usize = 0;
        proof {
            assert(nbrs@.take(0) =~= Seq::<u32>::empty());
            assert(mark(vis0, Seq::<u32>::empty()) =~= vis0);
        }
        while j < nbrs.len()
            invariant
                j <= nbrs@.len(),
                nbrs@ == adj[u as int],
                valid_adjacency(adj),
                (u as int) < adj.len(),
                self.graph.inv(),
                self.graph.adj() == adj,
                vis0.len() == adj.len(),
                self.head as int == q0.len() - frontier.len() + 1,
                self.head <= q0.len(),
                frontier == q0.subrange(q0.len() - frontier.len(), q0.len() as int),
                self.queue@ == q0 + fresh(nbrs@.take(j as int), vis0),
                self.visited@ == mark(vis0, fresh(nbrs@.take(j as int), vis0)),
                forall|i: int| self.head - 1 <= i < q0.len() ==> (#[trigger] q0[i] as int) < adj.len(),
            decreases nbrs@.len() - j,
        {
            let v = nbrs[j];
            proof {
                assert(adj[u as int].contains(v));
                crate::algo::traversal::lemma_fresh_props(nbrs@.take(j as int), vis0);
                if nbrs@.take(j as int).contains(v) {
                    let i = choose|i: int| 0 <= i < j && nbrs@.take(j as int)[i] == v;
                    assert(strictly_increasing(nbrs@));
                    assert(nbrs@[i] < nbrs@[j as int]);
                }
                lemma_fresh_take(nbrs@, vis0, j as int);
            }
            if !self.visited[v as usize] {
                self.visited.set(v as usize, true);
                self.queue.push(v);
            }
            proof {
                let f1 = fresh(nbrs@.take(j + 1), vis0);
                assert(self.visited@ =~= mark(vis0, f1)) by {
                    crate::algo::traversal::lemma_fresh_props(nbrs@.take(j + 1), vis0);
                    crate::algo::traversal::lemma_fresh_props(nbrs@.take(j as int), vis0);
                }
                assert(self.queue@ =~= q0 + f1);
            }
            j += 1;
        }
        proof {
            assert(nbrs@.take(j as int) =~= nbrs@);
            let new = fresh(adj[u as int], vis0);
            assert(discovered(adj, frontier, vis0, false) == new);
            assert(next_vertex(frontier, false) == u);
            assert(self.queue@.subrange(self.head as int, self.queue@.len() as int) =~= rest_of(frontier, false) + new);
            crate::algo::traversal::lemma_fresh_props(adj[u as int], vis0);
            assert forall|i: int| self.head <= i < self.queue@.len() implies (#[trigger] self.queue@[i] as int) < adj.len() by {
                if i >= q0.len() {
                    assert(new.contains(self.queue@[i]));
                }
            }
        }
        Some(u)
    }

    /// All remaining vertices, in breadth-first order.
    pub fn collect(self) -> (r: Vec<u32>)
        requires
            self.wf(),
        ensures
            r@ == self.remaining(),
    {
        let ghost total = self.remaining();
        let mut it = self;
        let mut out: Vec<u32> = Vec::new();
        loop
            invariant
                it.wf(),
                out@ + it.remaining() == total,
            ensures
                out@ == total,
            decreases it.remaining().len(),
        {
            let ghost before = it.remaining();
            match it.next() {
                Some(u) => {
                    out.push(u);
                    proof {
                        assert(out@ + it.remaining() =~= total);
                    }
                },
                None => {
                    proof {
                        assert(out@ =~= total);
                    }
                    break;
                },
            }
        }
        out
    }

    /// Number of remaining vertices.
    pub fn count(self) -> (r: usize)
        requires
            self.wf(),
        ensures
            r == self.remaining().len(),
    {
        self.collect().len()
    }
}

/// Return a BFS traversal starting from `source`; it yields nothing when
/// `source` is out of range.
pub fn bfs<'a, G: Graph>(graph: &'a G, source: u32) -> (b: Bfs<'a, G>)
    requires
        graph.inv(),
    ensures
        b.wf(),
        b.graph_adj() == graph.adj(),
        b.remaining() == order_from(graph.adj(), source as int, false),
{
    let n = graph.nv();
    let mut visited = vec![false; n];
    let mut queue: Vec<u32> = Vec::new();
    if graph.has_vertex(source) {
        visited.set(source as usize, true);
        queue.push(source);
    }
    let b = Bfs { graph, queue, head: 0, visited };
    proof {
        if source < n {
            assert(b.visited@ =~= crate::algo::traversal::only_visited(n as nat, source as int));
            assert(b.queue@.subrange(0, 1) =~= seq![source]);
        } else {
            assert(b.queue@.subrange(0, 0) =~= Seq::<u32>::empty());
        }
    }
    b
}

/// Whether the graph is connected: every vertex is reachable from vertex 0
/// (graphs with fewer than two vertices are connected).
pub fn is_connected<G: Graph>(graph: &G) -> (r: bool)
    requires
        graph.inv(),
    ensures
        r == (graph.adj().len() <= 1 || forall|v: int| 0 <= v < graph.adj().len() ==> reachable(graph.adj(), 0, v)),
{
    let n = graph.nv();
    if n <= 1 {
        return true;
    }
    let c = bfs(graph, 0).count();
    proof {
        graph.lemma_inv();
        let adj = graph.adj();
        let o = order_from(adj, 0, false);
        lemma_order_from(adj, 0, false);
        lemma_distinct_below(o, n as nat);
        if c == n {
            assert forall|v: int| 0 <= v < n implies reachable(adj, 0, v) by {
                assert(o.contains(v as u32));
            }
        } else {
            if forall|v: int| 0 <= v < n ==> reachable(adj, 0, v) {
                assert forall|v: int| 0 <= v < n implies #[trigger] o.contains(v as u32) by {
                    assert(reachable(adj, 0, v));
                }
            }
        }
    }
    c == n
}


/// Which vertices carry a label (`u32::MAX` marks an unlabeled vertex).
pub open spec fn labeled(labels: Seq<u32>) -> Seq<bool> {
    Seq::new(labels.len(), |v: int| labels[v] != u32::MAX)
}

/// Label the component of `s` with `c` by a breadth-first search over the
/// unlabeled vertices, reusing `queue`.
fn label_component<G: Graph>(graph: &G, labels: &mut Vec<u32>, queue: &mut Vec<u32>, s: u32, c: u32)
    requires
        graph.inv(),
        old(labels)@.len() == graph.adj().len(),
        (s as int) < graph.adj().len(),
        old(labels)@[s as int] == u32::MAX,
        c != u32::MAX,
        forall|v: int| 0 <= v < graph.adj().len() ==> #[trigger] old(labels)@[v] != c,
        closed_outside(graph.adj(), Seq::<u32>::empty(), labeled(old(labels)@)),
    ensures
        final(labels)@.len() == old(labels)@.len(),
        forall|v: int|
            0 <= v < graph.adj().len() ==> #[trigger] final(labels)@[v] == if old(labels)@[v] != u32::MAX {
                old(labels)@[v]
            } else if reachable(graph.adj(), s as int, v) {
                c
            } else {
                u32::MAX
            },
{
    let ghost adj = graph.adj();
    let ghost labels0 = labels@;
    proof {
        graph.lemma_inv();
    }
    labels.set(s as usize, c);
    queue.clear();
    queue.push(s);
    let mut head: usize = 0;
    proof {
        let f = queue@.subrange(0, queue@.len() as int);
        assert(f =~= seq![s]);
        assert(closed_outside(adj, f, labeled(labels@))) by {
            assert forall|w: int, x: u32|
                0 <= w < adj.len() && labeled(labels@)[w] && !f.contains(w as u32) && #[trigger] adj[w].contains(x) implies labeled(labels@)[x as int] by {
                if w == s {
                    assert(f[0] == s);
                }
                assert(labeled(labels0)[w]);
                assert(!Seq::<u32>::empty().contains(w as u32));
                assert(labeled(labels0)[x as int]);
            }
        }
        lemma_reachable_refl(adj, s as int);
    }
    while head < queue.len()
        invariant
            graph.inv(),
            graph.adj() == adj,
            valid_adjacency(adj),
            labels@.len() == adj.len(),
            labels0.len() == adj.len(),
            (s as int) < adj.len(),
            head <= queue@.len(),
            c != u32::MAX,
            forall|v: int| 0 <= v < adj.len() ==> #[trigger] labels0[v] != c,
            traversal_state(adj, queue@.subrange(head as int, queue@.len() as int), labeled(labels@)),
            forall|i: int| head <= i < queue@.len() ==> labels@[#[trigger] queue@[i] as int] == c,
            forall|v: int| 0 <= v < adj.len() && #[trigger] labels@[v] == c ==> reachable(adj, s as int, v),
            forall|v: int|
                0 <= v < adj.len() ==> (labels0[v] != u32::MAX ==> #[trigger] labels@[v] == labels0[v]) && (labels0[v]
                    == u32::MAX ==> labels@[v] == u32::MAX || labels@[v] == c),
            labels@[s as int] == c,
        decreases unvisited_count(labeled(labels@)), queue@.len() - head,
    {
        let ghost frontier = queue@.subrange(head as int, queue@.len() as int);
        let ghost q0 = queue@;
        let ghost l0 = labels@;
        let ghost vis0 = labeled(labels@);
        let u = queue[head];
        head = head + 1;
        proof {
            assert(frontier[0] == u);
            lemma_step_state(adj, frontier, vis0, false);
        }
        let nbrs = graph.neighbors(u);
        let mut j: usize = 0;
        proof {
            assert(nbrs@.take(0) =~= Seq::<u32>::empty());
        }
        while j < nbrs.len()
            invariant
                j <= nbrs@.len(),
                nbrs@ == adj[u as int],
                valid_adjacency(adj),
                (u as int) < adj.len(),
                labels@.len() == adj.len(),
                l0.len() == adj.len(),
                vis0 == labeled(l0),
                queue@ == q0 + fresh(nbrs@.take(j as int), vis0),
                forall|v: int|
                    0 <= v < adj.len() ==> #[trigger] labels@[v] == if fresh(nbrs@.take(j as int), vis0).contains(v as u32) {
                        c
                    } else {
                        l0[v]
                    },
            decreases nbrs@.len() - j,
        {
            let v = nbrs[j];
            proof {
                assert(adj[u as int].contains(v));
                lemma_fresh_props(nbrs@.take(j as int), vis0);
                if nbrs@.take(j as int).contains(v) {
                    let i = choose|i: int| 0 <= i < j && nbrs@.take(j as int)[i] == v;
                    assert(nbrs@[i] < nbrs@[j as int]);
                }
                lemma_fresh_take(nbrs@, vis0, j as int);
                lemma_fresh_props(nbrs@.take(j + 1), vis0);
            }
            if labels[v as usize] == u32::MAX {
                labels.set(v as usize, c);
                queue.push(v);
            }
            proof {
                let f1 = fresh(nbrs@.take(j + 1), vis0);
                assert(queue@ =~= q0 + f1);
            }
            j += 1;
        }
        proof {
            assert(nbrs@.take(j as int) =~= nbrs@);
            let new = fresh(adj[u as int], vis0);
            assert(discovered(adj, frontier, vis0, false) == new);
            assert(labeled(labels@) =~= mark(vis0, new));
            assert(queue@.subrange(head as int, queue@.len() as int) =~= rest_of(frontier, false) + new);
            lemma_fresh_props(adj[u as int], vis0);
            assert forall|i: int| head <= i < queue@.len() implies labels@[#[trigger] queue@[i] as int] == c by {
                if i < q0.len() {
                    assert(frontier[i - head + 1] == queue@[i]);
                    assert(frontier.contains(queue@[i]));
                    assert(vis0[queue@[i] as int]);
                } else {
                    assert(new.contains(queue@[i]));
                }
            }
            assert forall|v: int| 0 <= v < adj.len() && #[trigger] labels@[v] == c implies reachable(adj, s as int, v) by {
                if new.contains(v as u32) {
                    assert(reachable(adj, s as int, u as int));
                    assert(adj[u as int].contains(v as u32));
                    crate::algo::traversal::lemma_reachable_step(adj, s as int, u as int, v);
                }
            }
            if new.len() > 0 {
                assert(new.contains(new[0]));
                lemma_unvisited_decreases(vis0, mark(vis0, new), new[0] as int);
            } else {
                lemma_unvisited_mono(vis0, mark(vis0, new));
                assert(mark(vis0, new) =~= vis0);
            }
        }
    }
    proof {
        assert forall|v: int|
            0 <= v < adj.len() implies #[trigger] labels@[v] == if labels0[v] != u32::MAX {
                labels0[v]
            } else if reachable(adj, s as int, v) {
                c
            } else {
                u32::MAX
            } by {
            if labels0[v] == u32::MAX && reachable(adj, s as int, v) && labels@[v] != c {
                let p = choose|p: Seq<int>| #[trigger] is_walk(adj, p) && p[0] == s && p.last() == v;
                lemma_frontier_cut(adj, queue@.subrange(head as int, queue@.len() as int), labeled(labels@), p);
            }
        }
    }
}

/// Assign a component label to each vertex. Labels are `0, 1, 2, ...` in
/// order of discovery: two vertices share a label exactly when they are
/// connected, and each label first appears after the one before it.
pub fn connected_components<G: Graph>(graph: &G) -> (labels: Vec<u32>)
    requires
        graph.inv(),
    ensures
        labels@.len() == graph.adj().len(),
        forall|u: int, v: int|
            0 <= u < graph.adj().len() && 0 <= v < graph.adj().len() ==> (#[trigger] labels@[u] == #[trigger] labels@[v]
                <==> reachable(graph.adj(), u, v)),
        forall|v: int|
            0 <= v < graph.adj().len() ==> #[trigger] labels@[v] == 0 || exists|w: int|
                0 <= w < v && #[trigger] labels@[w] + 1 == labels@[v],
{
    let ghost adj = graph.adj();
    proof {
        graph.lemma_inv();
    }
    let n = graph.nv();
    let mut labels: Vec<u32> = vec![u32::MAX; n];
    let mut queue: Vec<u32> = Vec::new();
    let mut component: u32 = 0;
    let mut start: usize = 0;
    while start < n
        invariant
            n == adj.len(),
            graph.inv(),
            graph.adj() == adj,
            valid_adjacency(adj),
            start <= n,
            labels@.len() == n,
            component <= start,
            forall|v: int|
                0 <= v < n ==> (#[trigger] labels@[v] != u32::MAX <==> exists|w: int| 0 <= w < start && reachable(adj, w, v)),
            forall|u: int, v: int|
                0 <= u < n && 0 <= v < n && labels@[u] != u32::MAX && labels@[v] != u32::MAX ==> (#[trigger] labels@[u]
                    == #[trigger] labels@[v] <==> reachable(adj, u, v)),
            forall|v: int| 0 <= v < n && #[trigger] labels@[v] != u32::MAX ==> labels@[v] < component,
            forall|v: int|
                0 <= v < n && #[trigger] labels@[v] != u32::MAX ==> labels@[v] == 0 || exists|w: int|
                    0 <= w < v && #[trigger] labels@[w] + 1 == labels@[v],
            component > 0 ==> exists|w: int| 0 <= w < start && #[trigger] labels@[w] + 1 == component,
        decreases n - start,
    {
        if labels[start] != u32::MAX {
            proof {
                let w0 = choose|w: int| 0 <= w < start && reachable(adj, w, start as int);
                assert forall|v: int| 0 <= v < n implies (#[trigger] labels@[v] != u32::MAX <==> exists|w: int|
                    0 <= w < start + 1 && reachable(adj, w, v)) by {
                    if exists|w: int| 0 <= w < start + 1 && reachable(adj, w, v) {
                        let w = choose|w: int| 0 <= w < start + 1 && reachable(adj, w, v);
                        if w == start {
                            lemma_reachable_trans(adj, w0, start as int, v);
                        }
                    }
                }
            }
            start += 1;
            continue;
        }
        let ghost labels0 = labels@;
        proof {
            assert(closed_outside(adj, Seq::<u32>::empty(), labeled(labels@))) by {
                assert forall|w: int, x: u32|
                    0 <= w < adj.len() && labeled(labels@)[w] && !Seq::<u32>::empty().contains(w as u32) && #[trigger] adj[w].contains(x) implies labeled(labels@)[x as int] by {
                    let w0 = choose|w0: int| 0 <= w0 < start && reachable(adj, w0, w);
                    assert(adjacent(adj, w, x as int));
                    crate::algo::traversal::lemma_reachable_step(adj, w0, w, x as int);
                }
            }
            assert forall|v: int| 0 <= v < n implies #[trigger] labels@[v] != component by {
                if labels@[v] != u32::MAX {
                    assert(labels@[v] < component);
                }
            }
        }
        label_component(graph, &mut labels, &mut queue, start as u32, component);
        proof {
            let s = start as int;
            assert forall|v: int| 0 <= v < n && labels@[v] == component implies v >= s by {
                if v < s {
                    lemma_reachable_refl(adj, v);
                    assert(labels0[v] != u32::MAX);
                }
            }
            assert forall|v: int|
                0 <= v < n implies (#[trigger] labels@[v] != u32::MAX <==> exists|w: int| 0 <= w < start + 1 && reachable(adj, w, v)) by {
                if exists|w: int| 0 <= w < start + 1 && reachable(adj, w, v) {
                    let w = choose|w: int| 0 <= w < start + 1 && reachable(adj, w, v);
                    if w < s {
                        assert(labels0[v] != u32::MAX);
                    }
                }
                if labels@[v] != u32::MAX && labels0[v] == u32::MAX {
                    assert(reachable(adj, s, v));
                }
            }
            assert forall|a: int, b: int|
                0 <= a < n && 0 <= b < n && labels@[a] != u32::MAX && labels@[b] != u32::MAX implies (#[trigger] labels@[a]
                    == #[trigger] labels@[b] <==> reachable(adj, a, b)) by {
                let la0 = labels0[a] != u32::MAX;
                let lb0 = labels0[b] != u32::MAX;
                if la0 && lb0 {
                } else if !la0 && !lb0 {
                    assert(reachable(adj, s, a) && reachable(adj, s, b));
                    lemma_reachable_symm(adj, s, a);
                    lemma_reachable_trans(adj, a, s, b);
                } else if la0 {
                    assert(labels@[a] < component);
                    assert(reachable(adj, s, b));
                    if reachable(adj, a, b) {
                        let w = choose|w: int| 0 <= w < s && reachable(adj, w, a);
                        lemma_reachable_trans(adj, w, a, b);
                        lemma_reachable_symm(adj, s, b);
                        lemma_reachable_trans(adj, w, b, s);
                        assert(labels0[s] != u32::MAX);
                    }
                } else {
                    assert(labels@[b] < component);
                    assert(reachable(adj, s, a));
                    if reachable(adj, a, b) {
                        let w = choose|w: int| 0 <= w < s && reachable(adj, w, b);
                        lemma_reachable_symm(adj, a, b);
                        lemma_reachable_trans(adj, w, b, a);
                        lemma_reachable_symm(adj, s, a);
                        lemma_reachable_trans(adj, w, a, s);
                        assert(labels0[s] != u32::MAX);
                    }
                }
            }
            assert forall|v: int|
                0 <= v < n && #[trigger] labels@[v] != u32::MAX implies labels@[v] == 0 || exists|w: int|
                    0 <= w < v && #[trigger] labels@[w] + 1 == labels@[v] by {
                if labels0[v] != u32::MAX {
                    if labels@[v] != 0 {
                        let w = choose|w: int| 0 <= w < v && #[trigger] labels0[w] + 1 == labels0[v];
                        assert(labels@[w] == labels0[w]);
                    }
                } else if component > 0 {
                    let w = choose|w: int| 0 <= w < s && #[trigger] labels0[w] + 1 == component;
                    assert(labels@[w] == labels0[w]);
                    assert(labels@[v] == component);
                }
            }
            lemma_reachable_refl(adj, s);
            assert(labels@[s] == component);
            assert(labels@[s] + 1 == component + 1);
        }
        component = component + 1;
        start += 1;
    }
    proof {
        assert forall|v: int| 0 <= v < n implies #[trigger] labels@[v] != u32::MAX by {
            lemma_reachable_refl(adj, v);
        }
    }
    labels
}

} // verus!

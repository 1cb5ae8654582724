//! Depth-first search with an explicit stack.
use vstd::prelude::*;
use crate::algo::traversal::{
    fresh, lemma_fresh_take, mark, order_from, rest_of, traversal_order, discovered, next_vertex,
};
use crate::graph::Graph;
use crate::model::{strictly_increasing, valid_adjacency};

verus! {

/// DFS from a source vertex (iterative, with an explicit stack), one vertex
/// per call of `next`.
pub struct Dfs<'a, G: Graph> {
    graph: &'a G,
    stack: Vec<u32>,
    visited: Vec<bool>,
}

impl<'a, G: Graph> Dfs<'a, G> {
    /// The traversed graph.
    pub closed spec fn graph_adj(&self) -> Seq<Seq<u32>> {
        self.graph.adj()
    }

    /// The stack holds vertices of the graph and the marks cover every vertex.
    pub closed spec fn wf(&self) -> bool {
        &&& self.graph.inv()
        &&& self.visited@.len() == self.graph.adj().len()
        &&& forall|i: int| 0 <= i < self.stack@.len() ==> (#[trigger] self.stack@[i] as int) < self.graph.adj().len()
    }

    /// The vertices still to be produced, in order.
    pub closed spec fn remaining(&self) -> Seq<u32> {
        traversal_order(self.graph.adj(), self.stack@, self.visited@, true)
    }

    /// Produce the next vertex in depth-first order: pop the top of the
    /// stack, then push its unvisited neighbors from largest to smallest so
    /// that the smallest is visited first.
    pub fn next(&mut self) -> (r: Option<u32>)
        requires
            old(self).wf(),
        ensures
            final(self).wf(),
            final(self).graph_adj() == old(self).graph_adj(),
            match r {
                None => old(self).remaining().len() == 0 && final(self).remaining() == old(self).remaining(),
                Some(u) => old(self).remaining() == seq![u] + final(self).remaining(),
            },
    {
        let ghost adj = self.graph.adj();
        let ghost frontier = self.stack@;
        let ghost vis0 = self.visited@;
        let top = self.stack.pop();
        let u = match top {
            Some(u) => u,
            None => {
                return None;
            },
        };
        let ghost q0 = self.stack@;
        proof {
            self.graph.lemma_inv();
            assert(frontier.last() == u);
            assert(q0 =~= frontier.drop_last());
            assert(frontier.contains(u)) by {
                assert(frontier[frontier.len() - 1] == u);
            }
        }
        let nbrs = self.graph.neighbors(u);
        let ghost list = nbrs@.reverse();
        let mut j: usize = nbrs.len();
        proof {
            assert(list.take(0) =~= Seq::<u32>::empty());
            assert(mark(vis0, Seq::<u32>::empty()) =~= vis0);
        }
        while j > 0
            invariant
                j <= nbrs@.len(),
                nbrs@ == adj[u as int],
                list == nbrs@.reverse(),
                valid_adjacency(adj),
                (u as int) < adj.len(),
                self.graph.inv(),
                self.graph.adj() == adj,
                vis0.len() == adj.len(),
                self.stack@ == q0 + fresh(list.take(nbrs@.len() - j), vis0),
                self.visited@ == mark(vis0, fresh(list.take(nbrs@.len() - j), vis0)),
                forall|i: int| 0 <= i < q0.len() ==> (#[trigger] q0[i] as int) < adj.len(),
            decreases j,
        {
            let v = nbrs[j - 1];
            let ghost k = nbrs@.len() - j;
            proof {
                assert(list[k] == v);
                assert(adj[u as int].contains(v));
                crate::algo::traversal::lemma_fresh_props(list.take(k), vis0);
                if list.take(k).contains(v) {
                    let i = choose|i: int| 0 <= i < k && list.take(k)[i] == v;
                    assert(list[i] == nbrs@[nbrs@.len() - 1 - i]);
                    assert(strictly_increasing(nbrs@));
                    assert(nbrs@[j - 1] < nbrs@[nbrs@.len() - 1 - i]);
                }
                lemma_fresh_take(list, vis0, k);
            }
            if !self.visited[v as usize] {
                self.visited.set(v as usize, true);
                self.stack.push(v);
            }
            proof {
                let f1 = fresh(list.take(k + 1), vis0);
                assert(self.visited@ =~= mark(vis0, f1)) by {
                    crate::algo::traversal::lemma_fresh_props(list.take(k + 1), vis0);
                    crate::algo::traversal::lemma_fresh_props(list.take(k), vis0);
                }
                assert(self.stack@ =~= q0 + f1);
            }
            j -= 1;
        }
        proof {
            assert(list.take(list.len() as int) =~= list);
            let new = fresh(list, vis0);
            assert(discovered(adj, frontier, vis0, true) == new);
            assert(next_vertex(frontier, true) == u);
            assert(self.stack@ =~= rest_of(frontier, true) + new);
            crate::algo::traversal::lemma_fresh_props(list, vis0);
            assert forall|i: int| 0 <= i < self.stack@.len() implies (#[trigger] self.stack@[i] as int) < adj.len() by {
                if i >= q0.len() {
                    assert(new.contains(self.stack@[i]));
                    assert(list.contains(self.stack@[i]));
                    let p = choose|p: int| 0 <= p < list.len() && list[p] == self.stack@[i];
                    assert(list[p] == nbrs@[nbrs@.len() - 1 - p]);
                    assert(adj[u as int].contains(self.stack@[i]));
                }
            }
        }
        Some(u)
    }

    /// All remaining vertices, in depth-first order.
    pub fn collect(self) -> (r: Vec<u32>)
        requires
            self.wf(),
        ensures
            r@ == self.remaining(),
    {
        let ghost total = self.remaining();
        let mut it = self;
        let mut out: Vec<u32> = Vec::new();
        loop
            invariant
                it.wf(),
                out@ + it.remaining() == total,
            ensures
                out@ == total,
            decreases it.remaining().len(),
        {
            let ghost before = it.remaining();
            match it.next() {
                Some(u) => {
                    out.push(u);
                    proof {
                        assert(out@ + it.remaining() =~= total);
                    }
                },
                None => {
                    proof {
                        assert(out@ =~= total);
                    }
                    break;
                },
            }
        }
        out
    }

    /// Number of remaining vertices.
    pub fn count(self) -> (r: usize)
        requires
            self.wf(),
        ensures
            r == self.remaining().len(),
    {
        self.collect().len()
    }
}

/// Return a DFS traversal starting from `source`; it yields nothing when
/// `source` is out of range.
pub fn dfs<'a, G: Graph>(graph: &'a G, source: u32) -> (d: Dfs<'a, G>)
    requires
        graph.inv(),
    ensures
        d.wf(),
        d.graph_adj() == graph.adj(),
        d.remaining() == order_from(graph.adj(), source as int, true),
{
    let n = graph.nv();
    let mut visited = vec![false; n];
    let mut stack: Vec<u32> = Vec::new();
    if graph.has_vertex(source) {
        visited.set(source as usize, true);
        stack.push(source);
    }
    let d = Dfs { graph, stack, visited };
    proof {
        if source < n {
            assert(d.visited@ =~= crate::algo::traversal::only_visited(n as nat, source as int));
            assert(d.stack@ =~= seq![source]);
        } else {
            assert(d.stack@ =~= Seq::<u32>::empty());
        }
    }
    d
}

} // verus!

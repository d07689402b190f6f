//! The graph type: a node count and an adjacency list.
use vstd::prelude::*;

use crate::spec::valid_adj;

verus! {

/// An edge of a graph, stored in the list of its source node.
#[derive(Clone, Copy, Debug, PartialEq)]
pub struct Edge {
    /// Target node index.
    pub to: usize,
}

impl Edge {
    /// Create a new edge to `to`.
    pub fn new(to: usize) -> (e: Edge)
        ensures
            e.to == to,
    {
        Edge { to }
    }
}

/// Graph represented as adjacency list.
#[derive(Clone, Debug)]
pub struct Graph {
    /// Number of nodes in the graph.
    pub node_count: usize,
    /// Adjacency list: `adj[u]` contains edges from node `u`.
    pub adj: Vec<Vec<Edge>>,
}

impl View for Graph {
    type V = Seq<Seq<usize>>;

    /// The successor lists: `self@[u][j]` is the target of the `j`-th edge of `u`.
    open spec fn view(&self) -> Seq<Seq<usize>> {
        self.adj@.map_values(|row: Vec<Edge>| row@.map_values(|e: Edge| e.to))
    }
}

impl Graph {
    /// The graph has one adjacency list per node, and every edge points at a node.
    pub open spec fn wf(&self) -> bool {
        &&& self.adj@.len() == self.node_count
        &&& valid_adj(self@)
    }

    /// Create a new graph with `n` nodes and no edges.
    pub fn new(n: usize) -> (g: Graph)
        ensures
            g.wf(),
            g.node_count == n,
            g@ == Seq::new(n as nat, |i: int| Seq::<usize>::empty()),
    {
        let mut adj: Vec<Vec<Edge>> = Vec::new();
        let mut i: usize = 0;
        while i < n
            invariant
                i <= n,
                adj@.len() == i,
                forall|k: int| 0 <= k < i ==> (#[trigger] adj@[k])@.len() == 0,
            decreases n - i,
        {
            adj.push(Vec::new());
            i = i + 1;
        }
        let g = Graph { node_count: n, adj };
        assert forall|k: int| 0 <= k < n implies g@[k] =~= Seq::<usize>::empty() by {}
        assert(g@ =~= Seq::new(n as nat, |i: int| Seq::<usize>::empty()));
        g
    }

    /// Add a directed edge from `u` to `v`.
    pub fn add_directed_edge(&mut self, u: usize, v: usize)
        requires
            old(self).wf(),
            u < old(self).node_count,
            v < old(self).node_count,
        ensures
            final(self).wf(),
            final(self).node_count == old(self).node_count,
            final(self)@ == old(self)@.update(u as int, old(self)@[u as int].push(v)),
    {
        self.adj[u].push(Edge::new(v));
        assert(self@[u as int] =~= old(self)@[u as int].push(v));
        assert(self@ =~= old(self)@.update(u as int, old(self)@[u as int].push(v)));
    }

    /// Add an undirected edge between `u` and `v`: an edge from `u` to `v`,
    /// then one from `v` to `u`.
    pub fn add_undirected_edge(&mut self, u: usize, v: usize)
        requires
            old(self).wf(),
            u < old(self).node_count,
            v < old(self).node_count,
        ensures
            final(self).wf(),
            final(self).node_count == old(self).node_count,
            ({
                let g1 = old(self)@.update(u as int, old(self)@[u as int].push(v));
                final(self)@ == g1.update(v as int, g1[v as int].push(u))
            }),
    {
        self.add_directed_edge(u, v);
        self.add_directed_edge(v, u);
    }
}

} // verus!

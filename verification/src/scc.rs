//! Strongly connected components with Tarjan's algorithm.
use vstd::prelude::*;

use crate::graph::Graph;
use crate::lemmas::{
    lemma_cover_len_bound, lemma_distinct_len_bound, lemma_flatten_part_distinct,
    lemma_flatten_singletons, lemma_push_contains, lemma_reach_edge, lemma_reach_refl,
    lemma_reach_trans, lemma_reach_walk,
};
use crate::spec::{
    block_closed, comps_are_sccs, comps_point_back, dfs_next, first_unseen_succ, forest_next,
    has_edge, has_unseen_succ, is_dfs_forest_order, is_node_partition, is_scc_decomposition,
    closed, found_before, has_cycle, is_cycle, is_search_end, is_topological_order, is_tarjan_layout, mutually_reachable,
    reach_within, reachable,
};

verus! {

broadcast use Seq::lemma_flatten_push;

/// The working state of Tarjan's algorithm.
struct TarjanState {
    index_counter: usize,
    indices: Vec<Option<usize>>,
    lowlinks: Vec<usize>,
    on_stack: Vec<bool>,
    stack: Vec<usize>,
    sccs: Vec<Vec<usize>>,
    /// The nodes in the order they were visited.
    pre: Ghost<Seq<usize>>,
    /// For each component, the position in `pre` where the search from its root returned.
    ends: Ghost<Seq<int>>,
}

impl TarjanState {
    /// The components found so far.
    spec fn comps(&self) -> Seq<Seq<usize>> {
        self.sccs@.map_values(|c: Vec<usize>| c@)
    }

    /// The nodes of the components found so far.
    spec fn done(&self) -> Seq<usize> {
        self.comps().flatten()
    }

    /// A node is visited once it has an index.
    spec fn visited(&self, x: int) -> bool {
        self.indices@[x] is Some
    }

    spec fn inv(&self, n: nat) -> bool {
        &&& self.indices@.len() == n
        &&& self.lowlinks@.len() == n
        &&& self.on_stack@.len() == n
        &&& self.stack@.no_duplicates()
        &&& forall|i: int| 0 <= i < self.stack@.len() ==> #[trigger] self.stack@[i] < n
        &&& self.done().no_duplicates()
        &&& forall|i: int| 0 <= i < self.done().len() ==> #[trigger] self.done()[i] < n
        &&& forall|x: usize| !(#[trigger] self.stack@.contains(x) && self.done().contains(x))
        &&& forall|x: usize|
            x < n ==> (#[trigger] self.indices@[x as int] is Some <==> (self.stack@.contains(x)
                || self.done().contains(x)))
        &&& forall|x: usize| x < n ==> (#[trigger] self.on_stack@[x as int] <==> self.stack@.contains(x))
        &&& self.index_counter == self.stack@.len() + self.done().len()
        &&& forall|k: int| 0 <= k < self.comps().len() ==> #[trigger] self.comps()[k].len() > 0
        &&& forall|x: usize| x < n && #[trigger] self.indices@[x as int] is Some ==> self.indices@[x as int].unwrap() < self.index_counter
        &&& forall|i: int| 0 <= i < self.stack@.len() ==> self.index_of(#[trigger] self.stack@[i]) >= self.index_of(self.stack@[0])
    }

    /// The index given to `x` when it was visited.
    spec fn index_of(&self, x: usize) -> int {
        self.indices@[x as int].unwrap() as int
    }

    /// The low link of `x`.
    spec fn low(&self, x: usize) -> int {
        self.lowlinks@[x as int] as int
    }

    /// The stack node at position `q` has the low link of the one at
    /// position `i` as its index, and can be reached from it.
    spec fn low_witness_at(&self, g: Seq<Seq<usize>>, i: int, q: int) -> bool {
        &&& 0 <= q <= i
        &&& self.index_of(self.stack@[q]) == self.low(self.stack@[i])
        &&& reachable(g, self.stack@[i] as int, self.stack@[q] as int)
    }

    /// The low link of the stack node at position `i` is witnessed.
    spec fn low_witnessed(&self, g: Seq<Seq<usize>>, i: int) -> bool {
        exists|q: int| self.low_witness_at(g, i, q)
    }

    /// The facts about the stack and the components that make the result correct.
    spec fn sound(&self, g: Seq<Seq<usize>>) -> bool {
        &&& forall|i: int, j: int|
            0 <= i < j < self.stack@.len() ==> self.index_of(#[trigger] self.stack@[i]) < self.index_of(
                #[trigger] self.stack@[j],
            )
        &&& forall|i: int|
            0 <= i < self.stack@.len() ==> self.low(#[trigger] self.stack@[i]) <= self.index_of(
                self.stack@[i],
            )
        &&& forall|i: int| 0 <= i < self.stack@.len() ==> #[trigger] self.low_witnessed(g, i)
        &&& forall|y: usize|
            #[trigger] self.done().contains(y) <==> exists|k: int|
                0 <= k < self.comps().len() && #[trigger] self.comps()[k].contains(y)
        &&& comps_are_sccs(g, self.comps())
        &&& comps_point_back(g, self.comps())
    }

    /// While scanning the edges of `v` (at stack position `p`) up to edge `j`:
    /// `v` reaches the nodes above it, its low link bounds theirs from below,
    /// none of them is a root (each has a low link below its index), and every edge seen from them or
    /// from `v` leads to a done node or to a stack node of index at least the
    /// low link of `v`.
    spec fn scan_facts(&self, g: Seq<Seq<usize>>, p: int, v: usize, j: int) -> bool {
        &&& 0 <= p < self.stack@.len()
        &&& self.stack@[p] == v
        &&& forall|i: int| p < i < self.stack@.len() ==> reachable(g, v as int, #[trigger] self.stack@[i] as int)
        &&& forall|i: int| p < i < self.stack@.len() ==> self.low(v) <= self.low(#[trigger] self.stack@[i])
        &&& forall|i: int|
            p < i < self.stack@.len() ==> self.low(#[trigger] self.stack@[i]) < self.index_of(self.stack@[i])
        &&& forall|i: int, z: int|
            p < i < self.stack@.len() && #[trigger] has_edge(g, self.stack@[i] as int, z) ==> self.done().contains(
                z as usize,
            ) || (self.stack@.contains(z as usize) && self.low(v) <= self.index_of(z as usize))
        &&& forall|e: int|
            0 <= e < j ==> self.done().contains(#[trigger] g[v as int][e]) || (self.stack@.contains(
                g[v as int][e],
            ) && self.low(v) <= self.index_of(g[v as int][e]))
    }

    /// The index of the root (last node) of component `k`.
    spec fn root_index(&self, k: int) -> int {
        self.index_of(self.comps()[k].last())
    }

    /// The visiting order behind the indices, and the order of the components along it.
    #[verifier::opaque]
    spec fn ordered(&self, g: Seq<Seq<usize>>) -> bool {
        &&& self.pre@.len() == self.index_counter
        &&& forall|k: int|
            0 <= k < self.pre@.len() ==> #[trigger] self.pre@[k] < self.indices@.len() && self.indices@[self.pre@[k] as int]
                == Some(k as usize)
        &&& forall|x: usize|
            x < self.indices@.len() && #[trigger] self.indices@[x as int] is Some ==> 0 <= self.index_of(x) < self.pre@.len()
                && self.pre@[self.index_of(x)] == x
        &&& forall|k: int| 0 <= k < self.pre@.len() ==> forest_next(g, self.pre@.take(k), #[trigger] self.pre@[k] as int)
        &&& self.ends@.len() == self.comps().len()
        &&& forall|k: int| 0 <= k < self.comps().len() ==> is_search_end(g, self.pre@, self.root_index(k), #[trigger] self.ends@[k])
        &&& forall|k1: int, k2: int|
            0 <= k1 < k2 < self.comps().len() ==> #[trigger] self.ends@[k1] < #[trigger] self.ends@[k2] || (self.ends@[k1]
                == self.ends@[k2] && self.root_index(k1) > self.root_index(k2))
        &&& forall|k: int, a: int, b: int|
            0 <= k < self.comps().len() && 0 <= a < b < self.comps()[k].len() ==> self.index_of(#[trigger] self.comps()[k][a])
                > self.index_of(#[trigger] self.comps()[k][b])
    }

    /// While scanning the edges of `v`, visited at position `pv`, up to edge
    /// `j`: every node visited after `v` has all its successors visited, the
    /// successors of `v` scanned so far are visited, the search from `v` has
    /// not returned at any position after `pv`, the components found since
    /// the scan began (from component `c0` on) have roots visited after `v`,
    /// and the earlier ones end no later than `pv`.
    #[verifier::opaque]
    spec fn pre_scan_facts(&self, g: Seq<Seq<usize>>, pv: int, v: usize, j: int, c0: int) -> bool {
        &&& 0 <= pv < self.pre@.len()
        &&& self.pre@[pv] == v
        &&& forall|i: int| pv < i < self.pre@.len() ==> !has_unseen_succ(g, self.pre@, #[trigger] self.pre@[i] as int)
        &&& forall|e: int| 0 <= e < j ==> self.pre@.contains(#[trigger] g[v as int][e])
        &&& forall|e2: int| pv < e2 < self.pre@.len() ==> !#[trigger] block_closed(g, self.pre@, pv, e2)
        &&& 0 <= c0 <= self.comps().len()
        &&& forall|k: int| c0 <= k < self.comps().len() ==> #[trigger] self.root_index(k) > pv
        &&& forall|k: int| 0 <= k < c0 ==> #[trigger] self.ends@[k] <= pv
    }

    /// The index of the bottom of the stack, or the next index when the stack is empty.
    spec fn floor(&self) -> int {
        if self.stack@.len() > 0 {
            self.index_of(self.stack@[0])
        } else {
            self.index_counter as int
        }
    }

    /// The visited nodes number at most `n`.
    proof fn lemma_counter_bound(&self, n: nat)
        requires
            self.inv(n),
        ensures
            self.index_counter <= n,
    {
        let all = self.stack@ + self.done();
        assert forall|i: int, j: int| 0 <= i < all.len() && 0 <= j < all.len() && i != j implies all[i]
            != all[j] by {
            if i < self.stack@.len() && j >= self.stack@.len() {
                assert(self.stack@.contains(all[i]));
                assert(self.done()[j - self.stack@.len()] == all[j]);
                assert(self.done().contains(all[j]));
            }
            if j < self.stack@.len() && i >= self.stack@.len() {
                assert(self.stack@.contains(all[j]));
                assert(self.done()[i - self.stack@.len()] == all[i]);
                assert(self.done().contains(all[i]));
            }
        }
        assert forall|i: int| 0 <= i < all.len() implies #[trigger] all[i] < n by {
            if i >= self.stack@.len() {
                assert(all[i] == self.done()[i - self.stack@.len()]);
            }
        }
        lemma_distinct_len_bound(all, n);
    }

    /// Visit `v` and everything newly reachable from it, emitting every
    /// component whose root is found along the way.
    #[verifier::rlimit(80)]
    fn strongconnect(&mut self, graph: &Graph, v: usize)
        requires
            graph.wf(),
            old(self).inv(graph.node_count as nat),
            old(self).sound(graph@),
            old(self).ordered(graph@),
            v < graph.node_count,
            !old(self).visited(v as int),
            forest_next(graph@, old(self).pre@, v as int),
        ensures
            visit_post(graph@, *old(self), *final(self), v, graph.node_count as nat),
            visit_order_post(graph@, *old(self), *final(self), v),
        decreases graph.node_count - old(self).index_counter,
    {
        let n = graph.node_count;
        let ghost g = graph@;
        let ghost start = *self;
        proof {
            self.lemma_counter_bound(n as nat);
            assert(!self.stack@.contains(v));
            assert(!self.done().contains(v));
            let all = self.stack@.push(v) + self.done();
            assert(self.index_counter < n) by {
                // the stack with v on top and the done nodes are distinct
                assert(self.stack@.push(v).no_duplicates()) by {
                    assert forall|i: int, j: int|
                        0 <= i < self.stack@.len() + 1 && 0 <= j < self.stack@.len() + 1 && i != j implies self.stack@.push(v)[i]
                        != self.stack@.push(v)[j] by {
                        if i == self.stack@.len() {
                            assert(self.stack@.contains(self.stack@[j]));
                        }
                        if j == self.stack@.len() {
                            assert(self.stack@.contains(self.stack@[i]));
                        }
                    }
                }
                assert forall|i: int, j: int| 0 <= i < all.len() && 0 <= j < all.len() && i != j implies all[i]
                    != all[j] by {
                    let sl = self.stack@.len() + 1;
                    if i < sl && j >= sl {
                        lemma_push_contains(self.stack@, v, all[i]);
                        assert(self.stack@.push(v).contains(all[i]));
                        assert(self.done()[j - sl] == all[j]);
                        assert(self.done().contains(all[j]));
                    }
                    if j < sl && i >= sl {
                        lemma_push_contains(self.stack@, v, all[j]);
                        assert(self.stack@.push(v)[j] == all[j]);
                        assert(self.done()[i - sl] == all[i]);
                        assert(self.done().contains(all[i]));
                    }
                }
                assert forall|i: int| 0 <= i < all.len() implies #[trigger] all[i] < n by {
                    if i >= self.stack@.len() + 1 {
                        assert(all[i] == self.done()[i - self.stack@.len() - 1]);
                    }
                }
                lemma_distinct_len_bound(all, n as nat);
            }
        }
        let idx = self.index_counter;
        self.indices.set(v, Some(idx));
        self.lowlinks.set(v, idx);
        self.index_counter = idx + 1;
        self.stack.push(v);
        self.on_stack.set(v, true);
        self.pre = Ghost(self.pre@.push(v));
        let ghost c0 = start.comps().len() as int;
        proof {
            lemma_ordered_push(g, start, *self, v, n as nat);
            lemma_scan_start(g, start, *self, v);
            assert(start.pre@.len() == idx) by {
                reveal(TarjanState::ordered);
            }
            assert(start.pre@.is_prefix_of(self.pre@)) by {
                assert(start.pre@ =~= self.pre@.subrange(0, start.pre@.len() as int));
            }
        }
        proof {
            assert(self.comps() == start.comps());
            assert forall|x: usize| x < n implies (#[trigger] self.indices@[x as int] is Some <==> (
            self.stack@.contains(x) || self.done().contains(x))) by {
                lemma_push_contains(start.stack@, v, x);
            }
            assert forall|x: usize| x < n implies (#[trigger] self.on_stack@[x as int]
                <==> self.stack@.contains(x)) by {
                lemma_push_contains(start.stack@, v, x);
            }
            assert forall|x: usize| !(#[trigger] self.stack@.contains(x) && self.done().contains(x)) by {
                lemma_push_contains(start.stack@, v, x);
            }
            assert(self.stack@.no_duplicates()) by {
                assert forall|i: int, j: int|
                    0 <= i < self.stack@.len() && 0 <= j < self.stack@.len() && i != j implies self.stack@[i]
                    != self.stack@[j] by {
                    if i == start.stack@.len() {
                        assert(start.stack@.contains(self.stack@[j]));
                    }
                    if j == start.stack@.len() {
                        assert(start.stack@.contains(self.stack@[i]));
                    }
                }
            }
        }
        assert(self.inv(n as nat)) by {
            assert forall|i: int| 0 <= i < self.stack@.len() implies self.index_of(#[trigger] self.stack@[i])
                >= self.index_of(self.stack@[0]) by {
                if i < start.stack@.len() {
                    assert(self.stack@[i] == start.stack@[i]);
                    assert(self.stack@[0] == start.stack@[0]);
                } else if start.stack@.len() > 0 {
                    assert(self.stack@[0] == start.stack@[0]);
                    assert(start.stack@.contains(start.stack@[0]));
                }
            }
        }
        let ghost p = start.stack@.len() as int;
        proof {
            assert(self.comps() == start.comps());
            assert forall|i: int| 0 <= i < p implies self.stack@[i] == start.stack@[i] && self.stack@[i] != v
                && #[trigger] self.lowlinks@[self.stack@[i] as int] == start.lowlinks@[start.stack@[i] as int]
                && self.indices@[self.stack@[i] as int] == start.indices@[start.stack@[i] as int] by {
                assert(start.stack@.contains(start.stack@[i]));
            }
            assert forall|i: int, k: int| 0 <= i < k < self.stack@.len() implies self.index_of(#[trigger] self.stack@[i])
                < self.index_of(#[trigger] self.stack@[k]) by {
                if k == p {
                    assert(start.stack@.contains(start.stack@[i]));
                    assert(start.indices@[start.stack@[i] as int] is Some);
                } else {
                    assert(self.lowlinks@[self.stack@[i] as int] == start.lowlinks@[start.stack@[i] as int]);
                    assert(self.lowlinks@[self.stack@[k] as int] == start.lowlinks@[start.stack@[k] as int]);
                }
            }
            assert forall|i: int| 0 <= i < self.stack@.len() implies #[trigger] self.low_witnessed(g, i) by {
                if i == p {
                    lemma_reach_refl(g, v as int);
                    assert(self.low_witness_at(g, i, p));
                } else {
                    assert(start.low_witnessed(g, i));
                    let q = choose|q: int| start.low_witness_at(g, i, q);
                    assert(self.lowlinks@[self.stack@[i] as int] == start.lowlinks@[start.stack@[i] as int]);
                    assert(self.lowlinks@[self.stack@[q] as int] == start.lowlinks@[start.stack@[q] as int]);
                    assert(self.low_witness_at(g, i, q));
                }
            }
            assert forall|i: int| 0 <= i < self.stack@.len() implies self.low(#[trigger] self.stack@[i])
                <= self.index_of(self.stack@[i]) by {
                if i < p {
                    assert(self.lowlinks@[self.stack@[i] as int] == start.lowlinks@[start.stack@[i] as int]);
                }
            }
            assert(self.sound(g));
            assert(self.scan_facts(g, p, v, 0));
            if start.stack@.len() > 0 {
                assert(self.stack@[0] == start.stack@[0]);
                assert(start.stack@.contains(start.stack@[0]));
            }
        }
        let row = &graph.adj[v];
        let mut j: usize = 0;
        while j < row.len()
            invariant
                graph.wf(),
                g == graph@,
                n == graph.node_count,
                v < n,
                row@ == graph.adj@[v as int]@,
                self.inv(n as nat),
                p == start.stack@.len(),
                start.stack@.push(v).is_prefix_of(self.stack@),
                start.comps().is_prefix_of(self.comps()),
                self.indices@[v as int] == Some(idx),
                self.index_counter > start.index_counter,
                start.index_counter == old(self).index_counter,
                idx == start.index_counter,
                forall|x: int|
                    0 <= x < n && start.visited(x) ==> #[trigger] self.indices@[x] == start.indices@[x],
                forall|x: int|
                    0 <= x < n && start.visited(x) ==> #[trigger] self.lowlinks@[x] == start.lowlinks@[x],
                !start.visited(v as int),
                start.floor() <= self.lowlinks@[v as int] <= idx,
                self.floor() == start.floor(),
                self.sound(g),
                j <= row@.len(),
                self.scan_facts(g, p, v, j as int),
                self.ordered(g),
                c0 == start.comps().len(),
                start.pre@.len() == idx,
                start.pre@.is_prefix_of(self.pre@),
                start.ends@.is_prefix_of(self.ends@),
                self.pre_scan_facts(g, idx as int, v, j as int, c0),
            decreases row@.len() - j,
        {
            let w = row[j].to;
            assert(w == g[v as int][j as int]);
            if self.indices[w].is_none() {
                let ghost before = *self;
                proof {
                    self.lemma_counter_bound(n as nat);
                    lemma_unvisited_not_listed(g, *self, w);
                    lemma_child_is_next(g, *self, idx as int, v, j as int, c0, w);
                }
                self.strongconnect(graph, w);
                let ghost after = *self;
                proof {
                    lemma_prefix_trans(start.stack@.push(v), before.stack@, self.stack@);
                    lemma_prefix_trans_seq(start.comps(), before.comps(), self.comps());
                    lemma_visit_order_facts(g, before, *self, w);
                    lemma_prefix_trans(start.pre@, before.pre@, self.pre@);
                    lemma_prefix_trans_int(start.ends@, before.ends@, self.ends@);
                    lemma_roots_kept(g, before, after, n as nat);
                }
                let lw = self.lowlinks[w];
                if lw < self.lowlinks[v] {
                    let ghost q = choose|q: int| after.low_witness_at(g, before.stack@.len() as int, q);
                    proof {
                        assert(after.low_witnessed(g, before.stack@.len() as int));
                        assert(after.stack@[before.stack@.len() as int] == w);
                        lemma_reach_edge(g, v as int, w as int);
                        lemma_reach_trans(g, v as int, w as int, after.stack@[q] as int);
                        assert(q < p) by {
                            if q >= p {
                                assert(after.index_of(after.stack@[q]) >= after.index_of(after.stack@[p]));
                            }
                        }
                    }
                    self.lowlinks.set(v, lw);
                    proof {
                        lemma_lower_low(g, after, *self, p, q, n as nat);
                    }
                }
                proof {
                    lemma_after_child(g, before, after, *self, p, v, w, j as int, n as nat);
                    lemma_unvisited_not_listed(g, before, w);
                    lemma_ordered_same(g, before, before);
                    lemma_ordered_same(g, after, *self);
                    lemma_after_child_pre(g, before, after, *self, idx as int, v, w, j as int, c0, n as nat);
                }
            } else if self.on_stack[w] {
                proof {
                    assert(self.stack@.contains(w));
                    let i = choose|i: int| 0 <= i < self.stack@.len() && self.stack@[i] == w;
                    assert(self.index_of(self.stack@[i]) >= self.index_of(self.stack@[0]));
                }
                let iw = self.indices[w].unwrap();
                let ghost before = *self;
                if iw < self.lowlinks[v] {
                    let ghost q = choose|q: int| 0 <= q < self.stack@.len() && self.stack@[q] == w;
                    proof {
                        lemma_reach_edge(g, v as int, w as int);
                        assert(q < p) by {
                            if q >= p {
                                if q > p {
                                    assert(self.index_of(self.stack@[p]) < self.index_of(self.stack@[q]));
                                }
                            }
                        }
                    }
                    self.lowlinks.set(v, iw);
                    proof {
                        lemma_lower_low(g, before, *self, p, q, n as nat);
                    }
                }
                proof {
                    lemma_after_seen(g, before, *self, p, v, w, j as int, n as nat);
                    lemma_seen_pre(g, before, *self, idx as int, v, j as int, c0, w);
                    lemma_ordered_same(g, before, *self);
                }
            } else {
                proof {
                    assert(self.visited(w as int));
                    assert(!self.stack@.contains(w));
                    assert(self.done().contains(w));
                    lemma_after_seen(g, *self, *self, p, v, w, j as int, n as nat);
                    lemma_seen_pre(g, *self, *self, idx as int, v, j as int, c0, w);
                }
            }
            j = j + 1;
        }
        if self.lowlinks[v] == idx {
            proof {
                assert(self.stack@[p] == v);
            }
            let ghost full = *self;
            self.pop_component(v, Ghost(p));
            proof {
                lemma_prefix_trans_seq(start.comps(), full.comps(), self.comps());
                lemma_emit_sound(g, full, *self, p, v, n as nat);
                lemma_emit_ordered(g, full, *self, p, idx as int, v, c0, n as nat);
                lemma_prefix_trans_int(start.ends@, full.ends@, self.ends@);
                assert(full.comps().is_prefix_of(self.comps()));
                lemma_finish_visit(g, start, full, *self, v, c0);
            }
        } else {
            proof {
                lemma_reach_refl(g, v as int);
                assert forall|i: int, z: int|
                    p <= i < self.stack@.len() && #[trigger] has_edge(g, self.stack@[i] as int, z) implies self.done().contains(
                        z as usize,
                    ) || (self.stack@.contains(z as usize) && self.low(v) <= self.index_of(z as usize)) by {
                    if i == p {
                        let e = choose|e: int| 0 <= e < g[v as int].len() && g[v as int][e] == z;
                        assert(self.done().contains(g[v as int][e]) || (self.stack@.contains(g[v as int][e])
                            && self.low(v) <= self.index_of(g[v as int][e])));
                    }
                }
                assert(self.comps().is_prefix_of(self.comps()));
                lemma_finish_visit(g, start, *self, *self, v, c0);
            }
        }
    }

    /// Pop the stack down to and including `v`, which stands at position
    /// `p`, and emit the popped nodes as one component.
    fn pop_component(&mut self, v: usize, Ghost(p): Ghost<int>)
        requires
            old(self).inv(old(self).indices@.len()),
            0 <= p < old(self).stack@.len(),
            old(self).stack@[p] == v,
        ensures
            final(self).inv(old(self).indices@.len()),
            final(self).stack@ == old(self).stack@.take(p),
            final(self).comps() == old(self).comps().push(reversed(old(self).stack@.skip(p))),
            final(self).indices == old(self).indices,
            final(self).lowlinks == old(self).lowlinks,
            final(self).index_counter == old(self).index_counter,
            final(self).pre == old(self).pre,
            final(self).ends@ == old(self).ends@.push(old(self).index_counter as int),
    {
        let ghost n = self.indices@.len();
        let ghost before = self.stack@;
        let mut scc: Vec<usize> = Vec::new();
        loop
            invariant_except_break
                p < self.stack@.len(),
            invariant
                self.indices == old(self).indices,
                self.lowlinks == old(self).lowlinks,
                self.index_counter == old(self).index_counter,
                self.sccs == old(self).sccs,
                self.pre == old(self).pre,
                self.ends == old(self).ends,
                self.on_stack@.len() == n,
                0 <= p < before.len(),
                before == old(self).stack@,
                before[p] == v,
                before.no_duplicates(),
                forall|i: int| 0 <= i < before.len() ==> #[trigger] before[i] < n,
                p <= self.stack@.len() <= before.len(),
                self.stack@ == before.take(self.stack@.len() as int),
                scc@ == reversed(before.skip(self.stack@.len() as int)),
                forall|x: usize| x < n ==> (#[trigger] self.on_stack@[x as int] <==> self.stack@.contains(x)),
            ensures
                self.stack@.len() == p,
            decreases self.stack@.len(),
        {
            let ghost len0 = self.stack@.len();
            let w = self.stack.pop().unwrap();
            self.on_stack.set(w, false);
            scc.push(w);
            proof {
                assert(self.stack@ =~= before.take(self.stack@.len() as int));
                assert(scc@ =~= reversed(before.skip(self.stack@.len() as int)));
                assert forall|x: usize| x < n implies (#[trigger] self.on_stack@[x as int] <==> self.stack@.contains(x)) by {
                    lemma_push_contains(self.stack@, w, x);
                    assert(before.take(len0 as int) =~= self.stack@.push(w));
                    if x == w && self.stack@.contains(x) {
                        let i = choose|i: int| 0 <= i < self.stack@.len() && self.stack@[i] == x;
                        assert(before[i] == before[len0 - 1]);
                    }
                }
            }
            if w == v {
                proof {
                    assert(before[self.stack@.len() as int] == before[p]);
                }
                break;
            }
        }
        self.sccs.push(scc);
        self.ends = Ghost(self.ends@.push(self.index_counter as int));
        proof {
            assert(self.comps() =~= old(self).comps().push(reversed(before.skip(p))));
            lemma_pop_component_inv(*old(self), *self, p);
        }
    }
}

/// What visiting `v` from state `s0` guarantees of the state `s1` it leaves.
spec fn visit_post(g: Seq<Seq<usize>>, s0: TarjanState, s1: TarjanState, v: usize, n: nat) -> bool {
    let base = s0.stack@.len();
    &&& s1.inv(n)
    &&& s1.sound(g)
    &&& s1.indices@[v as int] == Some(s0.index_counter)
    &&& s1.stack@.len() > base ==> s1.stack@[base as int] == v
    &&& s1.stack@.len() == base ==> s1.done().contains(v) && s1.low(v) == s1.index_of(v)
    &&& forall|i: int| base <= i < s1.stack@.len() ==> reachable(g, v as int, #[trigger] s1.stack@[i] as int)
    &&& forall|i: int| base <= i < s1.stack@.len() ==> s1.low(v) <= s1.low(#[trigger] s1.stack@[i])
    &&& forall|i: int|
        base <= i < s1.stack@.len() ==> s1.low(#[trigger] s1.stack@[i]) < s1.index_of(s1.stack@[i])
    &&& forall|i: int, z: int|
        base <= i < s1.stack@.len() && #[trigger] has_edge(g, s1.stack@[i] as int, z) ==> s1.done().contains(
            z as usize,
        ) || (s1.stack@.contains(z as usize) && s1.low(v) <= s1.index_of(z as usize))
    &&& s1.visited(v as int)
    &&& s0.stack@.is_prefix_of(s1.stack@)
    &&& s0.comps().is_prefix_of(s1.comps())
    &&& s1.index_counter > s0.index_counter
    &&& forall|x: int| 0 <= x < n && s0.visited(x) ==> #[trigger] s1.indices@[x] == s0.indices@[x]
    &&& forall|x: int| 0 <= x < n && s0.visited(x) ==> #[trigger] s1.lowlinks@[x] == s0.lowlinks@[x]
    &&& s1.lowlinks@[v as int] >= s0.floor()
    &&& base == 0 ==> s1.stack@.len() == 0
}

/// What visiting `v` from state `s0` guarantees of the visiting order and
/// of the order of the components in the state `s1` it leaves.
#[verifier::opaque]
spec fn visit_order_post(g: Seq<Seq<usize>>, s0: TarjanState, s1: TarjanState, v: usize) -> bool {
    &&& s1.ordered(g)
    &&& s0.pre@.is_prefix_of(s1.pre@)
    &&& s0.ends@.is_prefix_of(s1.ends@)
    &&& s1.pre@.len() > s0.pre@.len()
    &&& s1.pre@[s0.pre@.len() as int] == v
    &&& forall|i: int|
        s0.pre@.len() <= i < s1.pre@.len() ==> !has_unseen_succ(g, s1.pre@, #[trigger] s1.pre@[i] as int)
    &&& forall|e2: int|
        s0.pre@.len() < e2 < s1.pre@.len() ==> !#[trigger] block_closed(g, s1.pre@, s0.pre@.len() as int, e2)
    &&& forall|k: int| s0.comps().len() <= k < s1.comps().len() ==> #[trigger] s1.root_index(k) >= s0.pre@.len()
}

/// Whether a block is closed depends only on the visited prefix that holds it.
proof fn lemma_block_closed_stable(g: Seq<Seq<usize>>, a: Seq<usize>, b: Seq<usize>, p: int, e: int)
    requires
        a.is_prefix_of(b),
        0 <= p,
        0 <= e <= a.len(),
    ensures
        block_closed(g, a, p, e) == block_closed(g, b, p, e),
{
    assert(a.take(e) =~= b.take(e));
    if block_closed(g, a, p, e) {
        assert forall|i: int| p <= i < e implies !has_unseen_succ(g, b.take(e), #[trigger] b[i] as int) by {
            assert(a[i] == b[i]);
            assert(!has_unseen_succ(g, a.take(e), a[i] as int));
        }
    }
    if block_closed(g, b, p, e) {
        assert forall|i: int| p <= i < e implies !has_unseen_succ(g, a.take(e), #[trigger] a[i] as int) by {
            assert(a[i] == b[i]);
            assert(!has_unseen_succ(g, b.take(e), b[i] as int));
        }
    }
}

/// Where a search returns depends only on the visited prefix that holds it.
proof fn lemma_search_end_stable(g: Seq<Seq<usize>>, a: Seq<usize>, b: Seq<usize>, p: int, e: int)
    requires
        a.is_prefix_of(b),
        is_search_end(g, a, p, e),
    ensures
        is_search_end(g, b, p, e),
{
    lemma_block_closed_stable(g, a, b, p, e);
    assert forall|e2: int| p < e2 < e implies !#[trigger] block_closed(g, b, p, e2) by {
        lemma_block_closed_stable(g, a, b, p, e2);
    }
}

/// Visiting `v` next keeps the visiting order consistent.
proof fn lemma_ordered_push(g: Seq<Seq<usize>>, s0: TarjanState, s1: TarjanState, v: usize, n: nat)
    requires
        s0.inv(n),
        s0.sound(g),
        s0.ordered(g),
        v < n,
        !s0.visited(v as int),
        forest_next(g, s0.pre@, v as int),
        s1.pre@ == s0.pre@.push(v),
        s1.indices@ == s0.indices@.update(v as int, Some(s0.index_counter)),
        s1.index_counter == s0.index_counter + 1,
        s1.sccs == s0.sccs,
        s1.ends == s0.ends,
    ensures
        s1.ordered(g),
{
    reveal(TarjanState::ordered);
    reveal(TarjanState::pre_scan_facts);
    let len0 = s0.pre@.len();
    assert(s1.comps() == s0.comps());
    assert forall|k: int| 0 <= k < len0 implies #[trigger] s1.pre@[k] == s0.pre@[k] && s0.pre@[k] != v by {}
    assert forall|x: usize| x < n && s0.visited(x as int) implies #[trigger] s1.indices@[x as int] == s0.indices@[x as int] by {}
    assert(s0.pre@.is_prefix_of(s1.pre@)) by {
        assert(s0.pre@ =~= s1.pre@.subrange(0, len0 as int));
    }
    assert forall|k: int| 0 <= k < s1.pre@.len() implies forest_next(g, s1.pre@.take(k), #[trigger] s1.pre@[k] as int) by {
        if k < len0 {
            assert(s1.pre@.take(k) =~= s0.pre@.take(k));
        } else {
            assert(s1.pre@.take(k) =~= s0.pre@);
        }
    }
    assert forall|k: int| 0 <= k < s1.comps().len() implies #[trigger] s1.root_index(k) == s0.root_index(k) by {
        let r = s0.comps()[k].last();
        assert(s0.comps()[k].len() > 0);
        assert(s0.comps()[k][s0.comps()[k].len() - 1] == r);
        assert(s0.comps()[k].contains(r));
        assert(s0.done().contains(r));
    }
    assert forall|k: int| 0 <= k < s1.comps().len() implies is_search_end(
        g,
        s1.pre@,
        s1.root_index(k),
        #[trigger] s1.ends@[k],
    ) by {
        assert(is_search_end(g, s0.pre@, s0.root_index(k), s0.ends@[k]));
        lemma_search_end_stable(g, s0.pre@, s1.pre@, s0.root_index(k), s0.ends@[k]);
    }
    assert forall|k: int, a: int, b: int|
        0 <= k < s1.comps().len() && 0 <= a < b < s1.comps()[k].len() implies s1.index_of(#[trigger] s1.comps()[k][a])
        > s1.index_of(#[trigger] s1.comps()[k][b]) by {
        assert(s0.comps()[k].contains(s0.comps()[k][a]));
        assert(s0.comps()[k].contains(s0.comps()[k][b]));
        assert(s0.done().contains(s0.comps()[k][a]));
        assert(s0.done().contains(s0.comps()[k][b]));
    }
}


/// Right after `v` is visited, the scan over its edges starts.
proof fn lemma_scan_start(g: Seq<Seq<usize>>, s0: TarjanState, s1: TarjanState, v: usize)
    requires
        s0.ordered(g),
        s1.pre@ == s0.pre@.push(v),
        s1.sccs == s0.sccs,
        s1.ends == s0.ends,
    ensures
        s1.pre_scan_facts(g, s0.pre@.len() as int, v, 0, s0.comps().len() as int),
{
    reveal(TarjanState::ordered);
    reveal(TarjanState::pre_scan_facts);
    assert(s1.comps() == s0.comps());
    assert forall|k: int| 0 <= k < s0.comps().len() implies #[trigger] s1.ends@[k] <= s0.pre@.len() by {
        assert(is_search_end(g, s0.pre@, s0.root_index(k), s0.ends@[k]));
    }
}

/// A node that is not visited is not listed in the visiting order.
proof fn lemma_unvisited_not_listed(g: Seq<Seq<usize>>, st: TarjanState, w: usize)
    requires
        st.ordered(g),
        !st.visited(w as int),
    ensures
        !st.pre@.contains(w),
{
    reveal(TarjanState::ordered);
    if st.pre@.contains(w) {
        let k = choose|k: int| 0 <= k < st.pre@.len() && st.pre@[k] == w;
        assert(st.indices@[st.pre@[k] as int] == Some(k as usize));
    }
}

/// The roots of components found before a visit keep their indices.
proof fn lemma_roots_kept(g: Seq<Seq<usize>>, s0: TarjanState, s1: TarjanState, n: nat)
    requires
        s0.inv(n),
        s0.sound(g),
        s0.comps().is_prefix_of(s1.comps()),
        forall|x: int| 0 <= x < n && s0.visited(x) ==> #[trigger] s1.indices@[x] == s0.indices@[x],
    ensures
        forall|k: int| 0 <= k < s0.comps().len() ==> #[trigger] s1.root_index(k) == s0.root_index(k),
{
    assert forall|k: int| 0 <= k < s0.comps().len() implies #[trigger] s1.root_index(k) == s0.root_index(k) by {
        let r = s0.comps()[k].last();
        assert(s1.comps()[k] == s0.comps()[k]);
        assert(s0.comps()[k].contains(r)) by {
            assert(s0.comps()[k][s0.comps()[k].len() - 1] == r);
        }
        assert(s0.done().contains(r));
        assert(s0.visited(r as int));
    }
}

/// A successor that is already visited is listed in the visiting order.
proof fn lemma_seen_pre(
    g: Seq<Seq<usize>>,
    before: TarjanState,
    now: TarjanState,
    pv: int,
    v: usize,
    j: int,
    c0: int,
    w: usize,
)
    requires
        before.pre_scan_facts(g, pv, v, j, c0),
        before.ordered(g),
        0 <= j < g[v as int].len(),
        g[v as int][j] == w,
        w < before.indices@.len(),
        before.visited(w as int),
        now.pre == before.pre,
        now.sccs == before.sccs,
        now.indices == before.indices,
        now.ends == before.ends,
    ensures
        now.pre_scan_facts(g, pv, v, j + 1, c0),
{
    reveal(TarjanState::ordered);
    reveal(TarjanState::pre_scan_facts);
    assert(now.comps() == before.comps());
    assert(before.pre@[before.index_of(w)] == w);
    assert(before.pre@.contains(w));
    assert forall|k: int| c0 <= k < now.comps().len() implies #[trigger] now.root_index(k) > pv by {
        assert(now.root_index(k) == before.root_index(k));
    }
}

/// Once all edges of `v` are scanned, the search from `v` has returned:
/// every node visited since `v` has all its successors visited.
proof fn lemma_search_returns(g: Seq<Seq<usize>>, st: TarjanState, pv: int, v: usize, c0: int)
    requires
        st.pre_scan_facts(g, pv, v, g[v as int].len() as int, c0),
    ensures
        forall|i: int| pv <= i < st.pre@.len() ==> !has_unseen_succ(g, st.pre@, #[trigger] st.pre@[i] as int),
{
    reveal(TarjanState::ordered);
    reveal(TarjanState::pre_scan_facts);
    assert forall|i: int| pv <= i < st.pre@.len() implies !has_unseen_succ(g, st.pre@, #[trigger] st.pre@[i] as int) by {
        if i == pv {
            assert forall|e: int| 0 <= e < g[v as int].len() implies st.pre@.contains(#[trigger] g[v as int][e]) by {}
        }
    }
}

/// When the visit of `v` ends, with or without emitting the component of
/// `v`, what it guarantees of the visiting order holds.
proof fn lemma_finish_visit(
    g: Seq<Seq<usize>>,
    start: TarjanState,
    full: TarjanState,
    st: TarjanState,
    v: usize,
    c0: int,
)
    requires
        0 <= v < g.len(),
        full.pre_scan_facts(g, start.pre@.len() as int, v, g[v as int].len() as int, c0),
        c0 == start.comps().len(),
        start.pre@.is_prefix_of(full.pre@),
        start.ends@.is_prefix_of(st.ends@),
        st.pre == full.pre,
        st.indices == full.indices,
        st.ordered(g),
        full.comps().is_prefix_of(st.comps()),
        st.comps().len() <= full.comps().len() + 1,
        st.comps().len() > full.comps().len() ==> st.root_index(full.comps().len() as int) == start.pre@.len(),
    ensures
        visit_order_post(g, start, st, v),
{
    reveal(TarjanState::pre_scan_facts);
    reveal(visit_order_post);
    lemma_search_returns(g, full, start.pre@.len() as int, v, c0);
    reveal(TarjanState::pre_scan_facts);
    assert forall|k: int| start.comps().len() <= k < st.comps().len() implies #[trigger] st.root_index(k)
        >= start.pre@.len() by {
        if k < full.comps().len() {
            assert(st.comps()[k] == full.comps()[k]);
            assert(full.root_index(k) > start.pre@.len());
        }
    }
}

/// The facts of a finished visit that the caller keeps track of.
proof fn lemma_visit_order_facts(g: Seq<Seq<usize>>, s0: TarjanState, s1: TarjanState, v: usize)
    requires
        visit_order_post(g, s0, s1, v),
    ensures
        s1.ordered(g),
        s0.pre@.is_prefix_of(s1.pre@),
        s0.ends@.is_prefix_of(s1.ends@),
        forall|i: int|
            s0.pre@.len() <= i < s1.pre@.len() ==> !has_unseen_succ(g, s1.pre@, #[trigger] s1.pre@[i] as int),
{
    reveal(visit_order_post);
}

/// The visiting order does not depend on the low links or the stack.
proof fn lemma_ordered_same(g: Seq<Seq<usize>>, a: TarjanState, b: TarjanState)
    requires
        a.ordered(g),
        b.pre == a.pre,
        b.indices == a.indices,
        b.sccs == a.sccs,
        b.ends == a.ends,
        b.index_counter == a.index_counter,
    ensures
        b.ordered(g),
        b.ends@.len() == b.comps().len(),
{
    reveal(TarjanState::ordered);
    assert(b.comps() == a.comps());
    assert forall|k: int| 0 <= k < b.comps().len() implies #[trigger] b.root_index(k) == a.root_index(k) by {}
}

/// The unvisited target `w` of edge `j` of `v` is the next node of the
/// depth-first search.
proof fn lemma_child_is_next(g: Seq<Seq<usize>>, st: TarjanState, pv: int, v: usize, j: int, c0: int, w: usize)
    requires
        st.pre_scan_facts(g, pv, v, j, c0),
        0 <= v < g.len(),
        0 <= j < g[v as int].len(),
        g[v as int][j] == w,
        !st.pre@.contains(w),
    ensures
        forest_next(g, st.pre@, w as int),
{
    reveal(TarjanState::ordered);
    reveal(TarjanState::pre_scan_facts);
    let pre = st.pre@;
    assert(has_unseen_succ(g, pre, pre[pv] as int));
    assert(first_unseen_succ(g, pre, pre[pv] as int, w as int));
    assert(dfs_next(g, pre, w as int));
}

/// After visiting the unvisited target `w` of edge `j` of `v`, the scan
/// facts about the visiting order hold up to edge `j + 1`.
#[verifier::spinoff_prover]
#[verifier::rlimit(60)]
proof fn lemma_after_child_pre(
    g: Seq<Seq<usize>>,
    before: TarjanState,
    after: TarjanState,
    now: TarjanState,
    pv: int,
    v: usize,
    w: usize,
    j: int,
    c0: int,
    n: nat,
)
    requires
        before.pre_scan_facts(g, pv, v, j, c0),
        0 <= v < g.len(),
        0 <= j < g[v as int].len(),
        g[v as int][j] == w,
        !before.pre@.contains(w),
        visit_order_post(g, before, after, w),
        forall|k: int| 0 <= k < before.comps().len() ==> #[trigger] after.root_index(k) == before.root_index(k),
        before.comps().len() <= after.comps().len(),
        before.ends@.len() == before.comps().len(),
        now.pre == after.pre,
        now.sccs == after.sccs,
        now.indices == after.indices,
        now.ends == after.ends,
    ensures
        now.pre_scan_facts(g, pv, v, j + 1, c0),
{
    reveal(visit_order_post);
    reveal(TarjanState::ordered);
    reveal(TarjanState::pre_scan_facts);
    let b = before.pre@;
    let a = after.pre@;
    let pw = b.len() as int;
    assert(now.comps() == after.comps());
    assert forall|i: int| 0 <= i < pw implies #[trigger] a[i] == b[i] by {}
    assert forall|i: int| pv < i < a.len() implies !has_unseen_succ(g, a, #[trigger] a[i] as int) by {
        if i < pw {
            assert(!has_unseen_succ(g, b, b[i] as int));
            crate::lemmas::lemma_prefix_no_unseen(g, b, a, b[i] as int);
        }
    }
    assert forall|e: int| 0 <= e < j + 1 implies a.contains(#[trigger] g[v as int][e]) by {
        if e < j {
            assert(b.contains(g[v as int][e]));
            crate::lemmas::lemma_prefix_contains(b, a, g[v as int][e]);
        } else {
            assert(a[pw] == w);
        }
    }
    assert forall|e2: int| pv < e2 < a.len() implies !#[trigger] block_closed(g, a, pv, e2) by {
        if e2 < pw {
            assert(!block_closed(g, b, pv, e2));
            lemma_block_closed_stable(g, b, a, pv, e2);
        } else if e2 == pw {
            assert(a.take(pw) =~= b);
            assert(a[pv] == v);
            assert(b[pv] == v);
            let jj = j;
            assert(0 <= jj < g[b[pv] as int].len() && !b.contains(g[b[pv] as int][jj]));
            assert(has_unseen_succ(g, b, b[pv] as int));
            assert(has_unseen_succ(g, a.take(e2), a[pv] as int));
        } else {
            assert(!block_closed(g, a, pw, e2));
            let i = choose|i: int| pw <= i < e2 && has_unseen_succ(g, a.take(e2), #[trigger] a[i] as int);
        }
    }
    assert forall|k: int| c0 <= k < now.comps().len() implies #[trigger] now.root_index(k) > pv by {
        assert(now.root_index(k) == after.root_index(k));
        if k < before.comps().len() {
            assert(before.root_index(k) > pv);
        } else {
            assert(after.root_index(k) >= before.pre@.len());
        }
    }
    assert forall|k: int| 0 <= k < c0 implies #[trigger] after.ends@[k] <= pv by {
        assert(after.ends@[k] == before.ends@[k]);
    }
}

/// Emitting the stack from `v` upwards as a component keeps the visiting
/// order and the order of components consistent.
#[verifier::spinoff_prover]
#[verifier::rlimit(60)]
proof fn lemma_emit_ordered(
    g: Seq<Seq<usize>>,
    s0: TarjanState,
    s1: TarjanState,
    p: int,
    pv: int,
    v: usize,
    c0: int,
    n: nat,
)
    requires
        g.len() == n,
        v < n,
        s0.ordered(g),
        forall|i: int, j: int|
            0 <= i < j < s0.stack@.len() ==> s0.index_of(#[trigger] s0.stack@[i]) < s0.index_of(#[trigger] s0.stack@[j]),
        s0.pre_scan_facts(g, pv, v, g[v as int].len() as int, c0),
        0 <= p < s0.stack@.len(),
        s0.stack@[p] == v,
        s0.indices@[v as int] == Some(pv as usize),
        s1.stack@ == s0.stack@.take(p),
        s1.comps() == s0.comps().push(reversed(s0.stack@.skip(p))),
        s1.indices == s0.indices,
        s1.index_counter == s0.index_counter,
        s1.pre == s0.pre,
        s1.ends@ == s0.ends@.push(s0.index_counter as int),
    ensures
        s1.ordered(g),
        s1.root_index(s0.comps().len() as int) == pv,
        block_closed(g, s0.pre@, pv, s0.pre@.len() as int),
{
    reveal(TarjanState::ordered);
    reveal(TarjanState::pre_scan_facts);
    let pre = s0.pre@;
    let len = s0.stack@.len();
    let kk = s0.comps().len() as int;
    let c = reversed(s0.stack@.skip(p));
    let t = pre.len() as int;
    assert(s1.comps()[kk] == c);
    assert(c.last() == v) by {
        assert(c[c.len() - 1] == s0.stack@[p]);
    }
    assert(s1.root_index(kk) == pv);
    assert forall|k: int| 0 <= k < kk implies #[trigger] s1.comps()[k] == s0.comps()[k] by {}
    assert forall|k: int| 0 <= k < kk implies #[trigger] s1.root_index(k) == s0.root_index(k) by {}
    // the search from v returns now
    assert(block_closed(g, pre, pv, t)) by {
        assert(pre.take(t) =~= pre);
        assert forall|i: int| pv <= i < t implies !has_unseen_succ(g, pre.take(t), #[trigger] pre[i] as int) by {
            if i == pv {
                assert forall|e: int| 0 <= e < g[v as int].len() implies pre.contains(#[trigger] g[v as int][e]) by {}
            }
        }
    }
    assert(is_search_end(g, pre, pv, t));
    assert forall|k: int| 0 <= k < s1.comps().len() implies is_search_end(
        g,
        s1.pre@,
        s1.root_index(k),
        #[trigger] s1.ends@[k],
    ) by {
        if k < kk {
            assert(s1.ends@[k] == s0.ends@[k]);
            assert(is_search_end(g, pre, s0.root_index(k), s0.ends@[k]));
        }
    }
    assert forall|k1: int, k2: int| 0 <= k1 < k2 < s1.comps().len() implies #[trigger] s1.ends@[k1] < #[trigger] s1.ends@[k2]
        || (s1.ends@[k1] == s1.ends@[k2] && s1.root_index(k1) > s1.root_index(k2)) by {
        assert(s1.ends@[k1] == s0.ends@[k1]);
        if k2 < kk {
            assert(s1.ends@[k2] == s0.ends@[k2]);
        } else {
            assert(is_search_end(g, pre, s0.root_index(k1), s0.ends@[k1]));
            if k1 >= c0 {
                assert(s0.root_index(k1) > pv);
            }
        }
    }
    assert forall|k: int, a: int, b: int|
        0 <= k < s1.comps().len() && 0 <= a < b < s1.comps()[k].len() implies s1.index_of(#[trigger] s1.comps()[k][a])
        > s1.index_of(#[trigger] s1.comps()[k][b]) by {
        if k == kk {
            assert(c[a] == s0.stack@[len - 1 - a]);
            assert(c[b] == s0.stack@[len - 1 - b]);
            assert(s0.index_of(s0.stack@[len - 1 - b]) < s0.index_of(s0.stack@[len - 1 - a]));
        }
    }
}

/// Lowering the low link of the stack node at `p` to the index of the node
/// at `q <= p`, which it reaches, keeps the state sound.
proof fn lemma_lower_low(g: Seq<Seq<usize>>, s0: TarjanState, s1: TarjanState, p: int, q: int, n: nat)
    requires
        s0.inv(n),
        s0.sound(g),
        0 <= q <= p < s0.stack@.len(),
        s1.stack == s0.stack,
        s1.indices == s0.indices,
        s1.sccs == s0.sccs,
        s1.on_stack == s0.on_stack,
        s1.index_counter == s0.index_counter,
        s1.lowlinks@ == s0.lowlinks@.update(s0.stack@[p] as int, s0.index_of(s0.stack@[q]) as usize),
        s0.index_of(s0.stack@[q]) <= s0.low(s0.stack@[p]),
        reachable(g, s0.stack@[p] as int, s0.stack@[q] as int),
    ensures
        s1.inv(n),
        s1.sound(g),
{
    assert(s1.comps() == s0.comps());
    assert forall|i: int| 0 <= i < s0.stack@.len() && i != p implies #[trigger] s1.lowlinks@[s1.stack@[i] as int]
        == s0.lowlinks@[s0.stack@[i] as int] by {
        assert(s0.stack@[i] != s0.stack@[p]);
    }
    assert forall|i: int| 0 <= i < s1.stack@.len() implies s1.low(#[trigger] s1.stack@[i]) <= s1.index_of(
        s1.stack@[i],
    ) by {
        if i == p {
            if q < p {
                assert(s0.index_of(s0.stack@[q]) < s0.index_of(s0.stack@[p]));
            }
        } else {
            assert(s1.lowlinks@[s1.stack@[i] as int] == s0.lowlinks@[s0.stack@[i] as int]);
        }
    }
    assert forall|i: int| 0 <= i < s1.stack@.len() implies #[trigger] s1.low_witnessed(g, i) by {
        if i == p {
            assert(s1.low_witness_at(g, i, q));
        } else {
            assert(s0.low_witnessed(g, i));
            let r = choose|r: int| s0.low_witness_at(g, i, r);
            assert(s1.lowlinks@[s1.stack@[i] as int] == s0.lowlinks@[s0.stack@[i] as int]);
            assert(s1.low_witness_at(g, i, r));
        }
    }
}

/// After visiting a new successor `w` (edge `j` of `v`) and folding its low
/// link into that of `v`, the scan facts hold up to edge `j + 1`.
proof fn lemma_after_child(
    g: Seq<Seq<usize>>,
    before: TarjanState,
    after: TarjanState,
    now: TarjanState,
    p: int,
    v: usize,
    w: usize,
    j: int,
    n: nat,
)
    requires
        g.len() == n,
        before.inv(n),
        before.sound(g),
        before.scan_facts(g, p, v, j),
        0 <= j < g[v as int].len(),
        g[v as int][j] == w,
        v < n,
        w < n,
        !before.visited(w as int),
        visit_post(g, before, after, w, n),
        now.inv(n),
        now.sound(g),
        now.stack == after.stack,
        now.indices == after.indices,
        now.sccs == after.sccs,
        now.lowlinks@ == if after.low(w) < after.low(v) {
            after.lowlinks@.update(v as int, after.lowlinks@[w as int])
        } else {
            after.lowlinks@
        },
    ensures
        now.scan_facts(g, p, v, j + 1),
{
    let bl = before.stack@.len();
    assert(before.stack@.contains(v));
    assert(before.visited(v as int));
    assert(after.lowlinks@[v as int] == before.lowlinks@[v as int]);
    assert(has_edge(g, v as int, w as int));
    lemma_reach_edge(g, v as int, w as int);
    assert(now.comps() == after.comps());
    assert(now.stack@[p] == v) by {
        assert(before.stack@[p] == after.stack@[p]);
    }
    // the low link of v is now the smaller of its old value and that of w
    assert(now.low(v) <= before.low(v));
    assert(now.low(v) <= after.low(w));
    assert forall|i: int| 0 <= i < now.stack@.len() && now.stack@[i] != v implies #[trigger] now.lowlinks@[now.stack@[i] as int]
        == after.lowlinks@[after.stack@[i] as int] by {}
    // stack positions before the call keep their nodes and links
    assert forall|i: int| 0 <= i < bl implies #[trigger] after.stack@[i] == before.stack@[i]
        && after.lowlinks@[before.stack@[i] as int] == before.lowlinks@[before.stack@[i] as int]
        && after.indices@[before.stack@[i] as int] == before.indices@[before.stack@[i] as int] by {
        assert(before.stack@.contains(before.stack@[i]));
    }
    // what was seen before is still seen, with the same index
    assert forall|z: usize| before.done().contains(z) implies #[trigger] after.done().contains(z) by {
        let k = choose|k: int| 0 <= k < before.comps().len() && #[trigger] before.comps()[k].contains(z);
        assert(after.comps()[k] == before.comps()[k]);
    }
    assert forall|z: usize| #[trigger] before.stack@.contains(z) implies (after.stack@.contains(z)
        || after.done().contains(z)) && after.index_of(z) == before.index_of(z) by {
        assert(before.visited(z as int));
    }
    assert forall|i: int| p < i < now.stack@.len() implies reachable(g, v as int, #[trigger] now.stack@[i] as int) by {
        if i >= bl {
            assert(reachable(g, w as int, after.stack@[i] as int));
            lemma_reach_trans(g, v as int, w as int, after.stack@[i] as int);
        } else {
            assert(reachable(g, v as int, before.stack@[i] as int));
        }
    }
    assert forall|i: int| p < i < now.stack@.len() implies now.low(v) <= now.low(#[trigger] now.stack@[i]) && now.low(
        now.stack@[i],
    ) < now.index_of(now.stack@[i]) by {
        assert(now.stack@[i] != v) by {
            assert(now.stack@[i] != now.stack@[p]);
        }
        if i >= bl {
            assert(after.low(w) <= after.low(after.stack@[i]));
        } else {
            assert(before.low(v) <= before.low(before.stack@[i]));
            assert(before.low(before.stack@[i]) < before.index_of(before.stack@[i]));
        }
    }
    assert forall|i: int, z: int|
        p < i < now.stack@.len() && #[trigger] has_edge(g, now.stack@[i] as int, z) implies now.done().contains(
            z as usize,
        ) || (now.stack@.contains(z as usize) && now.low(v) <= now.index_of(z as usize)) by {
        if i >= bl {
            assert(has_edge(g, after.stack@[i] as int, z));
        } else {
            assert(has_edge(g, before.stack@[i] as int, z));
            if !before.done().contains(z as usize) {
                assert(before.stack@.contains(z as usize));
            }
        }
    }
    assert forall|e: int|
        0 <= e < j + 1 implies now.done().contains(#[trigger] g[v as int][e]) || (now.stack@.contains(
            g[v as int][e],
        ) && now.low(v) <= now.index_of(g[v as int][e])) by {
        if e < j {
            if !before.done().contains(g[v as int][e]) {
                assert(before.stack@.contains(g[v as int][e]));
            }
        } else if after.stack@.len() > bl {
            assert(after.stack@[bl as int] == w);
            assert(after.stack@.contains(w));
            assert(after.low(after.stack@[bl as int]) < after.index_of(after.stack@[bl as int]));
        }
    }
}

/// After looking at an edge `j` of `v` to an already visited node `w`, and
/// folding the index of `w` into the low link of `v` when `w` is on the stack,
/// the scan facts hold up to edge `j + 1`.
proof fn lemma_after_seen(
    g: Seq<Seq<usize>>,
    before: TarjanState,
    now: TarjanState,
    p: int,
    v: usize,
    w: usize,
    j: int,
    n: nat,
)
    requires
        g.len() == n,
        before.inv(n),
        before.sound(g),
        before.scan_facts(g, p, v, j),
        0 <= j < g[v as int].len(),
        g[v as int][j] == w,
        v < n,
        w < n,
        before.visited(w as int),
        now.inv(n),
        now.stack == before.stack,
        now.indices == before.indices,
        now.sccs == before.sccs,
        now.lowlinks@ == if before.stack@.contains(w) && before.index_of(w) < before.low(v) {
            before.lowlinks@.update(v as int, before.index_of(w) as usize)
        } else {
            before.lowlinks@
        },
    ensures
        now.scan_facts(g, p, v, j + 1),
{
    assert(now.comps() == before.comps());
    assert(now.low(v) <= before.low(v));
    assert forall|i: int| 0 <= i < now.stack@.len() && i != p implies #[trigger] now.lowlinks@[now.stack@[i] as int]
        == before.lowlinks@[before.stack@[i] as int] by {
        assert(now.stack@[i] != now.stack@[p]);
    }
    assert forall|i: int| p < i < now.stack@.len() implies now.low(v) <= now.low(#[trigger] now.stack@[i]) && now.low(
        now.stack@[i],
    ) < now.index_of(now.stack@[i]) by {
        assert(now.lowlinks@[now.stack@[i] as int] == before.lowlinks@[before.stack@[i] as int]);
    }
    assert forall|e: int|
        0 <= e < j + 1 implies now.done().contains(#[trigger] g[v as int][e]) || (now.stack@.contains(
            g[v as int][e],
        ) && now.low(v) <= now.index_of(g[v as int][e])) by {
        if e == j && !before.stack@.contains(w) {
            assert(before.done().contains(w));
        }
    }
}

/// Every node on the stack from `v` (at position `p`) upwards reaches `v`,
/// when the low link of `v` is its own index.
proof fn lemma_reaches_root(g: Seq<Seq<usize>>, s: TarjanState, p: int, v: usize, j: int, i: int)
    requires
        s.sound(g),
        s.scan_facts(g, p, v, j),
        s.low(v) == s.index_of(v),
        p <= i < s.stack@.len(),
    ensures
        reachable(g, s.stack@[i] as int, v as int),
    decreases i,
{
    if i == p {
        lemma_reach_refl(g, v as int);
    } else {
        assert(s.low_witnessed(g, i));
        let q = choose|q: int| s.low_witness_at(g, i, q);
        assert(s.low(s.stack@[i]) < s.index_of(s.stack@[i]));
        assert(s.low(v) <= s.low(s.stack@[i]));
        assert(q >= p) by {
            if q < p {
                assert(s.index_of(s.stack@[q]) < s.index_of(s.stack@[p]));
            }
        }
        lemma_reaches_root(g, s, p, v, j, q);
        lemma_reach_trans(g, s.stack@[i] as int, s.stack@[q] as int, v as int);
    }
}

/// Emitting the stack from `v` upwards as a component, once all edges of
/// `v` are scanned and its low link is its own index, keeps the state sound:
/// the emitted nodes form exactly one strongly connected component, and
/// their edges lead only to it or to earlier components.
proof fn lemma_emit_sound(g: Seq<Seq<usize>>, s0: TarjanState, s1: TarjanState, p: int, v: usize, n: nat)
    requires
        g.len() == n,
        n <= usize::MAX,
        v < n,
        s0.inv(n),
        s0.sound(g),
        s0.scan_facts(g, p, v, g[v as int].len() as int),
        s0.low(v) == s0.index_of(v),
        s1.inv(n),
        s1.stack@ == s0.stack@.take(p),
        s1.comps() == s0.comps().push(reversed(s0.stack@.skip(p))),
        s1.indices == s0.indices,
        s1.lowlinks == s0.lowlinks,
    ensures
        s1.sound(g),
        s1.done().contains(v),
{
    let len = s0.stack@.len();
    let c = reversed(s0.stack@.skip(p));
    let kk = s0.comps().len() as int;
    assert(s1.comps()[kk] == c);
    assert forall|x: usize| #[trigger] c.contains(x) <==> exists|i: int| p <= i < len && s0.stack@[i] == x by {
        if c.contains(x) {
            let k = choose|k: int| 0 <= k < c.len() && c[k] == x;
            assert(s0.stack@[len - 1 - k] == x);
        }
        if exists|i: int| p <= i < len && s0.stack@[i] == x {
            let i = choose|i: int| p <= i < len && s0.stack@[i] == x;
            assert(c[len - 1 - i] == x);
        }
    }
    assert(c.contains(v)) by {
        assert(s0.stack@[p] == v);
    }
    // the emitted nodes are mutually reachable with v
    assert forall|i: int| p <= i < len implies mutually_reachable(g, v as int, #[trigger] s0.stack@[i] as int) by {
        lemma_reaches_root(g, s0, p, v, g[v as int].len() as int, i);
        if i == p {
            lemma_reach_refl(g, v as int);
        }
    }
    // their edges stay among them or lead to done nodes
    assert forall|i: int, z: int| p <= i < len && #[trigger] has_edge(g, s0.stack@[i] as int, z) implies c.contains(
        z as usize,
    ) || s0.done().contains(z as usize) by {
        if i == p {
            let e = choose|e: int| 0 <= e < g[v as int].len() && g[v as int][e] == z;
            assert(s0.done().contains(g[v as int][e]) || (s0.stack@.contains(g[v as int][e]) && s0.low(v)
                <= s0.index_of(g[v as int][e])));
        }
        if !s0.done().contains(z as usize) {
            assert(s0.stack@.contains(z as usize));
            let r = choose|r: int| 0 <= r < len && s0.stack@[r] == z as usize;
            if r < p {
                assert(s0.index_of(s0.stack@[r]) < s0.index_of(s0.stack@[p]));
            }
        }
    }
    // done nodes and their membership
    assert forall|y: usize| #[trigger] s1.done().contains(y) <==> (s0.done().contains(y) || c.contains(y)) by {
        assert(s1.done() =~= s0.done() + c);
        if s1.done().contains(y) {
            let i = choose|i: int| 0 <= i < s1.done().len() && s1.done()[i] == y;
            if i < s0.done().len() {
                assert(s0.done()[i] == y);
            } else {
                assert(c[i - s0.done().len()] == y);
            }
        }
        if s0.done().contains(y) {
            let i = choose|i: int| 0 <= i < s0.done().len() && s0.done()[i] == y;
            assert(s1.done()[i] == y);
        }
        if c.contains(y) {
            let i = choose|i: int| 0 <= i < c.len() && c[i] == y;
            assert(s1.done()[s0.done().len() + i] == y);
        }
    }
    assert forall|k: int| 0 <= k < kk implies #[trigger] s1.comps()[k] == s0.comps()[k] by {}
    assert forall|y: usize|
        #[trigger] s1.done().contains(y) <==> exists|k: int| 0 <= k < s1.comps().len() && #[trigger] s1.comps()[k].contains(y) by {
        if s0.done().contains(y) {
            let k = choose|k: int| 0 <= k < s0.comps().len() && #[trigger] s0.comps()[k].contains(y);
            assert(s1.comps()[k] == s0.comps()[k]);
        }
        if c.contains(y) {
            assert(s1.comps()[kk].contains(y));
        }
        if exists|k: int| 0 <= k < s1.comps().len() && #[trigger] s1.comps()[k].contains(y) {
            let k = choose|k: int| 0 <= k < s1.comps().len() && #[trigger] s1.comps()[k].contains(y);
            if k < kk {
                assert(s0.comps()[k].contains(y));
            }
        }
    }
    // every node reachable from v is emitted now or was done before
    let inside = |z: int| c.contains(z as usize) || s0.done().contains(z as usize);
    assert forall|u: int, w: int| inside(u) && #[trigger] has_edge(g, u, w) implies inside(w) by {
        let e = choose|e: int| 0 <= e < g[u].len() && g[u][e] == w;
        assert(0 <= w <= usize::MAX);
        assert(0 <= u < n);
        if c.contains(u as usize) {
            let i = choose|i: int| p <= i < len && s0.stack@[i] == u as usize;
            assert(has_edge(g, s0.stack@[i] as int, w));
        } else {
            let k = choose|k: int| 0 <= k < s0.comps().len() && #[trigger] s0.comps()[k].contains(u as usize);
            assert(s0.comps()[k].contains(u as usize) && has_edge(g, (u as usize) as int, (w as usize) as int));
            let k2 = choose|k2: int| 0 <= k2 <= k && #[trigger] s0.comps()[k2].contains(w as usize);
        }
    }
    assert(comps_are_sccs(g, s1.comps())) by {
        assert forall|k: int, x: usize, y: usize|
            0 <= k < s1.comps().len() && #[trigger] s1.comps()[k].contains(x) implies (#[trigger] s1.comps()[k].contains(y)
            <==> mutually_reachable(g, x as int, y as int)) by {
            if k < kk {
                assert(s0.comps()[k].contains(x));
            } else {
                let ix = choose|i: int| p <= i < len && s0.stack@[i] == x;
                assert(mutually_reachable(g, v as int, s0.stack@[ix] as int));
                if c.contains(y) {
                    let iy = choose|i: int| p <= i < len && s0.stack@[i] == y;
                    assert(mutually_reachable(g, v as int, s0.stack@[iy] as int));
                    lemma_reach_trans(g, x as int, v as int, y as int);
                    lemma_reach_trans(g, y as int, v as int, x as int);
                }
                if mutually_reachable(g, x as int, y as int) {
                    lemma_reach_trans(g, v as int, x as int, y as int);
                    lemma_reach_trans(g, y as int, x as int, v as int);
                    let d = choose|d: nat| crate::spec::reach_within(g, v as int, y as int, d);
                    crate::lemmas::lemma_reach_closed(g, v as int, inside, y as int, d);
                    if !c.contains(y) {
                        assert(s0.done().contains(y));
                        let ky = choose|k: int| 0 <= k < s0.comps().len() && #[trigger] s0.comps()[k].contains(y);
                        assert(s0.comps()[ky].contains(y) && mutually_reachable(g, y as int, v as int));
                        assert(s0.comps()[ky].contains(v));
                        assert(s0.done().contains(v));
                        assert(s0.stack@.contains(v));
                    }
                }
            }
        }
    }
    assert(comps_point_back(g, s1.comps())) by {
        assert forall|k1: int, x: usize, y: usize|
            0 <= k1 < s1.comps().len() && #[trigger] s1.comps()[k1].contains(x) && #[trigger] has_edge(
                g,
                x as int,
                y as int,
            ) implies exists|k2: int| 0 <= k2 <= k1 && #[trigger] s1.comps()[k2].contains(y) by {
            if k1 < kk {
                assert(s0.comps()[k1].contains(x) && has_edge(g, x as int, y as int));
                let k2 = choose|k2: int| 0 <= k2 <= k1 && #[trigger] s0.comps()[k2].contains(y);
                assert(s1.comps()[k2] == s0.comps()[k2]);
            } else {
                let ix = choose|i: int| p <= i < len && s0.stack@[i] == x;
                assert(has_edge(g, s0.stack@[ix] as int, y as int));
                if c.contains(y) {
                    assert(s1.comps()[kk].contains(y));
                } else {
                    assert(s0.done().contains(y));
                    let k2 = choose|k: int| 0 <= k < s0.comps().len() && #[trigger] s0.comps()[k].contains(y);
                    assert(s1.comps()[k2] == s0.comps()[k2]);
                    assert(s1.comps()[k2].contains(y));
                }
            }
        }
    }
    // the stack below p is untouched
    assert forall|i: int| 0 <= i < s1.stack@.len() implies #[trigger] s1.stack@[i] == s0.stack@[i] by {}
    assert forall|i: int| 0 <= i < s1.stack@.len() implies #[trigger] s1.low_witnessed(g, i) by {
        assert(s0.low_witnessed(g, i));
        let q = choose|q: int| s0.low_witness_at(g, i, q);
        assert(s1.low_witness_at(g, i, q));
    }
    assert(s1.done().contains(v));
}

/// `s` read backwards.
pub open spec fn reversed(s: Seq<usize>) -> Seq<usize> {
    Seq::new(s.len(), |i: int| s[s.len() - 1 - i])
}

/// A prefix of a prefix is a prefix.
proof fn lemma_prefix_trans(a: Seq<usize>, b: Seq<usize>, c: Seq<usize>)
    requires
        a.is_prefix_of(b),
        b.is_prefix_of(c),
    ensures
        a.is_prefix_of(c),
{
    assert forall|i: int| 0 <= i < a.len() implies a[i] == c[i] by {
        assert(a[i] == b[i]);
        assert(b[i] == c[i]);
    }
    assert(a =~= c.subrange(0, a.len() as int));
}

/// A prefix of a prefix is a prefix.
proof fn lemma_prefix_trans_seq(a: Seq<Seq<usize>>, b: Seq<Seq<usize>>, c: Seq<Seq<usize>>)
    requires
        a.is_prefix_of(b),
        b.is_prefix_of(c),
    ensures
        a.is_prefix_of(c),
{
    assert forall|i: int| 0 <= i < a.len() implies a[i] == c[i] by {
        assert(a[i] == b[i]);
        assert(b[i] == c[i]);
    }
    assert(a =~= c.subrange(0, a.len() as int));
}

/// A prefix of a prefix is a prefix.
proof fn lemma_prefix_trans_int(a: Seq<int>, b: Seq<int>, c: Seq<int>)
    requires
        a.is_prefix_of(b),
        b.is_prefix_of(c),
    ensures
        a.is_prefix_of(c),
{
    assert forall|i: int| 0 <= i < a.len() implies a[i] == c[i] by {
        assert(a[i] == b[i]);
        assert(b[i] == c[i]);
    }
    assert(a =~= c.subrange(0, a.len() as int));
}

/// Emitting the top of the stack as a component keeps the state consistent.
proof fn lemma_pop_component_inv(s0: TarjanState, s1: TarjanState, p: int)
    requires
        s0.inv(s0.indices@.len()),
        0 <= p < s0.stack@.len(),
        s1.stack@ == s0.stack@.take(p),
        s1.comps() == s0.comps().push(reversed(s0.stack@.skip(p))),
        s1.indices == s0.indices,
        s1.lowlinks == s0.lowlinks,
        s1.index_counter == s0.index_counter,
        s1.on_stack@.len() == s0.on_stack@.len(),
        forall|x: usize| x < s0.indices@.len() ==> (#[trigger] s1.on_stack@[x as int] <==> s1.stack@.contains(x)),
    ensures
        s1.inv(s0.indices@.len()),
{
    let n = s0.indices@.len();
    let top = s0.stack@.skip(p);
    let c = reversed(top);
    assert(s1.done() =~= s0.done() + c);
    assert forall|x: usize| #[trigger] s0.stack@.contains(x) <==> (s1.stack@.contains(x) || c.contains(x)) by {
        if s0.stack@.contains(x) {
            let i = choose|i: int| 0 <= i < s0.stack@.len() && s0.stack@[i] == x;
            if i < p {
                assert(s1.stack@[i] == x);
            } else {
                assert(c[s0.stack@.len() - 1 - i] == x);
            }
        }
        if s1.stack@.contains(x) {
            let i = choose|i: int| 0 <= i < s1.stack@.len() && s1.stack@[i] == x;
            assert(s0.stack@[i] == x);
        }
        if c.contains(x) {
            let i = choose|i: int| 0 <= i < c.len() && c[i] == x;
            assert(s0.stack@[s0.stack@.len() - 1 - i] == x);
        }
    }
    assert forall|x: usize| #[trigger] s1.done().contains(x) <==> (s0.done().contains(x) || c.contains(x)) by {
        if s1.done().contains(x) {
            let i = choose|i: int| 0 <= i < s1.done().len() && s1.done()[i] == x;
            if i < s0.done().len() {
                assert(s0.done()[i] == x);
            } else {
                assert(c[i - s0.done().len()] == x);
            }
        }
        if s0.done().contains(x) {
            let i = choose|i: int| 0 <= i < s0.done().len() && s0.done()[i] == x;
            assert(s1.done()[i] == x);
        }
        if c.contains(x) {
            let i = choose|i: int| 0 <= i < c.len() && c[i] == x;
            assert(s1.done()[s0.done().len() + i] == x);
        }
    }
    assert(s1.stack@.no_duplicates()) by {
        assert forall|i: int, j: int| 0 <= i < s1.stack@.len() && 0 <= j < s1.stack@.len() && i != j implies s1.stack@[i]
            != s1.stack@[j] by {
            assert(s1.stack@[i] == s0.stack@[i]);
            assert(s1.stack@[j] == s0.stack@[j]);
        }
    }
    assert(s1.done().no_duplicates()) by {
        assert forall|i: int, j: int| 0 <= i < s1.done().len() && 0 <= j < s1.done().len() && i != j implies s1.done()[i]
            != s1.done()[j] by {
            let d = s0.done().len();
            let sl = s0.stack@.len();
            if i < d && j < d {
                assert(s0.done()[i] == s1.done()[i]);
                assert(s0.done()[j] == s1.done()[j]);
            } else if i >= d && j >= d {
                assert(s1.done()[i] == s0.stack@[sl - 1 - (i - d)]);
                assert(s1.done()[j] == s0.stack@[sl - 1 - (j - d)]);
            } else if i < d {
                assert(s0.done().contains(s1.done()[i]));
                assert(s1.done()[j] == s0.stack@[sl - 1 - (j - d)]);
                assert(s0.stack@.contains(s1.done()[j]));
            } else {
                assert(s0.done().contains(s1.done()[j]));
                assert(s1.done()[i] == s0.stack@[sl - 1 - (i - d)]);
                assert(s0.stack@.contains(s1.done()[i]));
            }
        }
    }
    assert forall|i: int| 0 <= i < s1.stack@.len() implies #[trigger] s1.stack@[i] < n by {
        assert(s1.stack@[i] == s0.stack@[i]);
    }
    assert forall|i: int| 0 <= i < s1.done().len() implies #[trigger] s1.done()[i] < n by {
        if i >= s0.done().len() {
            assert(s1.done()[i] == s0.stack@[s0.stack@.len() - 1 - (i - s0.done().len())]);
        }
    }
    assert forall|x: usize| !(#[trigger] s1.stack@.contains(x) && s1.done().contains(x)) by {
        assert(s0.stack@.contains(x) <==> (s1.stack@.contains(x) || c.contains(x)));
        assert(s1.done().contains(x) <==> (s0.done().contains(x) || c.contains(x)));
        assert(!(s0.stack@.contains(x) && s0.done().contains(x)));
        if s1.stack@.contains(x) && c.contains(x) {
            let i = choose|i: int| 0 <= i < s1.stack@.len() && s1.stack@[i] == x;
            let k = choose|k: int| 0 <= k < c.len() && c[k] == x;
            assert(s0.stack@[i] == s0.stack@[s0.stack@.len() - 1 - k]);
        }
    }
    assert forall|k: int| 0 <= k < s1.comps().len() implies #[trigger] s1.comps()[k].len() > 0 by {
        if k < s0.comps().len() {
            assert(s1.comps()[k] == s0.comps()[k]);
        }
    }
}

/// Tarjan's algorithm for strongly connected components.
///
/// Returns a vector of SCCs, each being a vector of node indices.
/// SCCs are returned in reverse topological order.
pub fn tarjan_scc(graph: &Graph) -> (sccs: Vec<Vec<usize>>)
    requires
        graph.wf(),
    ensures
        is_scc_decomposition(graph@, sccs@.map_values(|c: Vec<usize>| c@)),
        exists|pre: Seq<usize>|
            is_dfs_forest_order(graph@, pre) && is_tarjan_layout(
                graph@,
                pre,
                sccs@.map_values(|c: Vec<usize>| c@),
            ),
{
    let n = graph.node_count;
    let mut st = TarjanState {
        index_counter: 0,
        indices: vec![None; n],
        lowlinks: vec![0; n],
        on_stack: vec![false; n],
        stack: Vec::new(),
        sccs: Vec::new(),
        pre: Ghost(Seq::empty()),
        ends: Ghost(Seq::empty()),
    };
    proof {
        assert(st.comps() =~= Seq::<Seq<usize>>::empty());
        assert(st.done() =~= Seq::<usize>::empty());
        assert(st.sound(graph@));
        lemma_initial_ordered(graph@, st);
    }
    let mut v: usize = 0;
    while v < n
        invariant
            graph.wf(),
            n == graph.node_count,
            v <= n,
            st.inv(n as nat),
            st.stack@.len() == 0,
            st.sound(graph@),
            st.ordered(graph@),
            closed(graph@, st.pre@),
            forall|x: int| 0 <= x < v ==> #[trigger] st.visited(x),
        decreases n - v,
    {
        let ghost before = st;
        if st.indices[v].is_none() {
            proof {
                lemma_top_is_next(graph@, st, v, n as nat);
            }
            st.strongconnect(graph, v);
            proof {
                lemma_visit_order_facts(graph@, before, st, v);
                assert forall|k: int| 0 <= k < st.pre@.len() implies !has_unseen_succ(
                    graph@,
                    st.pre@,
                    #[trigger] st.pre@[k] as int,
                ) by {
                    if k < before.pre@.len() {
                        assert(st.pre@[k] == before.pre@[k]);
                        crate::lemmas::lemma_prefix_no_unseen(graph@, before.pre@, st.pre@, before.pre@[k] as int);
                    }
                }
            }
        }
        proof {
            assert forall|x: int| 0 <= x < v + 1 implies #[trigger] st.visited(x) by {
                if x < v {
                    assert(before.visited(x));
                    assert(st.indices@[x] == before.indices@[x]);
                }
            }
        }
        v = v + 1;
    }
    proof {
        assert forall|x: usize| x < n implies #[trigger] st.done().contains(x) by {
            assert(st.visited(x as int));
        }
        assert(st.comps() =~= st.sccs@.map_values(|c: Vec<usize>| c@));
        lemma_final_layout(graph@, st, n as nat);
    }
    st.sccs
}

/// Before anything is visited, the order facts hold trivially.
proof fn lemma_initial_ordered(g: Seq<Seq<usize>>, st: TarjanState)
    requires
        st.pre@ == Seq::<usize>::empty(),
        st.ends@ == Seq::<int>::empty(),
        st.sccs@ == Seq::<Vec<usize>>::empty(),
        st.index_counter == 0,
        forall|x: int| 0 <= x < st.indices@.len() ==> #[trigger] st.indices@[x] is None,
    ensures
        st.ordered(g),
{
    reveal(TarjanState::ordered);
    assert(st.comps() =~= Seq::<Seq<usize>>::empty());
}

/// Between two searches from the outer loop, the smallest unvisited node is
/// the next node of the depth-first search.
proof fn lemma_top_is_next(g: Seq<Seq<usize>>, st: TarjanState, v: usize, n: nat)
    requires
        g.len() == n,
        st.inv(n),
        st.ordered(g),
        closed(g, st.pre@),
        v < n,
        !st.visited(v as int),
        forall|x: int| 0 <= x < v ==> #[trigger] st.visited(x),
    ensures
        forest_next(g, st.pre@, v as int),
{
    reveal(TarjanState::ordered);
    lemma_unvisited_not_listed(g, st, v);
    assert forall|x: usize| x < v implies #[trigger] st.pre@.contains(x) by {
        assert(st.visited(x as int));
        assert(st.pre@[st.index_of(x)] == x);
    }
    assert(!exists|i: int| 0 <= i < st.pre@.len() && #[trigger] has_unseen_succ(g, st.pre@, st.pre@[i] as int));
}

/// At the end, the visiting order is the depth-first order of the whole
/// graph, and the components are laid out along it.
proof fn lemma_final_layout(g: Seq<Seq<usize>>, st: TarjanState, n: nat)
    requires
        g.len() == n,
        n <= usize::MAX,
        st.inv(n),
        st.ordered(g),
        st.stack@.len() == 0,
        forall|x: usize| x < n ==> #[trigger] st.done().contains(x),
    ensures
        is_dfs_forest_order(g, st.pre@),
        is_tarjan_layout(g, st.pre@, st.comps()),
{
    reveal(TarjanState::ordered);
    let pre = st.pre@;
    let comps = st.comps();
    crate::lemmas::lemma_distinct_len_bound(st.done(), n);
    crate::lemmas::lemma_cover_len_bound(st.done(), n);
    assert(pre.len() == n);
    // the visiting order lists each node once, at its index
    assert forall|x: usize| x < n && #[trigger] st.visited(x as int) implies pre.index_of(x) == st.index_of(x) by {
        let i = pre.index_of(x);
        assert(pre[st.index_of(x)] == x);
        assert(0 <= i < pre.len() && pre[i] == x);
        assert(st.indices@[pre[i] as int] == Some(i as usize));
    }
    assert forall|k: int, a: int| 0 <= k < comps.len() && 0 <= a < comps[k].len() implies #[trigger] st.visited(
        comps[k][a] as int,
    ) && comps[k][a] < n by {
        assert(comps[k].contains(comps[k][a]));
        assert(st.done().contains(comps[k][a])) by {
            crate::lemmas::lemma_flatten_member(comps, k, a);
        }
        let i = choose|i: int| 0 <= i < st.done().len() && st.done()[i] == comps[k][a];
    }
    assert forall|k: int, a: int, b: int|
        0 <= k < comps.len() && 0 <= a < b < comps[k].len() implies pre.index_of(#[trigger] comps[k][a])
        > pre.index_of(#[trigger] comps[k][b]) by {
        assert(st.visited(comps[k][a] as int) && comps[k][a] < n);
        assert(st.visited(comps[k][b] as int) && comps[k][b] < n);
    }
    assert forall|k1: int, k2: int| 0 <= k1 < k2 < comps.len() implies #[trigger] found_before(
        g,
        pre,
        pre.index_of(comps[k1].last()),
        pre.index_of(comps[k2].last()),
    ) by {
        let l1 = (st.comps()[k1].len() - 1) as int;
        let l2 = (st.comps()[k2].len() - 1) as int;
        assert(st.visited(st.comps()[k1][l1] as int) && st.comps()[k1][l1] < n);
        assert(st.visited(st.comps()[k2][l2] as int) && st.comps()[k2][l2] < n);
        assert(is_search_end(g, st.pre@, st.root_index(k1), st.ends@[k1]));
        assert(is_search_end(g, st.pre@, st.root_index(k2), st.ends@[k2]));
        assert(st.ends@[k1] < st.ends@[k2] || (st.ends@[k1] == st.ends@[k2] && st.root_index(k1) > st.root_index(k2)));
        assert(st.comps()[k1].last() == st.comps()[k1][l1]);
        assert(st.comps()[k2].last() == st.comps()[k2][l2]);
        assert(st.pre@.index_of(st.comps()[k1].last()) == st.root_index(k1));
        assert(st.pre@.index_of(st.comps()[k2].last()) == st.root_index(k2));
        let e1 = st.ends@[k1];
        let e2 = st.ends@[k2];
        assert(is_search_end(g, st.pre@, st.pre@.index_of(st.comps()[k1].last()), e1));
        assert(is_search_end(g, st.pre@, st.pre@.index_of(st.comps()[k2].last()), e2));
    }
}

/// Two distinct nodes that reach each other lie on a cycle.
proof fn lemma_mutual_cycle(g: Seq<Seq<usize>>, x: usize, y: usize)
    requires
        x != y,
        mutually_reachable(g, x as int, y as int),
    ensures
        has_cycle(g),
{
    let d1 = choose|d: nat| reach_within(g, x as int, y as int, d);
    let d2 = choose|d: nat| reach_within(g, y as int, x as int, d);
    let p1 = lemma_reach_walk(g, x as int, y as int, d1);
    let p2 = lemma_reach_walk(g, y as int, x as int, d2);
    assert(p2.len() >= 2) by {
        if p2.len() == 1 {
            assert(p2.last() == p2[0]);
        }
    }
    let c = p1 + p2.skip(1);
    let l1 = p1.len() as int;
    assert forall|i: int| 0 <= i < c.len() - 1 implies has_edge(g, #[trigger] c[i] as int, c[i + 1] as int) by {
        if i < l1 - 1 {
            assert(has_edge(g, p1[i] as int, p1[i + 1] as int));
        } else if i == l1 - 1 {
            assert(c[i] == p1.last());
            assert(c[i + 1] == p2[1]);
            assert(has_edge(g, p2[0] as int, p2[1] as int));
        } else {
            assert(c[i] == p2[i - l1 + 1]);
            assert(c[i + 1] == p2[i - l1 + 2]);
            assert(has_edge(g, p2[i - l1 + 1] as int, p2[i - l1 + 2] as int));
        }
    }
    assert(c[c.len() - 1] == p2.last());
    assert(is_cycle(g, c));
}

/// In a graph without cycles, every strongly connected component is a
/// single node.
pub proof fn lemma_acyclic_components_single(g: Seq<Seq<usize>>, comps: Seq<Seq<usize>>)
    requires
        is_scc_decomposition(g, comps),
        !has_cycle(g),
    ensures
        forall|k: int| 0 <= k < comps.len() ==> #[trigger] comps[k].len() == 1,
{
    assert forall|k: int| 0 <= k < comps.len() implies #[trigger] comps[k].len() == 1 by {
        assert(comps[k].len() > 0);
        if comps[k].len() > 1 {
            lemma_flatten_part_distinct(comps, k);
            let x = comps[k][0];
            let y = comps[k][1];
            assert(comps[k].contains(x));
            assert(comps[k].contains(y));
            assert(mutually_reachable(g, x as int, y as int));
            lemma_mutual_cycle(g, x, y);
        }
    }
}

/// In a graph without cycles, the components, each a single node, listed
/// from last to first form a topological order.
pub proof fn lemma_acyclic_reverse_topological(g: Seq<Seq<usize>>, comps: Seq<Seq<usize>>)
    requires
        g.len() <= usize::MAX,
        is_scc_decomposition(g, comps),
        !has_cycle(g),
    ensures
        is_topological_order(g, Seq::new(comps.len(), |i: int| comps[comps.len() - 1 - i][0])),
{
    let n = g.len();
    let m = comps.len() as int;
    let order = Seq::new(comps.len(), |i: int| comps[m - 1 - i][0]);
    lemma_acyclic_components_single(g, comps);
    lemma_flatten_singletons(comps);
    let f = comps.flatten();
    lemma_distinct_len_bound(f, n);
    lemma_cover_len_bound(f, n);
    assert(f.len() == m);
    assert forall|i: int| 0 <= i < m implies #[trigger] order[i] == f[m - 1 - i] by {}
    assert forall|a: int, b: int| 0 <= a < m && 0 <= b < m && a != b implies order[a] != order[b] by {
        assert(order[a] == f[m - 1 - a]);
        assert(order[b] == f[m - 1 - b]);
    }
    assert forall|v: usize| v < n implies #[trigger] order.contains(v) by {
        assert(f.contains(v));
        let i = choose|i: int| 0 <= i < f.len() && f[i] == v;
        assert(order[m - 1 - i] == v);
    }
    assert forall|i: int, j: int|
        0 <= i < order.len() && 0 <= j < order.len() && has_edge(g, #[trigger] order[i] as int, #[trigger] order[j] as int)
            implies i < j by {
        lemma_edge_to_earlier_single(g, comps, m - 1 - i, m - 1 - j);
    }
}

/// With single-node components and no cycle, an edge from component `k1` to
/// component `k2` means `k2` comes strictly earlier.
proof fn lemma_edge_to_earlier_single(g: Seq<Seq<usize>>, comps: Seq<Seq<usize>>, k1: int, k2: int)
    requires
        comps_point_back(g, comps),
        forall|k: int| 0 <= k < comps.len() ==> #[trigger] comps[k].len() == 1,
        comps.flatten() =~= Seq::new(comps.len(), |k: int| comps[k][0]),
        comps.flatten().no_duplicates(),
        !has_cycle(g),
        0 <= k1 < comps.len(),
        0 <= k2 < comps.len(),
        has_edge(g, comps[k1][0] as int, comps[k2][0] as int),
    ensures
        k2 < k1,
{
    let f = comps.flatten();
    let x = comps[k1][0];
    let y = comps[k2][0];
    assert(comps[k1].contains(x));
    let k3 = choose|k3: int| 0 <= k3 <= k1 && #[trigger] comps[k3].contains(y);
    let a = choose|a: int| 0 <= a < comps[k3].len() && comps[k3][a] == y;
    assert(f[k3] == y);
    assert(f[k2] == y);
    if k1 == k2 {
        let c = seq![x, x];
        assert(has_edge(g, c[0] as int, c[1] as int));
        assert(is_cycle(g, c));
    }
}

} // verus!

//! Topological sorting with Kahn's algorithm.
use vstd::prelude::*;

use crate::graph::Graph;
use crate::lemmas::{
    lemma_cover_len_bound, lemma_distinct_len_bound, lemma_missing_value, lemma_prefix_contains,
    lemma_push_contains,
};
use crate::spec::{
    count_in, edges_into, has_cycle, has_edge, in_degree, is_cycle, is_kahn_order, is_last_edge_into,
    is_topological_order, is_walk, kahn_witness, lex_lt, valid_adj,
};

verus! {

/// Counting one more element of `row`.
proof fn lemma_count_take_step(row: Seq<usize>, j: int, v: int)
    requires
        0 <= j < row.len(),
    ensures
        count_in(row.take(j + 1), v) == count_in(row.take(j), v) + if row[j] == v {
            1nat
        } else {
            0nat
        },
{
    assert(row.take(j + 1).drop_last() =~= row.take(j));
}

/// A prefix holds no more occurrences than the whole.
proof fn lemma_count_take_le(row: Seq<usize>, j: int, v: int)
    requires
        0 <= j <= row.len(),
    ensures
        count_in(row.take(j), v) <= count_in(row, v),
    decreases row.len() - j,
{
    if j == row.len() {
        assert(row.take(j) =~= row);
    } else {
        lemma_count_take_step(row, j, v);
        lemma_count_take_le(row, j + 1, v);
    }
}

/// `v` occurs in `row` exactly when its count is positive.
proof fn lemma_count_pos(row: Seq<usize>, v: int)
    ensures
        count_in(row, v) > 0 <==> exists|j: int| 0 <= j < row.len() && row[j] == v,
    decreases row.len(),
{
    if row.len() > 0 {
        let r = row.drop_last();
        lemma_count_pos(r, v);
        if exists|j: int| 0 <= j < r.len() && r[j] == v {
            let j = choose|j: int| 0 <= j < r.len() && r[j] == v;
            assert(row[j] == v);
        }
        if exists|j: int| 0 <= j < row.len() && row[j] == v {
            let j = choose|j: int| 0 <= j < row.len() && row[j] == v;
            if j < r.len() {
                assert(r[j] == v);
            }
        }
    }
}

/// The count depends only on which nodes below `m` are excluded.
proof fn lemma_edges_into_same(g: Seq<Seq<usize>>, v: int, ex1: Seq<usize>, ex2: Seq<usize>, m: int)
    requires
        m <= usize::MAX + 1,
        forall|w: usize| w < m ==> (#[trigger] ex1.contains(w) <==> ex2.contains(w)),
    ensures
        edges_into(g, v, ex1, m) == edges_into(g, v, ex2, m),
    decreases m,
{
    if m > 0 {
        lemma_edges_into_same(g, v, ex1, ex2, m - 1);
    }
}

/// Excluding one more node removes exactly its edges from the count.
proof fn lemma_edges_into_exclude(g: Seq<Seq<usize>>, v: int, ex: Seq<usize>, u: int, m: int)
    requires
        0 <= u < m <= usize::MAX + 1,
        !ex.contains(u as usize),
    ensures
        edges_into(g, v, ex.push(u as usize), m) + count_in(g[u], v) == edges_into(g, v, ex, m),
    decreases m,
{
    lemma_push_contains(ex, u as usize, (m - 1) as usize);
    if m - 1 == u {
        assert forall|w: usize| w < m - 1 implies (#[trigger] ex.push(u as usize).contains(w)
            <==> ex.contains(w)) by {
            lemma_push_contains(ex, u as usize, w);
        }
        lemma_edges_into_same(g, v, ex.push(u as usize), ex, m - 1);
    } else {
        lemma_edges_into_exclude(g, v, ex, u, m - 1);
    }
}

/// Counts only grow with the range of sources.
proof fn lemma_edges_into_mono(g: Seq<Seq<usize>>, v: int, ex: Seq<usize>, m1: int, m2: int)
    requires
        m1 <= m2,
    ensures
        edges_into(g, v, ex, m1) <= edges_into(g, v, ex, m2),
    decreases m2 - m1,
{
    if m1 < m2 {
        lemma_edges_into_mono(g, v, ex, m1, m2 - 1);
    }
}

/// With a zero count, no counted source has an edge into `v`.
proof fn lemma_edges_into_zero(g: Seq<Seq<usize>>, v: int, ex: Seq<usize>, m: int, u: int)
    requires
        edges_into(g, v, ex, m) == 0,
        0 <= u < m,
        !ex.contains(u as usize),
    ensures
        !(exists|j: int| 0 <= j < g[u].len() && g[u][j] == v),
    decreases m,
{
    lemma_count_pos(g[u], v);
    if u < m - 1 {
        lemma_edges_into_zero(g, v, ex, m - 1, u);
    }
}

/// With a positive count, some counted source has an edge into `v`.
proof fn lemma_edges_into_pos(g: Seq<Seq<usize>>, v: int, ex: Seq<usize>, m: int) -> (u: int)
    requires
        edges_into(g, v, ex, m) > 0,
    ensures
        0 <= u < m,
        !ex.contains(u as usize),
        exists|j: int| 0 <= j < g[u].len() && g[u][j] == v,
    decreases m,
{
    if edges_into(g, v, ex, m - 1) > 0 {
        lemma_edges_into_pos(g, v, ex, m - 1)
    } else {
        lemma_count_pos(g[m - 1], v);
        m - 1
    }
}

/// Some node outside `placed` with an edge into `x`.
spec fn pred_outside(g: Seq<Seq<usize>>, placed: Seq<usize>, x: int) -> int {
    choose|u: int| 0 <= u < g.len() && !placed.contains(u as usize) && #[trigger] has_edge(g, u, x)
}

/// Walk backwards from `x0` along `pred_outside`, `i` steps.
spec fn walk_back(g: Seq<Seq<usize>>, placed: Seq<usize>, x0: int, i: nat) -> int
    decreases i,
{
    if i == 0 {
        x0
    } else {
        pred_outside(g, placed, walk_back(g, placed, x0, (i - 1) as nat))
    }
}

/// Some node outside `placed` has an edge into `x`.
spec fn has_pred_outside(g: Seq<Seq<usize>>, placed: Seq<usize>, x: int) -> bool {
    exists|u: int| 0 <= u < g.len() && !placed.contains(u as usize) && #[trigger] has_edge(g, u, x)
}

/// Every node outside `placed` has a predecessor outside `placed`.
spec fn preds_stay_outside(g: Seq<Seq<usize>>, placed: Seq<usize>) -> bool {
    forall|x: int|
        0 <= x < g.len() && !placed.contains(x as usize) ==> #[trigger] has_pred_outside(g, placed, x)
}

/// Each step of the walk back stays outside `placed` and follows an edge.
proof fn lemma_walk_back(g: Seq<Seq<usize>>, placed: Seq<usize>, x0: int, i: nat)
    requires
        preds_stay_outside(g, placed),
        0 <= x0 < g.len(),
        !placed.contains(x0 as usize),
    ensures
        0 <= walk_back(g, placed, x0, i) < g.len(),
        !placed.contains(walk_back(g, placed, x0, i) as usize),
        i > 0 ==> has_edge(
            g,
            walk_back(g, placed, x0, i),
            walk_back(g, placed, x0, (i - 1) as nat),
        ),
    decreases i,
{
    if i > 0 {
        lemma_walk_back(g, placed, x0, (i - 1) as nat);
        assert(has_pred_outside(g, placed, walk_back(g, placed, x0, (i - 1) as nat)));
    }
}

/// If every node outside `placed` has a predecessor outside it, and some node
/// is outside it, the graph has a cycle.
proof fn lemma_cycle_outside(g: Seq<Seq<usize>>, placed: Seq<usize>, x0: int)
    requires
        g.len() <= usize::MAX,
        preds_stay_outside(g, placed),
        0 <= x0 < g.len(),
        !placed.contains(x0 as usize),
    ensures
        has_cycle(g),
{
    let n = g.len();
    let s = Seq::new(n + 1, |i: int| walk_back(g, placed, x0, i as nat) as usize);
    assert forall|i: int| 0 <= i < s.len() implies #[trigger] s[i] < n by {
        lemma_walk_back(g, placed, x0, i as nat);
    }
    if s.no_duplicates() {
        lemma_distinct_len_bound(s, n);
    }
    let (i, j) = choose|i: int, j: int| 0 <= i < s.len() && 0 <= j < s.len() && i != j && s[i] == s[j];
    let a = if i < j { i } else { j };
    let b = if i < j { j } else { i };
    let p = Seq::new((b - a + 1) as nat, |m: int| s[b - m]);
    assert forall|m: int| 0 <= m < p.len() - 1 implies has_edge(g, #[trigger] p[m] as int, p[m + 1] as int) by {
        lemma_walk_back(g, placed, x0, (b - m) as nat);
        lemma_walk_back(g, placed, x0, (b - m - 1) as nat);
    }
    assert(is_cycle(g, p));
}

/// A graph with a topological order has no cycle.
pub proof fn lemma_topological_order_acyclic(g: Seq<Seq<usize>>, order: Seq<usize>)
    requires
        valid_adj(g),
        is_topological_order(g, order),
    ensures
        !has_cycle(g),
{
    if has_cycle(g) {
        let p = choose|p: Seq<usize>| #[trigger] is_cycle(g, p);
        let pos = |x: usize| choose|i: int| 0 <= i < order.len() && order[i] == x;
        assert forall|m: int| 1 <= m < p.len() implies pos(p[m - 1]) < pos(#[trigger] p[m]) by {
            assert(has_edge(g, p[m - 1] as int, p[m] as int));
            let u = p[m - 1] as int;
            let e = choose|e: int| 0 <= e < g[u].len() && g[u][e] == p[m];
            assert(p[m] < g.len());
            assert(order.contains(p[m - 1]));
            assert(order.contains(p[m]));
        }
        assert forall|m: int| 1 <= m < p.len() implies pos(p[0]) < pos(#[trigger] p[m]) by {
            lemma_walk_rises(p, pos, m);
        }
    }
}

/// Along a sequence whose positions strictly rise step by step, they rise overall.
proof fn lemma_walk_rises(p: Seq<usize>, pos: spec_fn(usize) -> int, m: int)
    requires
        1 <= m < p.len(),
        forall|k: int| 1 <= k < p.len() ==> pos(p[k - 1]) < pos(#[trigger] p[k]),
    ensures
        pos(p[0]) < pos(p[m]),
    decreases m,
{
    if m > 1 {
        lemma_walk_rises(p, pos, m - 1);
    }
    assert(pos(p[m - 1]) < pos(p[m]));
}

/// After a row's prefix up to `j` holds every occurrence of `v`, none follows.
proof fn lemma_count_full_no_later(row: Seq<usize>, j: int, v: int)
    requires
        0 <= j < row.len(),
        count_in(row.take(j + 1), v) == count_in(row, v),
    ensures
        forall|j2: int| j < j2 < row.len() ==> row[j2] != v,
{
    assert forall|j2: int| j < j2 < row.len() implies row[j2] != v by {
        if row[j2] == v {
            lemma_count_take_step(row, j2, v);
            lemma_count_take_le(row.take(j2), j + 1, v);
            assert(row.take(j2).take(j + 1) =~= row.take(j + 1));
            lemma_count_take_le(row, j2 + 1, v);
        }
    }
}

/// The facts about the queue of Kahn's algorithm that pin down its order:
/// the first `m` entries are the nodes without incoming edges, by increasing
/// index; each later entry `k` was released by edge `rj[k]` of the node at
/// position `rh[k]`, which is its last incoming edge; and releases come in
/// increasing order.
spec fn release_facts(g: Seq<Seq<usize>>, q: Seq<usize>, m: int, rh: Seq<int>, rj: Seq<int>) -> bool {
    &&& 0 <= m <= q.len()
    &&& rh.len() == q.len()
    &&& rj.len() == q.len()
    &&& forall|k: int| 0 <= k < m ==> in_degree(g, #[trigger] q[k] as int) == 0
    &&& forall|k: int| m <= k < q.len() ==> in_degree(g, #[trigger] q[k] as int) > 0
    &&& forall|a: int, b: int| 0 <= a < b < m ==> #[trigger] q[a] < #[trigger] q[b]
    &&& forall|k: int|
        m <= k < q.len() ==> 0 <= #[trigger] rh[k] < k && 0 <= rj[k] < g[q[rh[k]] as int].len() && g[q[rh[k]]
            as int][rj[k]] == q[k]
    &&& forall|k: int, w: int|
        m <= k < q.len() && #[trigger] has_edge(g, w, q[k] as int) ==> q.take(rh[k] + 1).contains(w as usize)
    &&& forall|k: int, j2: int|
        m <= k < q.len() && rj[k] < j2 < g[q[rh[k]] as int].len() ==> #[trigger] g[q[rh[k]] as int][j2] != q[k]
    &&& forall|k: int, k2: int| m <= k < k2 < q.len() ==> lex_lt(#[trigger] rh[k], rj[k], #[trigger] rh[k2], rj[k2])
}

/// Every release so far comes before edge `j` of position `h`.
spec fn releases_before(rh: Seq<int>, rj: Seq<int>, m: int, len: int, h: int, j: int) -> bool {
    forall|k: int| m <= k < len ==> lex_lt(#[trigger] rh[k], rj[k], h, j)
}

/// Releasing `t` by edge `j` of the node at position `h` extends the facts.
proof fn lemma_release_push(
    g: Seq<Seq<usize>>,
    q: Seq<usize>,
    m: int,
    rh: Seq<int>,
    rj: Seq<int>,
    h: int,
    j: int,
    t: usize,
)
    requires
        release_facts(g, q, m, rh, rj),
        releases_before(rh, rj, m, q.len() as int, h, j),
        0 <= h < q.len(),
        0 <= j < g[q[h] as int].len(),
        g[q[h] as int][j] == t,
        in_degree(g, t as int) > 0,
        forall|w: int| #[trigger] has_edge(g, w, t as int) ==> q.take(h + 1).contains(w as usize),
        forall|j2: int| j < j2 < g[q[h] as int].len() ==> g[q[h] as int][j2] != t,
    ensures
        release_facts(g, q.push(t), m, rh.push(h), rj.push(j)),
        releases_before(rh.push(h), rj.push(j), m, (q.len() + 1) as int, h, j + 1),
{
    let q1 = q.push(t);
    let rh1 = rh.push(h);
    let rj1 = rj.push(j);
    assert forall|k: int| 0 <= k < q.len() implies #[trigger] q1[k] == q[k] && rh1[k] == rh[k] && rj1[k] == rj[k] by {}
    assert forall|k: int, w: int|
        m <= k < q1.len() && #[trigger] has_edge(g, w, q1[k] as int) implies q1.take(rh1[k] + 1).contains(w as usize) by {
        if k < q.len() {
            assert(q.take(rh[k] + 1).contains(w as usize));
            assert(q1.take(rh1[k] + 1) =~= q.take(rh[k] + 1));
        } else {
            assert(q.take(h + 1).contains(w as usize));
            assert(q1.take(h + 1) =~= q.take(h + 1));
        }
    }
    assert(release_facts(g, q1, m, rh1, rj1));
}

/// The facts gathered by the queue, once it holds every node, say it is the
/// order of Kahn's algorithm.
proof fn lemma_release_facts_kahn(g: Seq<Seq<usize>>, q: Seq<usize>, m: int, rh: Seq<int>, rj: Seq<int>)
    requires
        release_facts(g, q, m, rh, rj),
        q.no_duplicates(),
        forall|i: int| 0 <= i < q.len() ==> #[trigger] q[i] < g.len(),
    ensures
        is_kahn_order(g, q),
{
    assert forall|k: int| m <= k < q.len() implies is_last_edge_into(g, q, k, #[trigger] rh[k], rj[k]) by {
        assert forall|h2: int, j2: int|
            0 <= h2 < q.len() && 0 <= j2 < g[q[h2] as int].len() && #[trigger] g[q[h2] as int][j2] == q[k] implies h2
            < rh[k] || (h2 == rh[k] && j2 <= rj[k]) by {
            assert(has_edge(g, q[h2] as int, q[k] as int));
            let pre = q.take(rh[k] + 1);
            assert(pre.contains(q[h2]));
            let p = choose|p: int| 0 <= p < pre.len() && pre[p] == q[h2];
            assert(q[p] == q[h2]);
        }
    }
    assert(kahn_witness(g, q, m, rh, rj));
}

/// Topological sort using Kahn's algorithm.
///
/// Returns `None` if the graph contains a cycle.
/// Otherwise returns nodes in topological order.
pub fn topological_sort(graph: &Graph) -> (result: Option<Vec<usize>>)
    requires
        graph.wf(),
        forall|v: int| 0 <= v < graph.node_count ==> #[trigger] in_degree(graph@, v) <= usize::MAX,
    ensures
        result is Some <==> !has_cycle(graph@),
        result matches Some(order) ==> is_topological_order(graph@, order@) && is_kahn_order(
            graph@,
            order@,
        ),
{
    let n = graph.node_count;
    let ghost g = graph@;
    let ghost none = Seq::<usize>::empty();
    let mut indeg: Vec<usize> = vec![0; n];
    let mut u: usize = 0;
    while u < n
        invariant
            graph.wf(),
            g == graph@,
            n == graph.node_count,
            u <= n,
            none == Seq::<usize>::empty(),
            indeg@.len() == n,
            forall|v: int| 0 <= v < n ==> #[trigger] in_degree(g, v) <= usize::MAX,
            forall|x: int| 0 <= x < n ==> #[trigger] indeg@[x] == edges_into(g, x, none, u as int),
        decreases n - u,
    {
        let row = &graph.adj[u];
        let mut j: usize = 0;
        while j < row.len()
            invariant
                graph.wf(),
                g == graph@,
                n == graph.node_count,
                u < n,
                none == Seq::<usize>::empty(),
                row@ == graph.adj@[u as int]@,
                j <= row@.len(),
                indeg@.len() == n,
                forall|v: int| 0 <= v < n ==> #[trigger] in_degree(g, v) <= usize::MAX,
                forall|x: int|
                    0 <= x < n ==> #[trigger] indeg@[x] == edges_into(g, x, none, u as int) + count_in(
                        g[u as int].take(j as int),
                        x,
                    ),
            decreases row@.len() - j,
        {
            let t = row[j].to;
            proof {
                assert(t == g[u as int][j as int]);
                assert forall|x: int| 0 <= x < n implies count_in(g[u as int].take(j + 1), x)
                    == count_in(g[u as int].take(j as int), x) + if g[u as int][j as int] == x {
                    1nat
                } else {
                    0nat
                } by {
                    lemma_count_take_step(g[u as int], j as int, x);
                }
                lemma_count_take_le(g[u as int], j + 1, t as int);
                assert(!none.contains(u));
                assert(edges_into(g, t as int, none, u + 1) == edges_into(g, t as int, none, u as int)
                    + count_in(g[u as int], t as int));
                lemma_edges_into_mono(g, t as int, none, u + 1, n as int);
                assert(in_degree(g, t as int) <= usize::MAX);
            }
            indeg.set(t, indeg[t] + 1);
            j = j + 1;
        }
        proof {
            assert(g[u as int].take(g[u as int].len() as int) =~= g[u as int]);
            assert(!none.contains(u));
        }
        u = u + 1;
    }
    let mut queue: Vec<usize> = Vec::new();
    let mut v: usize = 0;
    while v < n
        invariant
            graph.wf(),
            g == graph@,
            n == graph.node_count,
            v <= n,
            none == Seq::<usize>::empty(),
            indeg@.len() == n,
            forall|x: int| 0 <= x < n ==> #[trigger] indeg@[x] == edges_into(g, x, none, n as int),
            queue@.no_duplicates(),
            forall|k: int| 0 <= k < queue@.len() ==> #[trigger] queue@[k] < v,
            forall|x: usize| x < n ==> (#[trigger] queue@.contains(x) <==> (x < v && indeg@[x as int] == 0)),
            forall|a: int, b: int| 0 <= a < b < queue@.len() ==> #[trigger] queue@[a] < #[trigger] queue@[b],
        decreases n - v,
    {
        if indeg[v] == 0 {
            proof {
                assert(!queue@.contains(v));
                assert forall|x: usize| x < n implies (#[trigger] queue@.push(v).contains(x) <==> (x < v + 1
                    && indeg@[x as int] == 0)) by {
                    lemma_push_contains(queue@, v, x);
                }
            }
            queue.push(v);
        } else {
            proof {
                assert forall|x: usize| x < n implies (#[trigger] queue@.contains(x) <==> (x < v + 1
                    && indeg@[x as int] == 0)) by {}
            }
        }
        v = v + 1;
    }
    proof {
        assert forall|k: int, w: int|
            0 <= k < queue@.len() && #[trigger] has_edge(g, w, queue@[k] as int) implies queue@.take(k).contains(w as usize) by {
            let x = queue@[k] as int;
            assert(queue@.contains(queue@[k]));
            let e = choose|e: int| 0 <= e < g[w].len() && g[w][e] == x;
            lemma_edges_into_zero(g, x, none, n as int, w);
        }
    }
    let ghost m = queue@.len() as int;
    let ghost mut rh: Seq<int> = Seq::new(m as nat, |k: int| 0);
    let ghost mut rj: Seq<int> = Seq::new(m as nat, |k: int| 0);
    proof {
        assert(queue@.take(0) =~= none);
        assert forall|k: int| 0 <= k < m implies in_degree(g, #[trigger] queue@[k] as int) == 0 by {
            assert(queue@.contains(queue@[k]));
        }
        assert(release_facts(g, queue@, m, rh, rj));
    }
    let mut head: usize = 0;
    while head < queue.len()
        invariant
            graph.wf(),
            g == graph@,
            n == graph.node_count,
            indeg@.len() == n,
            head <= queue@.len(),
            queue@.no_duplicates(),
            forall|k: int| 0 <= k < queue@.len() ==> #[trigger] queue@[k] < n,
            forall|x: int| 0 <= x < n ==> #[trigger] indeg@[x] == edges_into(g, x, queue@.take(head as int), n as int),
            forall|x: usize| x < n ==> (#[trigger] queue@.contains(x) <==> indeg@[x as int] == 0),
            forall|k: int, w: int|
                0 <= k < queue@.len() && #[trigger] has_edge(g, w, queue@[k] as int) ==> queue@.take(k).contains(w as usize),
            release_facts(g, queue@, m, rh, rj),
            releases_before(rh, rj, m, queue@.len() as int, head as int, 0),
        decreases n - head,
    {
        proof {
            lemma_distinct_len_bound(queue@, n as nat);
        }
        let u = queue[head];
        let ghost done = queue@.take(head as int);
        proof {
            assert(!done.contains(u)) by {
                if done.contains(u) {
                    let i = choose|i: int| 0 <= i < done.len() && done[i] == u;
                    assert(queue@[i] == queue@[head as int]);
                }
            }
            assert forall|x: int| 0 <= x < n implies edges_into(g, x, done.push(u), n as int) + count_in(g[u as int], x)
                == edges_into(g, x, done, n as int) by {
                lemma_edges_into_exclude(g, x, done, u as int, n as int);
            }
            assert(queue@.take(head + 1) =~= done.push(u));
        }
        let row = &graph.adj[u];
        let mut j: usize = 0;
        while j < row.len()
            invariant
                graph.wf(),
                g == graph@,
                n == graph.node_count,
                u < n,
                row@ == graph.adj@[u as int]@,
                j <= row@.len(),
                indeg@.len() == n,
                head < queue@.len(),
                queue@[head as int] == u,
                done == queue@.take(head as int),
                !done.contains(u),
                queue@.take(head + 1) == done.push(u),
                queue@.no_duplicates(),
                forall|k: int| 0 <= k < queue@.len() ==> #[trigger] queue@[k] < n,
                forall|x: int|
                    0 <= x < n ==> edges_into(g, x, done.push(u), n as int) + count_in(g[u as int], x)
                        == #[trigger] edges_into(g, x, done, n as int),
                forall|x: int|
                    0 <= x < n ==> #[trigger] indeg@[x] + count_in(g[u as int].take(j as int), x)
                        == edges_into(g, x, done, n as int),
                forall|x: usize| x < n ==> (#[trigger] queue@.contains(x) <==> indeg@[x as int] == 0),
                forall|k: int, w: int|
                    0 <= k < queue@.len() && #[trigger] has_edge(g, w, queue@[k] as int) ==> queue@.take(k).contains(w as usize),
                release_facts(g, queue@, m, rh, rj),
                releases_before(rh, rj, m, queue@.len() as int, head as int, j as int),
            decreases row@.len() - j,
        {
            let t = row[j].to;
            proof {
                assert(t == g[u as int][j as int]);
                assert forall|x: int| 0 <= x < n implies count_in(g[u as int].take(j + 1), x)
                    == count_in(g[u as int].take(j as int), x) + if g[u as int][j as int] == x {
                    1nat
                } else {
                    0nat
                } by {
                    lemma_count_take_step(g[u as int], j as int, x);
                }
                lemma_count_take_le(g[u as int], j + 1, t as int);
                assert(indeg@[t as int] >= 1);
            }
            indeg.set(t, indeg[t] - 1);
            if indeg[t] == 0 {
                let ghost before = queue@;
                proof {
                    assert(!before.contains(t)) by {
                        if before.contains(t) {
                            assert(indeg@[t as int] + 1 == 0);
                        }
                    }
                    // every other source of an edge into t is already placed
                    assert(edges_into(g, t as int, done.push(u), n as int) == 0) by {
                        lemma_count_take_le(g[u as int], j + 1, t as int);
                    }
                    assert forall|w: int| #[trigger] has_edge(g, w, t as int) implies before.take(
                        before.len() as int,
                    ).contains(w as usize) by {
                        if !done.push(u).contains(w as usize) {
                            let e = choose|e: int| 0 <= e < g[w].len() && g[w][e] == t;
                            lemma_edges_into_zero(g, t as int, done.push(u), n as int, w);
                        }
                        lemma_prefix_contains(done.push(u), before, w as usize);
                        assert(before.take(before.len() as int) =~= before);
                    }
                    lemma_distinct_len_bound(before, n as nat);
                    assert forall|w: int| #[trigger] has_edge(g, w, t as int) implies before.take(head + 1).contains(
                        w as usize,
                    ) by {
                        if !done.push(u).contains(w as usize) {
                            let e = choose|e: int| 0 <= e < g[w].len() && g[w][e] == t;
                            lemma_edges_into_zero(g, t as int, done.push(u), n as int, w);
                        }
                    }
                    lemma_count_take_le(g[u as int], j + 1, t as int);
                    lemma_count_full_no_later(g[u as int], j as int, t as int);
                    assert(in_degree(g, t as int) > 0) by {
                        lemma_edges_into_exclude(g, t as int, Seq::empty(), u as int, n as int);
                    }
                    lemma_release_push(g, before, m, rh, rj, head as int, j as int, t);
                    rh = rh.push(head as int);
                    rj = rj.push(j as int);
                }
                queue.push(t);
                proof {
                    assert(queue@[before.len() as int] == t);
                    assert(queue@.take(before.len() as int) =~= before);
                    assert forall|x: usize| x < n implies (#[trigger] queue@.contains(x) <==> indeg@[x as int] == 0) by {
                        lemma_push_contains(before, t, x);
                    }
                    assert forall|k: int, w: int|
                        0 <= k < queue@.len() && #[trigger] has_edge(g, w, queue@[k] as int) implies queue@.take(k).contains(
                            w as usize,
                        ) by {
                        if k < before.len() {
                            assert(queue@.take(k) =~= before.take(k));
                            assert(queue@[k] == before[k]);
                        }
                    }
                    assert(queue@.take(head as int) =~= done);
                    assert(queue@.take(head + 1) =~= done.push(u));
                }
            } else {
                proof {
                    assert forall|x: usize| x < n implies (#[trigger] queue@.contains(x) <==> indeg@[x as int] == 0) by {
                        if x == t {
                            assert(!queue@.contains(t)) by {
                                if queue@.contains(t) {
                                    assert(indeg@[t as int] + 1 == 0);
                                }
                            }
                        }
                    }
                }
            }
            j = j + 1;
        }
        proof {
            assert(g[u as int].take(g[u as int].len() as int) =~= g[u as int]);
            assert(releases_before(rh, rj, m, queue@.len() as int, head + 1, 0));
        }
        head = head + 1;
    }
    proof {
        assert(queue@.take(queue@.len() as int) =~= queue@);
        lemma_distinct_len_bound(queue@, n as nat);
    }
    if queue.len() == n {
        proof {
            assert forall|v: usize| v < n implies #[trigger] queue@.contains(v) by {
                if !queue@.contains(v) {
                    lemma_missing_value(queue@, n as nat, v);
                }
            }
            assert forall|i: int, j: int|
                0 <= i < queue@.len() && 0 <= j < queue@.len() && has_edge(
                    g,
                    #[trigger] queue@[i] as int,
                    #[trigger] queue@[j] as int,
                ) implies i < j by {
                assert(queue@.take(j).contains(queue@[i]));
                let p = choose|p: int| 0 <= p < j && queue@.take(j)[p] == queue@[i];
                assert(queue@[p] == queue@[i]);
            }
            assert(is_topological_order(g, queue@));
            lemma_topological_order_acyclic(g, queue@);
            lemma_release_facts_kahn(g, queue@, m, rh, rj);
        }
        Some(queue)
    } else {
        proof {
            assert(exists|x: usize| x < n && !queue@.contains(x)) by {
                if forall|x: usize| x < n ==> #[trigger] queue@.contains(x) {
                    lemma_cover_len_bound(queue@, n as nat);
                }
            }
            let x0 = choose|x: usize| x < n && !queue@.contains(x);
            assert forall|x: int| 0 <= x < g.len() && !queue@.contains(x as usize) implies #[trigger] has_pred_outside(
                g,
                queue@,
                x,
            ) by {
                assert(indeg@[x] != 0);
                let w = lemma_edges_into_pos(g, x, queue@, n as int);
                assert(has_edge(g, w, x));
            }
            lemma_cycle_outside(g, queue@, x0 as int);
        }
        None
    }
}

} // verus!

//! Breadth-first and depth-first traversals.
use vstd::prelude::*;

use crate::graph::Graph;
use crate::lemmas::{lemma_distinct_len_bound, lemma_prefix_contains, lemma_prefix_no_unseen};
use crate::spec::{
    bfs_next, closed, dfs_next, first_unseen_succ, has_edge, has_unseen_succ, is_bfs_order,
    is_dfs_order, has_hop_distance, is_hop_distance, reach_within, reachable, valid_adj,
};

verus! {

/// Breadth-first search returning visitation order from `start`.
///
/// Returns a vector of node indices in BFS order.
pub fn bfs(graph: &Graph, start: usize) -> (order: Vec<usize>)
    requires
        graph.wf(),
        start < graph.node_count,
    ensures
        is_bfs_order(graph@, start as int, order@),
{
    let n = graph.node_count;
    let ghost g = graph@;
    let mut visited: Vec<bool> = vec![false; n];
    let mut order: Vec<usize> = Vec::new();
    visited.set(start, true);
    order.push(start);
    proof {
        assert(order@ =~= seq![start]);
        assert forall|v: int| 0 <= v < n implies (visited@[v] <==> order@.contains(v as usize)) by {
            if v == start {
                assert(order@[0] == start);
            }
        }
    }
    let mut head: usize = 0;
    while head < order.len()
        invariant
            graph.wf(),
            g == graph@,
            n == graph.node_count,
            visited@.len() == n,
            0 < order@.len(),
            order@[0] == start,
            head <= order@.len(),
            order@.no_duplicates(),
            forall|k: int| 0 <= k < order@.len() ==> #[trigger] order@[k] < n,
            forall|v: int| 0 <= v < n ==> (visited@[v] <==> order@.contains(v as usize)),
            forall|k: int|
                1 <= k < order@.len() ==> bfs_next(g, order@.take(k), #[trigger] order@[k] as int),
            forall|k: int| 0 <= k < head ==> !has_unseen_succ(g, order@, #[trigger] order@[k] as int),
        decreases n - head,
    {
        proof {
            lemma_distinct_len_bound(order@, n as nat);
        }
        let u = order[head];
        let row = &graph.adj[u];
        let mut j: usize = 0;
        while j < row.len()
            invariant
                graph.wf(),
                g == graph@,
                n == graph.node_count,
                row@ == graph.adj@[u as int]@,
                u < n,
                visited@.len() == n,
                0 < order@.len(),
                order@[0] == start,
                head < order@.len(),
                order@[head as int] == u,
                order@.no_duplicates(),
                forall|k: int| 0 <= k < order@.len() ==> #[trigger] order@[k] < n,
                forall|v: int| 0 <= v < n ==> (visited@[v] <==> order@.contains(v as usize)),
                forall|k: int|
                    1 <= k < order@.len() ==> bfs_next(g, order@.take(k), #[trigger] order@[k] as int),
                forall|k: int| 0 <= k < head ==> !has_unseen_succ(g, order@, #[trigger] order@[k] as int),
                forall|i: int| 0 <= i < j ==> order@.contains(#[trigger] g[u as int][i]),
            decreases row@.len() - j,
        {
            let w = row[j].to;
            assert(w == g[u as int][j as int]);
            if !visited[w] {
                let ghost old_order = order@;
                visited.set(w, true);
                order.push(w);
                proof {
                    assert(order@[old_order.len() as int] == w);
                    assert forall|v: int| 0 <= v < n implies (visited@[v] <==> order@.contains(
                        v as usize,
                    )) by {
                        if old_order.contains(v as usize) {
                            let i = choose|i: int| 0 <= i < old_order.len() && old_order[i] == v;
                            assert(order@[i] == v);
                        }
                        if order@.contains(v as usize) && v != w {
                            let i = choose|i: int| 0 <= i < order@.len() && order@[i] == v;
                            assert(old_order[i] == v);
                        }
                    }
                    assert(order@.take(old_order.len() as int) =~= old_order);
                    assert forall|k: int| 1 <= k < order@.len() implies bfs_next(
                        g,
                        order@.take(k),
                        #[trigger] order@[k] as int,
                    ) by {
                        if k < old_order.len() {
                            assert(order@.take(k) =~= old_order.take(k));
                        } else {
                            assert(has_unseen_succ(g, old_order, old_order[head as int] as int));
                            assert(first_unseen_succ(g, old_order, old_order[head as int] as int, w as int));
                        }
                    }
                    assert forall|k: int| 0 <= k < head implies !has_unseen_succ(
                        g,
                        order@,
                        #[trigger] order@[k] as int,
                    ) by {
                        assert(!has_unseen_succ(g, old_order, old_order[k] as int));
                        assert forall|i: int| 0 <= i < g[order@[k] as int].len() implies order@.contains(
                            #[trigger] g[order@[k] as int][i],
                        ) by {
                            assert(old_order.contains(g[order@[k] as int][i]));
                        }
                    }
                }
            }
            assert(order@.contains(g[u as int][j as int]));
            j = j + 1;
        }
        head = head + 1;
    }
    order
}

/// Depth-first search returning visitation order from `start`.
///
/// Returns nodes in DFS preorder.
pub fn dfs(graph: &Graph, start: usize) -> (order: Vec<usize>)
    requires
        graph.wf(),
        start < graph.node_count,
    ensures
        is_dfs_order(graph@, start as int, order@),
{
    let n = graph.node_count;
    let mut visited: Vec<bool> = vec![false; n];
    let mut order: Vec<usize> = Vec::new();
    proof {
        assert forall|v: int| 0 <= v < n implies (visited@[v] <==> order@.contains(v as usize)) by {}
    }
    dfs_recursive(graph, start, &mut visited, &mut order);
    order
}

/// Visit `node`, then, in edge order, every successor not visited yet.
///
/// `node` must be the depth-first choice after the nodes already in `order`
/// (or the start, when `order` is empty). On return `order` has grown by
/// `node` and the nodes visited below it, all of whose successors are visited.
fn dfs_recursive(graph: &Graph, node: usize, visited: &mut Vec<bool>, order: &mut Vec<usize>)
    requires
        graph.wf(),
        node < graph.node_count,
        old(visited)@.len() == graph.node_count,
        old(order)@.no_duplicates(),
        forall|k: int| 0 <= k < old(order)@.len() ==> #[trigger] old(order)@[k] < graph.node_count,
        forall|v: int|
            0 <= v < graph.node_count ==> (old(visited)@[v] <==> old(order)@.contains(v as usize)),
        forall|k: int|
            1 <= k < old(order)@.len() ==> dfs_next(
                graph@,
                old(order)@.take(k),
                #[trigger] old(order)@[k] as int,
            ),
        !old(order)@.contains(node),
        old(order)@.len() > 0 ==> dfs_next(graph@, old(order)@, node as int),
    ensures
        final(visited)@.len() == graph.node_count,
        old(order)@.is_prefix_of(final(order)@),
        final(order)@.len() > old(order)@.len(),
        final(order)@[old(order)@.len() as int] == node,
        final(order)@.no_duplicates(),
        forall|k: int| 0 <= k < final(order)@.len() ==> #[trigger] final(order)@[k] < graph.node_count,
        forall|v: int|
            0 <= v < graph.node_count ==> (final(visited)@[v] <==> final(order)@.contains(v as usize)),
        forall|k: int|
            1 <= k < final(order)@.len() ==> dfs_next(
                graph@,
                final(order)@.take(k),
                #[trigger] final(order)@[k] as int,
            ),
        forall|k: int|
            old(order)@.len() <= k < final(order)@.len() ==> !has_unseen_succ(
                graph@,
                final(order)@,
                #[trigger] final(order)@[k] as int,
            ),
    decreases graph.node_count - old(order)@.len(),
{
    let n = graph.node_count;
    let ghost g = graph@;
    let ghost start_order = order@;
    visited.set(node, true);
    order.push(node);
    proof {
        assert(order@[start_order.len() as int] == node);
        assert(order@.take(start_order.len() as int) =~= start_order);
        assert forall|v: int| 0 <= v < n implies (visited@[v] <==> order@.contains(v as usize)) by {
            if start_order.contains(v as usize) {
                lemma_prefix_contains(start_order, order@, v as usize);
            }
            if order@.contains(v as usize) && v != node {
                let i = choose|i: int| 0 <= i < order@.len() && order@[i] == v;
                assert(start_order[i] == v);
            }
        }
        assert forall|k: int| 1 <= k < order@.len() implies dfs_next(
            g,
            order@.take(k),
            #[trigger] order@[k] as int,
        ) by {
            if k < start_order.len() {
                assert(order@.take(k) =~= start_order.take(k));
            }
        }
        lemma_distinct_len_bound(order@, n as nat);
    }
    let pos = order.len() - 1;
    let row = &graph.adj[node];
    let mut j: usize = 0;
    while j < row.len()
        invariant
            graph.wf(),
            g == graph@,
            n == graph.node_count,
            row@ == graph.adj@[node as int]@,
            node < n,
            visited@.len() == n,
            pos == start_order.len(),
            start_order == old(order)@,
            start_order.is_prefix_of(order@),
            pos < order@.len(),
            order@[pos as int] == node,
            order@.no_duplicates(),
            forall|k: int| 0 <= k < order@.len() ==> #[trigger] order@[k] < n,
            forall|v: int| 0 <= v < n ==> (visited@[v] <==> order@.contains(v as usize)),
            forall|k: int|
                1 <= k < order@.len() ==> dfs_next(g, order@.take(k), #[trigger] order@[k] as int),
            forall|k: int|
                pos < k < order@.len() ==> !has_unseen_succ(g, order@, #[trigger] order@[k] as int),
            forall|i: int| 0 <= i < j ==> order@.contains(#[trigger] g[node as int][i]),
        decreases row@.len() - j,
    {
        let w = row[j].to;
        assert(w == g[node as int][j as int]);
        if !visited[w] {
            let ghost before = order@;
            proof {
                assert(has_unseen_succ(g, before, before[pos as int] as int));
                assert(first_unseen_succ(g, before, before[pos as int] as int, w as int));
                assert(dfs_next(g, before, w as int));
                lemma_distinct_len_bound(before, n as nat);
                assert(before.len() <= n);
                assert(before.len() > start_order.len());
            }
            dfs_recursive(graph, w, visited, order);
            proof {
                assert(order@[before.len() as int] == w);
                assert forall|k: int| pos < k < order@.len() implies !has_unseen_succ(
                    g,
                    order@,
                    #[trigger] order@[k] as int,
                ) by {
                    if k < before.len() {
                        assert(order@[k] == before[k]);
                        lemma_prefix_no_unseen(g, before, order@, order@[k] as int);
                    }
                }
                assert forall|i: int| 0 <= i < j implies order@.contains(#[trigger] g[node as int][i]) by {
                    lemma_prefix_contains(before, order@, g[node as int][i]);
                }
                assert(start_order.is_prefix_of(order@));
            }
        }
        assert(order@.contains(g[node as int][j as int]));
        j = j + 1;
    }
}

/// BFS that computes shortest hop distances from `start`.
///
/// Returns a vector where `dist[v]` is the minimum number of edges from `start`
/// to `v`, or `None` if unreachable.
pub fn bfs_distances(graph: &Graph, start: usize) -> (dist: Vec<Option<usize>>)
    requires
        graph.wf(),
        start < graph.node_count,
    ensures
        dist@.len() == graph.node_count,
        forall|v: int|
            0 <= v < graph.node_count ==> (#[trigger] dist@[v] is None <==> !reachable(
                graph@,
                start as int,
                v,
            )),
        forall|v: int|
            0 <= v < graph.node_count && #[trigger] dist@[v] is Some ==> is_hop_distance(
                graph@,
                start as int,
                v,
                dist@[v].unwrap() as nat,
            ),
{
    let n = graph.node_count;
    let ghost g = graph@;
    let mut dist: Vec<Option<usize>> = vec![None; n];
    dist.set(start, Some(0));
    let mut queue: Vec<usize> = Vec::new();
    queue.push(start);
    proof {
        assert(queue@ =~= seq![start]);
        assert forall|v: int| 0 <= v < n implies (dist@[v] is Some <==> queue@.contains(v as usize)) by {
            if v == start {
                assert(queue@[0] == start);
            }
        }
    }
    let mut head: usize = 0;
    while head < queue.len()
        invariant
            graph.wf(),
            g == graph@,
            n == graph.node_count,
            dist@.len() == n,
            0 < queue@.len(),
            queue@[0] == start,
            dist@[start as int] == Some(0usize),
            head <= queue@.len(),
            queue@.no_duplicates(),
            forall|k: int| 0 <= k < queue@.len() ==> #[trigger] queue@[k] < n,
            forall|v: int| 0 <= v < n ==> (#[trigger] dist@[v] is Some <==> queue@.contains(v as usize)),
            forall|i: int|
                0 <= i < queue@.len() ==> dist@[#[trigger] queue@[i] as int].unwrap() <= i,
            forall|i: int, k: int|
                0 <= i <= k < queue@.len() ==> dist@[#[trigger] queue@[i] as int].unwrap()
                    <= dist@[#[trigger] queue@[k] as int].unwrap(),
            head < queue@.len() ==> dist@[queue@[queue@.len() - 1] as int].unwrap() <= dist@[queue@[head as int] as int].unwrap() + 1,
            forall|v: int|
                0 <= v < n && #[trigger] dist@[v] is Some ==> reach_within(
                    g,
                    start as int,
                    v,
                    dist@[v].unwrap() as nat,
                ),
            forall|i: int, e: int|
                0 <= i < head && 0 <= e < g[queue@[i] as int].len() ==> dist@[#[trigger] g[queue@[i] as int][e] as int] is Some
                    && dist@[g[queue@[i] as int][e] as int].unwrap() <= dist@[queue@[i] as int].unwrap() + 1,
        decreases n - head,
    {
        proof {
            lemma_distinct_len_bound(queue@, n as nat);
        }
        let u = queue[head];
        let d = match dist[u] {
            Some(d) => d,
            None => 0,
        };
        assert(dist@[u as int] == Some(d)) by {
            assert(queue@.contains(u));
        }
        let row = &graph.adj[u];
        let mut j: usize = 0;
        while j < row.len()
            invariant
                graph.wf(),
                g == graph@,
                n == graph.node_count,
                row@ == graph.adj@[u as int]@,
                u < n,
                dist@.len() == n,
                0 < queue@.len(),
                queue@[0] == start,
                dist@[start as int] == Some(0usize),
                head < queue@.len(),
                queue@[head as int] == u,
                dist@[u as int] == Some(d),
                d <= head,
                queue@.len() <= n,
                queue@.no_duplicates(),
                forall|k: int| 0 <= k < queue@.len() ==> #[trigger] queue@[k] < n,
                forall|v: int| 0 <= v < n ==> (#[trigger] dist@[v] is Some <==> queue@.contains(v as usize)),
                forall|i: int|
                    0 <= i < queue@.len() ==> dist@[#[trigger] queue@[i] as int].unwrap() <= i,
                forall|i: int, k: int|
                    0 <= i <= k < queue@.len() ==> dist@[#[trigger] queue@[i] as int].unwrap()
                        <= dist@[#[trigger] queue@[k] as int].unwrap(),
                dist@[queue@[queue@.len() - 1] as int].unwrap() <= d + 1,
                forall|v: int|
                    0 <= v < n && #[trigger] dist@[v] is Some ==> reach_within(
                        g,
                        start as int,
                        v,
                        dist@[v].unwrap() as nat,
                    ),
                forall|i: int, e: int|
                    0 <= i < head && 0 <= e < g[queue@[i] as int].len() ==> dist@[#[trigger] g[queue@[i] as int][e] as int] is Some
                        && dist@[g[queue@[i] as int][e] as int].unwrap() <= dist@[queue@[i] as int].unwrap() + 1,
                forall|e: int|
                    0 <= e < j ==> dist@[#[trigger] g[u as int][e] as int] is Some
                        && dist@[g[u as int][e] as int].unwrap() <= d + 1,
            decreases row@.len() - j,
        {
            let w = row[j].to;
            assert(w == g[u as int][j as int]);
            if dist[w].is_none() {
                let ghost old_queue = queue@;
                let ghost old_dist = dist@;
                proof {
                    lemma_distinct_len_bound(queue@, n as nat);
                    assert(!queue@.contains(w));
                    if old_queue.len() == n {
                        assert(old_queue.push(w).no_duplicates());
                        lemma_distinct_len_bound(old_queue.push(w), n as nat);
                    }
                }
                dist.set(w, Some(d + 1));
                queue.push(w);
                proof {
                    assert(queue@[old_queue.len() as int] == w);
                    assert forall|v: int| 0 <= v < n implies (#[trigger] dist@[v] is Some <==> queue@.contains(
                        v as usize,
                    )) by {
                        if old_queue.contains(v as usize) {
                            let i = choose|i: int| 0 <= i < old_queue.len() && old_queue[i] == v;
                            assert(queue@[i] == v);
                        }
                        if queue@.contains(v as usize) && v != w {
                            let i = choose|i: int| 0 <= i < queue@.len() && queue@[i] == v;
                            assert(old_queue[i] == v);
                        }
                    }
                    assert(has_edge(g, u as int, w as int));
                    assert(reach_within(g, start as int, w as int, (d + 1) as nat));
                }
            } else {
                proof {
                    assert(queue@.contains(w));
                    let p = choose|p: int| 0 <= p < queue@.len() && queue@[p] == w;
                    assert(dist@[queue@[p] as int].unwrap() <= dist@[queue@[queue@.len() - 1] as int].unwrap());
                }
            }
            j = j + 1;
        }
        head = head + 1;
    }
    proof {
        assert forall|v: int| 0 <= v < n implies (#[trigger] dist@[v] is None <==> !reachable(
            g,
            start as int,
            v,
        )) by {
            if reachable(g, start as int, v) {
                let k = choose|k: nat| reach_within(g, start as int, v, k);
                lemma_bfs_complete(g, start as int, queue@, dist@, k, v);
            }
            if dist@[v] is Some {
                assert(reach_within(g, start as int, v, dist@[v].unwrap() as nat));
            }
        }
        assert forall|v: int| 0 <= v < n && #[trigger] dist@[v] is Some implies is_hop_distance(
            g,
            start as int,
            v,
            dist@[v].unwrap() as nat,
        ) by {
            assert forall|k: nat| k < dist@[v].unwrap() implies !#[trigger] reach_within(g, start as int, v, k) by {
                if reach_within(g, start as int, v, k) {
                    lemma_bfs_complete(g, start as int, queue@, dist@, k, v);
                }
            }
        }
    }
    dist
}

/// When every queued node has had all its successors queued within one more
/// hop, a node reachable in `k` hops is queued with distance at most `k`.
proof fn lemma_bfs_complete(
    g: Seq<Seq<usize>>,
    s: int,
    queue: Seq<usize>,
    dist: Seq<Option<usize>>,
    k: nat,
    v: int,
)
    requires
        valid_adj(g),
        g.len() <= usize::MAX,
        dist.len() == g.len(),
        0 <= s < g.len(),
        dist[s] == Some(0usize),
        forall|x: int| 0 <= x < g.len() ==> (#[trigger] dist[x] is Some <==> queue.contains(x as usize)),
        forall|i: int, e: int|
            0 <= i < queue.len() && 0 <= e < g[queue[i] as int].len() ==> dist[#[trigger] g[queue[i] as int][e] as int] is Some
                && dist[g[queue[i] as int][e] as int].unwrap() <= dist[queue[i] as int].unwrap() + 1,
        reach_within(g, s, v, k),
    ensures
        0 <= v < g.len(),
        dist[v] is Some,
        dist[v].unwrap() <= k,
    decreases k,
{
    if k == 0 {
    } else if reach_within(g, s, v, (k - 1) as nat) {
        lemma_bfs_complete(g, s, queue, dist, (k - 1) as nat, v);
    } else {
        let u = choose|u: int| #[trigger] has_edge(g, u, v) && reach_within(g, s, u, (k - 1) as nat);
        lemma_bfs_complete(g, s, queue, dist, (k - 1) as nat, u);
        assert(0 <= u < g.len());
        assert(dist[u] is Some);
        assert(queue.contains(u as usize));
        let i = choose|i: int| 0 <= i < queue.len() && queue[i] == u as usize;
        assert(queue[i] as int == u);
        let e = choose|e: int| 0 <= e < g[u].len() && g[u][e] == v;
        assert(g[queue[i] as int][e] as int == v);
        assert(dist[g[queue[i] as int][e] as int] is Some);
    }
}

/// Each node after the first is a not yet listed successor of an earlier one.
spec fn discovered_in_order(g: Seq<Seq<usize>>, order: Seq<usize>) -> bool {
    forall|k: int|
        1 <= k < order.len() ==> !order.take(k).contains(#[trigger] order[k]) && exists|i: int|
            0 <= i < k && has_edge(g, order[i] as int, order[k] as int)
}

/// A breadth-first or depth-first choice is an unseen successor of a seen node.
proof fn lemma_next_is_discovery(g: Seq<Seq<usize>>, seen: Seq<usize>, v: int, breadth: bool)
    requires
        breadth ==> bfs_next(g, seen, v),
        !breadth ==> dfs_next(g, seen, v),
    ensures
        0 <= v <= usize::MAX,
        !seen.contains(v as usize),
        exists|i: int| 0 <= i < seen.len() && has_edge(g, seen[i] as int, v),
{
    let i = if breadth {
        choose|i: int|
            0 <= i < seen.len() && #[trigger] has_unseen_succ(g, seen, seen[i] as int) && (forall|k: int|
                0 <= k < i ==> !has_unseen_succ(g, seen, #[trigger] seen[k] as int))
                && first_unseen_succ(g, seen, seen[i] as int, v)
    } else {
        choose|i: int|
            0 <= i < seen.len() && #[trigger] has_unseen_succ(g, seen, seen[i] as int) && (forall|k: int|
                i < k < seen.len() ==> !has_unseen_succ(g, seen, #[trigger] seen[k] as int))
                && first_unseen_succ(g, seen, seen[i] as int, v)
    };
    let u = seen[i] as int;
    let j = choose|j: int|
        0 <= j < g[u].len() && #[trigger] g[u][j] == v && !seen.contains(g[u][j]) && forall|i: int|
            0 <= i < j ==> seen.contains(#[trigger] g[u][i]);
    assert(has_edge(g, u, v));
}

/// A discovery order that starts at `s` and is closed lists, once each,
/// exactly the nodes reachable from `s`.
proof fn lemma_discovery_order_reachable(g: Seq<Seq<usize>>, s: int, order: Seq<usize>)
    requires
        order.len() > 0,
        order[0] == s,
        discovered_in_order(g, order),
        closed(g, order),
    ensures
        order.no_duplicates(),
        forall|v: int| 0 <= v <= usize::MAX ==> (order.contains(v as usize) <==> reachable(g, s, v)),
{
    lemma_discovery_no_dup(g, order);
    assert forall|v: int| 0 <= v <= usize::MAX implies (order.contains(v as usize) <==> reachable(g, s, v)) by {
        if order.contains(v as usize) {
            let k = choose|k: int| 0 <= k < order.len() && order[k] == v as usize;
            let d = lemma_listed_reachable(g, s, order, k);
        }
        if reachable(g, s, v) {
            let d = choose|d: nat| reach_within(g, s, v, d);
            lemma_reachable_listed(g, s, order, v, d);
        }
    }
}

/// A discovery order lists no node twice.
proof fn lemma_discovery_no_dup(g: Seq<Seq<usize>>, order: Seq<usize>)
    requires
        discovered_in_order(g, order),
    ensures
        order.no_duplicates(),
{
    assert forall|a: int, b: int| 0 <= a < order.len() && 0 <= b < order.len() && a != b implies order[a]
        != order[b] by {
        let lo = if a < b { a } else { b };
        let hi = if a < b { b } else { a };
        assert(order.take(hi)[lo] == order[lo]);
        assert(!order.take(hi).contains(order[hi]));
    }
}

/// The node at position `k` of a discovery order is reachable from its start.
proof fn lemma_listed_reachable(g: Seq<Seq<usize>>, s: int, order: Seq<usize>, k: int) -> (d: nat)
    requires
        order.len() > 0,
        order[0] == s,
        discovered_in_order(g, order),
        0 <= k < order.len(),
    ensures
        reach_within(g, s, order[k] as int, d),
    decreases k,
{
    if k == 0 {
        0
    } else {
        assert(!order.take(k).contains(order[k]));
        let i = choose|i: int| 0 <= i < k && has_edge(g, order[i] as int, order[k] as int);
        let d = lemma_listed_reachable(g, s, order, i);
        assert(has_edge(g, order[i] as int, order[k] as int) && reach_within(g, s, order[i] as int, d));
        d + 1
    }
}

/// A node reachable from the start of a closed discovery order is listed in it.
proof fn lemma_reachable_listed(g: Seq<Seq<usize>>, s: int, order: Seq<usize>, v: int, d: nat)
    requires
        order.len() > 0,
        order[0] == s,
        closed(g, order),
        reach_within(g, s, v, d),
    ensures
        0 <= v <= usize::MAX,
        order.contains(v as usize),
    decreases d,
{
    if d == 0 {
        assert(order[0] == v);
    } else if reach_within(g, s, v, (d - 1) as nat) {
        lemma_reachable_listed(g, s, order, v, (d - 1) as nat);
    } else {
        let u = choose|u: int| #[trigger] has_edge(g, u, v) && reach_within(g, s, u, (d - 1) as nat);
        lemma_reachable_listed(g, s, order, u, (d - 1) as nat);
        let k = choose|k: int| 0 <= k < order.len() && order[k] == u as usize;
        assert(!has_unseen_succ(g, order, order[k] as int));
        let j = choose|j: int| 0 <= j < g[u].len() && g[u][j] == v;
        assert(order.contains(g[u][j]));
    }
}

/// Breadth-first search lists, once each, exactly the nodes reachable from the start.
pub proof fn lemma_bfs_order_reachable(g: Seq<Seq<usize>>, s: int, order: Seq<usize>)
    requires
        is_bfs_order(g, s, order),
    ensures
        order.no_duplicates(),
        forall|v: int| 0 <= v <= usize::MAX ==> (order.contains(v as usize) <==> reachable(g, s, v)),
{
    assert forall|k: int| 1 <= k < order.len() implies !order.take(k).contains(#[trigger] order[k]) && exists|i: int|
        0 <= i < k && has_edge(g, order[i] as int, order[k] as int) by {
        lemma_next_is_discovery(g, order.take(k), order[k] as int, true);
        let i = choose|i: int| 0 <= i < k && has_edge(g, order.take(k)[i] as int, order[k] as int);
        assert(order.take(k)[i] == order[i]);
    }
    lemma_discovery_order_reachable(g, s, order);
}

/// Depth-first search lists, once each, exactly the nodes reachable from the start.
pub proof fn lemma_dfs_order_reachable(g: Seq<Seq<usize>>, s: int, order: Seq<usize>)
    requires
        is_dfs_order(g, s, order),
    ensures
        order.no_duplicates(),
        forall|v: int| 0 <= v <= usize::MAX ==> (order.contains(v as usize) <==> reachable(g, s, v)),
{
    assert forall|k: int| 1 <= k < order.len() implies !order.take(k).contains(#[trigger] order[k]) && exists|i: int|
        0 <= i < k && has_edge(g, order[i] as int, order[k] as int) by {
        lemma_next_is_discovery(g, order.take(k), order[k] as int, false);
        let i = choose|i: int| 0 <= i < k && has_edge(g, order.take(k)[i] as int, order[k] as int);
        assert(order.take(k)[i] == order[i]);
    }
    lemma_discovery_order_reachable(g, s, order);
}

/// The node whose successor `order[k]` is, in breadth-first order: the
/// earliest node before position `k` that still had an unvisited successor.
spec fn bfs_parent(g: Seq<Seq<usize>>, order: Seq<usize>, k: int) -> int {
    choose|i: int|
        0 <= i < k && #[trigger] has_unseen_succ(g, order.take(k), order.take(k)[i] as int) && (forall|m: int|
            0 <= m < i ==> !has_unseen_succ(g, order.take(k), #[trigger] order.take(k)[m] as int))
            && first_unseen_succ(g, order.take(k), order.take(k)[i] as int, order[k] as int)
}

/// The depth of position `k` in the breadth-first tree.
spec fn bfs_depth(g: Seq<Seq<usize>>, order: Seq<usize>, k: int) -> nat
    decreases k,
{
    if k <= 0 {
        0
    } else {
        let i = bfs_parent(g, order, k);
        if 0 <= i < k {
            bfs_depth(g, order, i) + 1
        } else {
            0
        }
    }
}

/// The facts the parent of position `k` has.
proof fn lemma_bfs_parent(g: Seq<Seq<usize>>, s: int, order: Seq<usize>, k: int)
    requires
        is_bfs_order(g, s, order),
        1 <= k < order.len(),
    ensures
        0 <= bfs_parent(g, order, k) < k,
        has_edge(g, order[bfs_parent(g, order, k)] as int, order[k] as int),
        forall|m: int| 0 <= m < bfs_parent(g, order, k) ==> !has_unseen_succ(g, order.take(k), #[trigger] order[m] as int),
        has_unseen_succ(g, order.take(k), order[bfs_parent(g, order, k)] as int),
        !order.take(k).contains(order[k]),
{
    assert(bfs_next(g, order.take(k), order[k] as int));
    let i = bfs_parent(g, order, k);
    assert(order.take(k)[i] == order[i]);
    assert forall|m: int| 0 <= m < i implies !has_unseen_succ(g, order.take(k), #[trigger] order[m] as int) by {
        assert(order.take(k)[m] == order[m]);
    }
    let u = order[i] as int;
    let j = choose|j: int|
        0 <= j < g[u].len() && #[trigger] g[u][j] == order[k] as int && !order.take(k).contains(g[u][j])
            && forall|l: int| 0 <= l < j ==> order.take(k).contains(#[trigger] g[u][l]);
    assert(has_edge(g, u, order[k] as int));
}

/// Parents never move back as the order proceeds.
proof fn lemma_bfs_parent_mono(g: Seq<Seq<usize>>, s: int, order: Seq<usize>, k1: int, k2: int)
    requires
        is_bfs_order(g, s, order),
        1 <= k1 < k2 < order.len(),
    ensures
        bfs_parent(g, order, k1) <= bfs_parent(g, order, k2),
{
    lemma_bfs_parent(g, s, order, k1);
    lemma_bfs_parent(g, s, order, k2);
    let p1 = bfs_parent(g, order, k1);
    let p2 = bfs_parent(g, order, k2);
    if p2 < p1 {
        assert(!has_unseen_succ(g, order.take(k1), order[p2] as int));
        assert(order.take(k1).is_prefix_of(order.take(k2)));
        lemma_prefix_no_unseen(g, order.take(k1), order.take(k2), order[p2] as int);
    }
}

/// Depths never decrease along the order.
proof fn lemma_bfs_depth_mono(g: Seq<Seq<usize>>, s: int, order: Seq<usize>, k1: int, k2: int)
    requires
        is_bfs_order(g, s, order),
        0 <= k1 <= k2 < order.len(),
    ensures
        bfs_depth(g, order, k1) <= bfs_depth(g, order, k2),
    decreases k2,
{
    if k1 > 0 && k1 < k2 {
        lemma_bfs_parent(g, s, order, k1);
        lemma_bfs_parent(g, s, order, k2);
        lemma_bfs_parent_mono(g, s, order, k1, k2);
        lemma_bfs_depth_mono(g, s, order, bfs_parent(g, order, k1), bfs_parent(g, order, k2));
    }
}

/// The depth of a position is a number of hops that reaches its node.
proof fn lemma_bfs_depth_reaches(g: Seq<Seq<usize>>, s: int, order: Seq<usize>, k: int)
    requires
        is_bfs_order(g, s, order),
        0 <= k < order.len(),
    ensures
        reach_within(g, s, order[k] as int, bfs_depth(g, order, k)),
    decreases k,
{
    if k > 0 {
        lemma_bfs_parent(g, s, order, k);
        let i = bfs_parent(g, order, k);
        lemma_bfs_depth_reaches(g, s, order, i);
        assert(has_edge(g, order[i] as int, order[k] as int) && reach_within(
            g,
            s,
            order[i] as int,
            bfs_depth(g, order, i),
        ));
    }
}

/// No node is reached in fewer hops than the depth of its position.
proof fn lemma_bfs_depth_least(g: Seq<Seq<usize>>, s: int, order: Seq<usize>, k: int, d: nat)
    requires
        is_bfs_order(g, s, order),
        0 <= k < order.len(),
        reach_within(g, s, order[k] as int, d),
    ensures
        bfs_depth(g, order, k) <= d,
    decreases d,
{
    lemma_bfs_order_reachable(g, s, order);
    if d == 0 {
        if k > 0 {
            assert(order[k] == order[0]);
        }
    } else if reach_within(g, s, order[k] as int, (d - 1) as nat) {
        lemma_bfs_depth_least(g, s, order, k, (d - 1) as nat);
    } else {
        let v = order[k] as int;
        let u = choose|u: int| #[trigger] has_edge(g, u, v) && reach_within(g, s, u, (d - 1) as nat);
        lemma_reachable_listed(g, s, order, u, (d - 1) as nat);
        let a = choose|a: int| 0 <= a < order.len() && order[a] == u as usize;
        lemma_bfs_depth_least(g, s, order, a, (d - 1) as nat);
        if k <= a {
            lemma_bfs_depth_mono(g, s, order, k, a);
        } else {
            lemma_bfs_parent(g, s, order, k);
            let pk = bfs_parent(g, order, k);
            if a < pk {
                // u still had v as an unvisited successor when v was chosen
                assert(!has_unseen_succ(g, order.take(k), order[a] as int));
                let e = choose|e: int| 0 <= e < g[u].len() && g[u][e] == v;
                assert(order.take(k).contains(g[u][e]));
            }
            lemma_bfs_depth_mono(g, s, order, pk, a);
        }
    }
}

/// Breadth-first search visits nodes level by level: each visited node has a
/// hop distance from the start, and those distances never decrease along the
/// order.
pub proof fn lemma_bfs_level_order(g: Seq<Seq<usize>>, s: int, order: Seq<usize>)
    requires
        is_bfs_order(g, s, order),
    ensures
        forall|k: int| 0 <= k < order.len() ==> #[trigger] has_hop_distance(g, s, order[k] as int),
        forall|i: int, j: int, di: nat, dj: nat|
            0 <= i < j < order.len() && #[trigger] is_hop_distance(g, s, order[i] as int, di) && #[trigger] is_hop_distance(
                g,
                s,
                order[j] as int,
                dj,
            ) ==> di <= dj,
{
    assert forall|k: int| 0 <= k < order.len() implies #[trigger] has_hop_distance(g, s, order[k] as int) by {
        lemma_bfs_depth_is_distance(g, s, order, k);
    }
    assert forall|i: int, j: int, di: nat, dj: nat|
        0 <= i < j < order.len() && #[trigger] is_hop_distance(g, s, order[i] as int, di) && #[trigger] is_hop_distance(
            g,
            s,
            order[j] as int,
            dj,
        ) implies di <= dj by {
        lemma_bfs_level_pair(g, s, order, i, j, di, dj);
    }
}

/// Of two positions of a breadth-first order, the later node is no closer to the start.
proof fn lemma_bfs_level_pair(g: Seq<Seq<usize>>, s: int, order: Seq<usize>, i: int, j: int, di: nat, dj: nat)
    requires
        is_bfs_order(g, s, order),
        0 <= i < j < order.len(),
        is_hop_distance(g, s, order[i] as int, di),
        is_hop_distance(g, s, order[j] as int, dj),
    ensures
        di <= dj,
{
    lemma_bfs_depth_is_distance(g, s, order, i);
    lemma_bfs_depth_is_distance(g, s, order, j);
    lemma_hop_distance_unique(g, s, order[i] as int, di, bfs_depth(g, order, i));
    lemma_hop_distance_unique(g, s, order[j] as int, dj, bfs_depth(g, order, j));
    lemma_bfs_depth_mono(g, s, order, i, j);
}

/// The depth of a position is the hop distance of its node.
proof fn lemma_bfs_depth_is_distance(g: Seq<Seq<usize>>, s: int, order: Seq<usize>, k: int)
    requires
        is_bfs_order(g, s, order),
        0 <= k < order.len(),
    ensures
        is_hop_distance(g, s, order[k] as int, bfs_depth(g, order, k)),
{
    lemma_bfs_depth_reaches(g, s, order, k);
    assert forall|d: nat| d < bfs_depth(g, order, k) implies !#[trigger] reach_within(g, s, order[k] as int, d) by {
        if reach_within(g, s, order[k] as int, d) {
            lemma_bfs_depth_least(g, s, order, k, d);
        }
    }
}

/// A node has at most one hop distance.
proof fn lemma_hop_distance_unique(g: Seq<Seq<usize>>, s: int, v: int, d1: nat, d2: nat)
    requires
        is_hop_distance(g, s, v, d1),
        is_hop_distance(g, s, v, d2),
    ensures
        d1 == d2,
{
    if d1 < d2 {
        assert(!reach_within(g, s, v, d1));
    } else if d2 < d1 {
        assert(!reach_within(g, s, v, d2));
    }
}

/// Breadth-first and depth-first search from the same start visit the same nodes.
pub proof fn lemma_bfs_dfs_same_nodes(g: Seq<Seq<usize>>, s: int, bfs_order: Seq<usize>, dfs_order: Seq<usize>)
    requires
        is_bfs_order(g, s, bfs_order),
        is_dfs_order(g, s, dfs_order),
    ensures
        forall|v: usize| #[trigger] bfs_order.contains(v) <==> dfs_order.contains(v),
{
    lemma_bfs_order_reachable(g, s, bfs_order);
    lemma_dfs_order_reachable(g, s, dfs_order);
    assert forall|v: usize| #[trigger] bfs_order.contains(v) <==> dfs_order.contains(v) by {
        assert(bfs_order.contains(v as int as usize) <==> reachable(g, s, v as int));
        assert(dfs_order.contains(v as int as usize) <==> reachable(g, s, v as int));
    }
}

/// Breadth-first search visits exactly the nodes to which `bfs_distances`
/// gives a distance, in order of nondecreasing distance.
pub proof fn lemma_bfs_matches_distances(g: Seq<Seq<usize>>, s: int, order: Seq<usize>, dist: Seq<Option<usize>>)
    requires
        valid_adj(g),
        0 <= s < g.len(),
        is_bfs_order(g, s, order),
        dist.len() == g.len(),
        forall|v: int| 0 <= v < g.len() ==> (#[trigger] dist[v] is None <==> !reachable(g, s, v)),
        forall|v: int|
            0 <= v < g.len() && #[trigger] dist[v] is Some ==> is_hop_distance(g, s, v, dist[v].unwrap() as nat),
    ensures
        forall|v: usize| v < g.len() ==> (#[trigger] order.contains(v) <==> dist[v as int] is Some),
        forall|i: int, j: int|
            0 <= i < j < order.len() ==> dist[#[trigger] order[i] as int].unwrap() <= dist[#[trigger] order[j] as int].unwrap(),
{
    assert forall|v: usize| v < g.len() implies (#[trigger] order.contains(v) <==> dist[v as int] is Some) by {
        lemma_bfs_order_reachable(g, s, order);
        assert(order.contains(v as int as usize) <==> reachable(g, s, v as int));
    }
    assert forall|i: int, j: int| 0 <= i < j < order.len() implies dist[#[trigger] order[i] as int].unwrap()
        <= dist[#[trigger] order[j] as int].unwrap() by {
        lemma_distance_pair(g, s, order, dist, i, j);
    }
}

/// Two positions of a breadth-first order, compared by the distances of their nodes.
#[verifier::spinoff_prover]
proof fn lemma_distance_pair(g: Seq<Seq<usize>>, s: int, order: Seq<usize>, dist: Seq<Option<usize>>, i: int, j: int)
    requires
        valid_adj(g),
        0 <= s < g.len(),
        is_bfs_order(g, s, order),
        dist.len() == g.len(),
        forall|v: int| 0 <= v < g.len() ==> (#[trigger] dist[v] is None <==> !reachable(g, s, v)),
        forall|v: int|
            0 <= v < g.len() && #[trigger] dist[v] is Some ==> is_hop_distance(g, s, v, dist[v].unwrap() as nat),
        0 <= i < j < order.len(),
    ensures
        dist[order[i] as int].unwrap() <= dist[order[j] as int].unwrap(),
{
    lemma_bfs_depth_is_distance(g, s, order, i);
    lemma_bfs_depth_is_distance(g, s, order, j);
    let x = order[i] as int;
    let y = order[j] as int;
    assert(reachable(g, s, x));
    assert(reachable(g, s, y));
    lemma_reachable_in_range(g, s, x);
    lemma_reachable_in_range(g, s, y);
    assert(dist[x] is Some);
    assert(dist[y] is Some);
    lemma_hop_distance_unique(g, s, x, dist[x].unwrap() as nat, bfs_depth(g, order, i));
    lemma_hop_distance_unique(g, s, y, dist[y].unwrap() as nat, bfs_depth(g, order, j));
    lemma_bfs_depth_mono(g, s, order, i, j);
}

/// A node reachable from a node of the graph is a node of the graph.
proof fn lemma_reachable_in_range(g: Seq<Seq<usize>>, s: int, v: int)
    requires
        valid_adj(g),
        0 <= s < g.len(),
        reachable(g, s, v),
    ensures
        0 <= v < g.len(),
{
    let d = choose|d: nat| reach_within(g, s, v, d);
    let inside = |x: int| 0 <= x < g.len();
    assert forall|u: int, w: int| inside(u) && #[trigger] has_edge(g, u, w) implies inside(w) by {
        let e = choose|e: int| 0 <= e < g[u].len() && g[u][e] == w;
    }
    crate::lemmas::lemma_reach_closed(g, s, inside, v, d);
}

} // verus!

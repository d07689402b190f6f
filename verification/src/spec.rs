//! The mathematical model of a graph: a sequence of successor lists.
//!
//! `g[u]` lists, in insertion order, the targets of the edges that leave `u`.
use vstd::prelude::*;

verus! {

/// Every edge of `g` points at one of its nodes.
pub open spec fn valid_adj(g: Seq<Seq<usize>>) -> bool {
    forall|u: int, j: int|
        0 <= u < g.len() && 0 <= j < g[u].len() ==> #[trigger] g[u][j] < g.len()
}

/// There is an edge from `u` to `v`.
pub open spec fn has_edge(g: Seq<Seq<usize>>, u: int, v: int) -> bool {
    &&& 0 <= u < g.len()
    &&& exists|j: int| 0 <= j < g[u].len() && g[u][j] == v
}

/// `v` can be reached from `s` by following at most `k` edges.
pub open spec fn reach_within(g: Seq<Seq<usize>>, s: int, v: int, k: nat) -> bool
    decreases k,
{
    if k == 0 {
        v == s
    } else {
        reach_within(g, s, v, (k - 1) as nat) || exists|u: int|
            #[trigger] has_edge(g, u, v) && reach_within(g, s, u, (k - 1) as nat)
    }
}

/// `v` can be reached from `s` by following edges.
pub open spec fn reachable(g: Seq<Seq<usize>>, s: int, v: int) -> bool {
    exists|k: nat| reach_within(g, s, v, k)
}


/// Some edge of `u` leads to a node outside `seen`.
pub open spec fn has_unseen_succ(g: Seq<Seq<usize>>, seen: Seq<usize>, u: int) -> bool {
    &&& 0 <= u < g.len()
    &&& exists|j: int| 0 <= j < g[u].len() && !seen.contains(#[trigger] g[u][j])
}

/// `v` is the target of the first edge of `u` (in list order) that leads
/// outside `seen`.
pub open spec fn first_unseen_succ(g: Seq<Seq<usize>>, seen: Seq<usize>, u: int, v: int) -> bool {
    &&& 0 <= u < g.len()
    &&& exists|j: int|
        0 <= j < g[u].len() && #[trigger] g[u][j] == v && !seen.contains(g[u][j]) && forall|i: int|
            0 <= i < j ==> seen.contains(#[trigger] g[u][i])
}

/// The breadth-first choice after visiting `seen`: `v` is the first unseen
/// successor of the earliest visited node that still has one.
pub open spec fn bfs_next(g: Seq<Seq<usize>>, seen: Seq<usize>, v: int) -> bool {
    exists|i: int|
        0 <= i < seen.len() && #[trigger] has_unseen_succ(g, seen, seen[i] as int) && (forall|k: int|
            0 <= k < i ==> !has_unseen_succ(g, seen, #[trigger] seen[k] as int))
            && first_unseen_succ(g, seen, seen[i] as int, v)
}

/// The depth-first choice after visiting `seen`: `v` is the first unseen
/// successor of the latest visited node that still has one.
pub open spec fn dfs_next(g: Seq<Seq<usize>>, seen: Seq<usize>, v: int) -> bool {
    exists|i: int|
        0 <= i < seen.len() && #[trigger] has_unseen_succ(g, seen, seen[i] as int) && (forall|k: int|
            i < k < seen.len() ==> !has_unseen_succ(g, seen, #[trigger] seen[k] as int))
            && first_unseen_succ(g, seen, seen[i] as int, v)
}

/// No visited node has an edge leading outside `seen`.
pub open spec fn closed(g: Seq<Seq<usize>>, seen: Seq<usize>) -> bool {
    forall|k: int| 0 <= k < seen.len() ==> !has_unseen_succ(g, seen, #[trigger] seen[k] as int)
}

/// `order` is the breadth-first visiting order from `s`: it starts at `s`,
/// each further node is the breadth-first choice after the nodes before it,
/// and it stops when no visited node has an unvisited successor.
pub open spec fn is_bfs_order(g: Seq<Seq<usize>>, s: int, order: Seq<usize>) -> bool {
    &&& order.len() > 0
    &&& order[0] == s
    &&& forall|k: int| 1 <= k < order.len() ==> bfs_next(g, order.take(k), #[trigger] order[k] as int)
    &&& closed(g, order)
}

/// `order` is the depth-first preorder from `s`: it starts at `s`, each
/// further node is the depth-first choice after the nodes before it, and it
/// stops when no visited node has an unvisited successor.
pub open spec fn is_dfs_order(g: Seq<Seq<usize>>, s: int, order: Seq<usize>) -> bool {
    &&& order.len() > 0
    &&& order[0] == s
    &&& forall|k: int| 1 <= k < order.len() ==> dfs_next(g, order.take(k), #[trigger] order[k] as int)
    &&& closed(g, order)
}


/// `d` is the least number of edges on a path from `s` to `v`.
pub open spec fn is_hop_distance(g: Seq<Seq<usize>>, s: int, v: int, d: nat) -> bool {
    &&& reach_within(g, s, v, d)
    &&& forall|k: nat| k < d ==> !#[trigger] reach_within(g, s, v, k)
}

/// `v` has a hop distance from `s`.
pub open spec fn has_hop_distance(g: Seq<Seq<usize>>, s: int, v: int) -> bool {
    exists|d: nat| is_hop_distance(g, s, v, d)
}


/// `p` is a walk: consecutive nodes are joined by edges.
pub open spec fn is_walk(g: Seq<Seq<usize>>, p: Seq<usize>) -> bool {
    &&& p.len() >= 1
    &&& forall|i: int| 0 <= i < p.len() - 1 ==> has_edge(g, #[trigger] p[i] as int, p[i + 1] as int)
}

/// `p` is a cycle: a walk of at least one edge that ends where it starts.
pub open spec fn is_cycle(g: Seq<Seq<usize>>, p: Seq<usize>) -> bool {
    &&& is_walk(g, p)
    &&& p.len() >= 2
    &&& p[0] == p[p.len() - 1]
}

/// The graph contains a cycle.
pub open spec fn has_cycle(g: Seq<Seq<usize>>) -> bool {
    exists|p: Seq<usize>| #[trigger] is_cycle(g, p)
}

/// `order` lists every node exactly once, and every edge leads from a node
/// to one listed after it.
pub open spec fn is_topological_order(g: Seq<Seq<usize>>, order: Seq<usize>) -> bool {
    &&& order.len() == g.len()
    &&& order.no_duplicates()
    &&& forall|v: usize| v < g.len() ==> #[trigger] order.contains(v)
    &&& forall|i: int| 0 <= i < order.len() ==> #[trigger] order[i] < g.len()
    &&& forall|i: int, j: int|
        0 <= i < order.len() && 0 <= j < order.len() && has_edge(g, #[trigger] order[i] as int, #[trigger] order[j] as int) ==> i < j
}

/// How many times `v` occurs in `row`.
pub open spec fn count_in(row: Seq<usize>, v: int) -> nat
    decreases row.len(),
{
    if row.len() == 0 {
        0
    } else {
        count_in(row.drop_last(), v) + if row.last() == v {
            1nat
        } else {
            0nat
        }
    }
}

/// The number of edges into `v` whose source is a node below `m` not listed in `excluded`.
pub open spec fn edges_into(g: Seq<Seq<usize>>, v: int, excluded: Seq<usize>, m: int) -> nat
    decreases m,
{
    if m <= 0 {
        0
    } else {
        edges_into(g, v, excluded, m - 1) + if excluded.contains((m - 1) as usize) {
            0nat
        } else {
            count_in(g[m - 1], v)
        }
    }
}

/// The number of edges into `v`, counted with multiplicity.
pub open spec fn in_degree(g: Seq<Seq<usize>>, v: int) -> nat {
    edges_into(g, v, Seq::empty(), g.len() as int)
}


/// `x` and `y` reach each other.
pub open spec fn mutually_reachable(g: Seq<Seq<usize>>, x: int, y: int) -> bool {
    reachable(g, x, y) && reachable(g, y, x)
}

/// The components list every node below `n` exactly once, and none is empty.
pub open spec fn is_node_partition(n: nat, comps: Seq<Seq<usize>>) -> bool {
    &&& forall|k: int| 0 <= k < comps.len() ==> #[trigger] comps[k].len() > 0
    &&& comps.flatten().no_duplicates()
    &&& forall|i: int| 0 <= i < comps.flatten().len() ==> #[trigger] comps.flatten()[i] < n
    &&& forall|x: usize| x < n ==> #[trigger] comps.flatten().contains(x)
}

/// Each component holds exactly the nodes mutually reachable with any of its members.
pub open spec fn comps_are_sccs(g: Seq<Seq<usize>>, comps: Seq<Seq<usize>>) -> bool {
    forall|k: int, x: usize, y: usize|
        #![trigger comps[k].contains(x), comps[k].contains(y)]
        #![trigger comps[k].contains(x), mutually_reachable(g, x as int, y as int)]
        0 <= k < comps.len() && comps[k].contains(x) ==> (comps[k].contains(y) <==> mutually_reachable(
            g,
            x as int,
            y as int,
        ))
}

/// Every edge leaving a component leads to the same or an earlier component.
pub open spec fn comps_point_back(g: Seq<Seq<usize>>, comps: Seq<Seq<usize>>) -> bool {
    forall|k1: int, x: usize, y: usize|
        #![trigger comps[k1].contains(x), has_edge(g, x as int, y as int)]
        0 <= k1 < comps.len() && comps[k1].contains(x) && has_edge(g, x as int, y as int) ==> exists|k2: int|
            0 <= k2 <= k1 && #[trigger] comps[k2].contains(y)
}

/// `comps` is the decomposition of the graph into strongly connected
/// components, listed in reverse topological order: every node is in exactly
/// one component, a component holds exactly the nodes mutually reachable with
/// any of its members, and every edge leads to the same or an earlier component.
pub open spec fn is_scc_decomposition(g: Seq<Seq<usize>>, comps: Seq<Seq<usize>>) -> bool {
    &&& is_node_partition(g.len(), comps)
    &&& comps_are_sccs(g, comps)
    &&& comps_point_back(g, comps)
}


/// `(h1, j1)` comes before `(h2, j2)` in lexicographic order.
pub open spec fn lex_lt(h1: int, j1: int, h2: int, j2: int) -> bool {
    h1 < h2 || (h1 == h2 && j1 < j2)
}

/// Edge `j` of the node at position `h` of `order` is the last edge into
/// `order[k]`: it leads there, and every other edge into `order[k]` from a
/// listed node comes from an earlier position, or from position `h` at an
/// earlier index.
pub open spec fn is_last_edge_into(g: Seq<Seq<usize>>, order: Seq<usize>, k: int, h: int, j: int) -> bool {
    &&& 0 <= h < order.len()
    &&& 0 <= j < g[order[h] as int].len()
    &&& g[order[h] as int][j] == order[k]
    &&& forall|h2: int, j2: int|
        0 <= h2 < order.len() && 0 <= j2 < g[order[h2] as int].len() && #[trigger] g[order[h2] as int][j2]
            == order[k] ==> h2 < h || (h2 == h && j2 <= j)
}

/// The positions before `m` hold the nodes without incoming edges, by
/// increasing index; every later node is entered by some edge, `(rh[k], rj[k])`
/// is the last edge into `order[k]`, and these last edges come in increasing
/// order along `order`.
pub open spec fn kahn_witness(
    g: Seq<Seq<usize>>,
    order: Seq<usize>,
    m: int,
    rh: Seq<int>,
    rj: Seq<int>,
) -> bool {
    &&& 0 <= m <= order.len()
    &&& rh.len() == order.len()
    &&& rj.len() == order.len()
    &&& forall|k: int| 0 <= k < m ==> in_degree(g, #[trigger] order[k] as int) == 0
    &&& forall|k: int| m <= k < order.len() ==> in_degree(g, #[trigger] order[k] as int) > 0
    &&& forall|a: int, b: int| 0 <= a < b < m ==> #[trigger] order[a] < #[trigger] order[b]
    &&& forall|k: int| m <= k < order.len() ==> is_last_edge_into(g, order, k, #[trigger] rh[k], rj[k])
    &&& forall|k: int, k2: int|
        m <= k < k2 < order.len() ==> lex_lt(#[trigger] rh[k], rj[k], #[trigger] rh[k2], rj[k2])
}

/// `order` is the order in which Kahn's algorithm with a first-in first-out
/// queue lists the nodes: first those without incoming edges, by increasing
/// index, then each other node when its last incoming edge is crossed.
pub open spec fn is_kahn_order(g: Seq<Seq<usize>>, order: Seq<usize>) -> bool {
    exists|m: int, rh: Seq<int>, rj: Seq<int>| kahn_witness(g, order, m, rh, rj)
}


/// The next node of a depth-first search of the whole graph after visiting
/// `seen`: the depth-first choice while some visited node still has an
/// unvisited successor, and otherwise the smallest unvisited node.
pub open spec fn forest_next(g: Seq<Seq<usize>>, seen: Seq<usize>, v: int) -> bool {
    if exists|i: int| 0 <= i < seen.len() && #[trigger] has_unseen_succ(g, seen, seen[i] as int) {
        dfs_next(g, seen, v)
    } else {
        &&& 0 <= v < g.len()
        &&& !seen.contains(v as usize)
        &&& forall|x: usize| x < v ==> #[trigger] seen.contains(x)
    }
}

/// `pre` is the order in which a depth-first search of the whole graph
/// visits its nodes, starting from the smallest unvisited node whenever the
/// nodes visited so far have no unvisited successor.
pub open spec fn is_dfs_forest_order(g: Seq<Seq<usize>>, pre: Seq<usize>) -> bool {
    &&& pre.len() == g.len()
    &&& forall|k: int| 0 <= k < pre.len() ==> forest_next(g, pre.take(k), #[trigger] pre[k] as int)
}

/// Once `pre[..e]` is visited, none of the nodes at positions `p..e` has an
/// unvisited successor.
pub open spec fn block_closed(g: Seq<Seq<usize>>, pre: Seq<usize>, p: int, e: int) -> bool {
    forall|i: int| p <= i < e ==> !has_unseen_succ(g, pre.take(e), #[trigger] pre[i] as int)
}

/// The search from the node at position `p` of `pre` returns at position
/// `e`: the first position after `p` where every node visited since `p` has
/// all its successors visited.
pub open spec fn is_search_end(g: Seq<Seq<usize>>, pre: Seq<usize>, p: int, e: int) -> bool {
    &&& 0 <= p < e <= pre.len()
    &&& block_closed(g, pre, p, e)
    &&& forall|e2: int| p < e2 < e ==> !#[trigger] block_closed(g, pre, p, e2)
}

/// Tarjan's algorithm finds the component rooted at position `p1` of `pre`
/// before the one rooted at `p2`: the search from `p1` returns earlier, or at
/// the same position from a root visited later.
pub open spec fn found_before(g: Seq<Seq<usize>>, pre: Seq<usize>, p1: int, p2: int) -> bool {
    exists|e1: int, e2: int|
        #![trigger is_search_end(g, pre, p1, e1), is_search_end(g, pre, p2, e2)]
        is_search_end(g, pre, p1, e1) && is_search_end(g, pre, p2, e2) && (e1 < e2 || (e1 == e2
            && p1 > p2))
}

/// The components come in the order in which Tarjan's algorithm finds them
/// along the depth-first order `pre`: each lists its nodes from the latest
/// visited to the earliest (its root, last), and the components follow the
/// order in which their searches return.
pub open spec fn is_tarjan_layout(g: Seq<Seq<usize>>, pre: Seq<usize>, comps: Seq<Seq<usize>>) -> bool {
    &&& forall|k: int, a: int, b: int|
        0 <= k < comps.len() && 0 <= a < b < comps[k].len() ==> pre.index_of(#[trigger] comps[k][a])
            > pre.index_of(#[trigger] comps[k][b])
    &&& forall|k1: int, k2: int|
        0 <= k1 < k2 < comps.len() ==> #[trigger] found_before(
            g,
            pre,
            pre.index_of(comps[k1].last()),
            pre.index_of(comps[k2].last()),
        )
}

} // verus!

use graph_search_rs::{bfs, bfs_distances, dfs, tarjan_scc, topological_sort, Graph};

fn make_linear_graph(n: usize) -> Graph {
    let mut g = Graph::new(n);
    for i in 0..n.saturating_sub(1) {
        g.add_directed_edge(i, i + 1);
    }
    g
}

// === BFS Tests ===

#[test]
fn test_bfs_linear() {
    let g = make_linear_graph(5);
    let order = bfs(&g, 0);
    assert_eq!(order, vec![0, 1, 2, 3, 4]);
}

#[test]
fn test_bfs_single() {
    let g = Graph::new(1);
    assert_eq!(bfs(&g, 0), vec![0]);
}

#[test]
fn test_bfs_disconnected() {
    let mut g = Graph::new(4);
    g.add_directed_edge(0, 1);
    g.add_directed_edge(2, 3);
    let order = bfs(&g, 0);
    assert_eq!(order, vec![0, 1]); // 2, 3 unreachable
}

#[test]
fn test_bfs_distances() {
    let mut g = Graph::new(4);
    g.add_undirected_edge(0, 1);
    g.add_undirected_edge(0, 2);
    g.add_undirected_edge(1, 3);
    let dist = bfs_distances(&g, 0);
    assert_eq!(dist[0], Some(0));
    assert_eq!(dist[1], Some(1));
    assert_eq!(dist[2], Some(1));
    assert_eq!(dist[3], Some(2));
}

#[test]
fn test_bfs_cycle() {
    let mut g = Graph::new(3);
    g.add_directed_edge(0, 1);
    g.add_directed_edge(1, 2);
    g.add_directed_edge(2, 0);
    let order = bfs(&g, 0);
    assert_eq!(order.len(), 3);
    assert_eq!(order[0], 0);
}

// === DFS Tests ===

#[test]
fn test_dfs_linear() {
    let g = make_linear_graph(5);
    let order = dfs(&g, 0);
    assert_eq!(order, vec![0, 1, 2, 3, 4]);
}

#[test]
fn test_dfs_single() {
    let g = Graph::new(1);
    assert_eq!(dfs(&g, 0), vec![0]);
}

#[test]
fn test_dfs_tree() {
    let mut g = Graph::new(4);
    g.add_directed_edge(0, 1);
    g.add_directed_edge(0, 2);
    g.add_directed_edge(1, 3);
    let order = dfs(&g, 0);
    assert_eq!(order[0], 0);
    // Should visit deep into one branch before the other
    assert_eq!(order.len(), 4);
}

#[test]
fn test_dfs_disconnected() {
    let mut g = Graph::new(4);
    g.add_directed_edge(0, 1);
    g.add_directed_edge(2, 3);
    let order = dfs(&g, 0);
    assert_eq!(order, vec![0, 1]);
}

// === Topological Sort Tests ===

#[test]
fn test_topo_linear() {
    let g = make_linear_graph(4);
    let order = topological_sort(&g).unwrap();
    assert_eq!(order, vec![0, 1, 2, 3]);
}

#[test]
fn test_topo_diamond() {
    let mut g = Graph::new(4);
    g.add_directed_edge(0, 1);
    g.add_directed_edge(0, 2);
    g.add_directed_edge(1, 3);
    g.add_directed_edge(2, 3);
    let order = topological_sort(&g).unwrap();
    assert_eq!(order[0], 0);
    assert_eq!(order[3], 3);
    // 1 and 2 can be in either order
}

#[test]
fn test_topo_cycle() {
    let mut g = Graph::new(3);
    g.add_directed_edge(0, 1);
    g.add_directed_edge(1, 2);
    g.add_directed_edge(2, 0);
    assert!(topological_sort(&g).is_none());
}

#[test]
fn test_topo_validity() {
    let mut g = Graph::new(6);
    g.add_directed_edge(5, 2);
    g.add_directed_edge(5, 0);
    g.add_directed_edge(4, 0);
    g.add_directed_edge(4, 1);
    g.add_directed_edge(2, 3);
    g.add_directed_edge(3, 1);
    let order = topological_sort(&g).unwrap();
    // Verify: for every edge u->v, u comes before v
    let pos: Vec<usize> = {
        let mut p = vec![0; 6];
        for (i, &node) in order.iter().enumerate() {
            p[node] = i;
        }
        p
    };
    for u in 0..6 {
        for edge in &g.adj[u] {
            assert!(pos[u] < pos[edge.to], "Invalid topological order");
        }
    }
}

// === Tarjan SCC Tests ===

#[test]
fn test_tarjan_single_node() {
    let g = Graph::new(1);
    let sccs = tarjan_scc(&g);
    assert_eq!(sccs.len(), 1);
    assert_eq!(sccs[0], vec![0]);
}

#[test]
fn test_tarjan_no_edges() {
    let g = Graph::new(3);
    let sccs = tarjan_scc(&g);
    assert_eq!(sccs.len(), 3);
}

#[test]
fn test_tarjan_single_cycle() {
    let mut g = Graph::new(3);
    g.add_directed_edge(0, 1);
    g.add_directed_edge(1, 2);
    g.add_directed_edge(2, 0);
    let sccs = tarjan_scc(&g);
    assert_eq!(sccs.len(), 1);
    assert_eq!(sccs[0].len(), 3);
}

#[test]
fn test_tarjan_two_sccs() {
    let mut g = Graph::new(4);
    // SCC 1: 0 -> 1 -> 0
    g.add_directed_edge(0, 1);
    g.add_directed_edge(1, 0);
    // SCC 2: 2 -> 3 -> 2
    g.add_directed_edge(2, 3);
    g.add_directed_edge(3, 2);
    let sccs = tarjan_scc(&g);
    assert_eq!(sccs.len(), 2);
    for scc in &sccs {
        assert_eq!(scc.len(), 2);
    }
}

#[test]
fn test_tarjan_dag() {
    let g = make_linear_graph(4);
    let sccs = tarjan_scc(&g);
    assert_eq!(sccs.len(), 4); // Each node is its own SCC
}

#[test]
fn test_tarjan_mixed() {
    // 0->1->2->1 (SCC: {1,2}), 0->3 (singleton)
    let mut g = Graph::new(4);
    g.add_directed_edge(0, 1);
    g.add_directed_edge(1, 2);
    g.add_directed_edge(2, 1);
    g.add_directed_edge(0, 3);
    let sccs = tarjan_scc(&g);
    // Should have 3 SCCs: {0}, {1,2}, {3}
    assert_eq!(sccs.len(), 3);
    let scc_sizes: Vec<usize> = sccs.iter().map(|s| s.len()).collect();
    assert!(scc_sizes.contains(&2));
    assert_eq!(scc_sizes.iter().filter(|&&s| s == 1).count(), 2);
}

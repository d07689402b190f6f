use graph_search_rs::{bfs, bfs_distances, dfs, tarjan_scc, topological_sort, Edge, Graph};

fn targets(g: &Graph, u: usize) -> Vec<usize> {
    g.adj[u].iter().map(|e| e.to).collect()
}

#[test]
fn new_graph_has_no_edges() {
    let g = Graph::new(3);
    assert_eq!(g.node_count, 3);
    assert_eq!(g.adj.len(), 3);
    assert!(g.adj.iter().all(|row| row.is_empty()));
}

#[test]
fn empty_graph_has_no_nodes() {
    let g = Graph::new(0);
    assert_eq!(g.node_count, 0);
    assert_eq!(topological_sort(&g), Some(vec![]));
    assert!(tarjan_scc(&g).is_empty());
}

#[test]
fn edge_new_keeps_target() {
    assert_eq!(Edge::new(7).to, 7);
}

#[test]
fn directed_edges_keep_insertion_order() {
    let mut g = Graph::new(3);
    g.add_directed_edge(0, 2);
    g.add_directed_edge(0, 1);
    g.add_directed_edge(0, 2);
    assert_eq!(targets(&g, 0), vec![2, 1, 2]);
    assert!(g.adj[1].is_empty());
}

#[test]
fn undirected_edge_adds_both_directions() {
    let mut g = Graph::new(2);
    g.add_undirected_edge(0, 1);
    assert_eq!(targets(&g, 0), vec![1]);
    assert_eq!(targets(&g, 1), vec![0]);
}

#[test]
fn bfs_and_dfs_differ_on_a_tree() {
    let mut g = Graph::new(5);
    g.add_directed_edge(0, 1);
    g.add_directed_edge(0, 2);
    g.add_directed_edge(1, 3);
    g.add_directed_edge(2, 4);
    assert_eq!(bfs(&g, 0), vec![0, 1, 2, 3, 4]);
    assert_eq!(dfs(&g, 0), vec![0, 1, 3, 2, 4]);
}

#[test]
fn dfs_tree_exact_order() {
    let mut g = Graph::new(4);
    g.add_directed_edge(0, 1);
    g.add_directed_edge(0, 2);
    g.add_directed_edge(1, 3);
    assert_eq!(dfs(&g, 0), vec![0, 1, 3, 2]);
}

#[test]
fn traversals_follow_edge_order() {
    let mut g = Graph::new(4);
    g.add_directed_edge(0, 3);
    g.add_directed_edge(0, 1);
    g.add_directed_edge(3, 2);
    assert_eq!(bfs(&g, 0), vec![0, 3, 1, 2]);
    assert_eq!(dfs(&g, 0), vec![0, 3, 2, 1]);
}

#[test]
fn traversals_from_inner_node_see_only_reachable() {
    let mut g = Graph::new(5);
    g.add_directed_edge(0, 1);
    g.add_directed_edge(1, 2);
    g.add_directed_edge(2, 3);
    g.add_directed_edge(4, 2);
    assert_eq!(bfs(&g, 2), vec![2, 3]);
    assert_eq!(dfs(&g, 2), vec![2, 3]);
    assert_eq!(bfs(&g, 4), vec![4, 2, 3]);
}

#[test]
fn bfs_visits_level_by_level() {
    // 0 -> 1 -> 2 -> 3 and a shortcut 0 -> 3
    let mut g = Graph::new(4);
    g.add_directed_edge(0, 1);
    g.add_directed_edge(1, 2);
    g.add_directed_edge(2, 3);
    g.add_directed_edge(0, 3);
    let order = bfs(&g, 0);
    assert_eq!(order, vec![0, 1, 3, 2]);
    let dist = bfs_distances(&g, 0);
    let levels: Vec<usize> = order.iter().map(|&v| dist[v].unwrap()).collect();
    assert_eq!(levels, vec![0, 1, 1, 2]);
}

#[test]
fn bfs_distances_take_the_shortcut() {
    let mut g = Graph::new(5);
    g.add_directed_edge(0, 1);
    g.add_directed_edge(1, 2);
    g.add_directed_edge(2, 3);
    g.add_directed_edge(0, 3);
    let dist = bfs_distances(&g, 0);
    assert_eq!(dist, vec![Some(0), Some(1), Some(2), Some(1), None]);
}

#[test]
fn bfs_distances_match_bfs_visits() {
    let mut g = Graph::new(6);
    g.add_directed_edge(0, 1);
    g.add_directed_edge(1, 2);
    g.add_directed_edge(3, 4);
    g.add_directed_edge(2, 0);
    let order = bfs(&g, 0);
    let dist = bfs_distances(&g, 0);
    for v in 0..6 {
        assert_eq!(order.contains(&v), dist[v].is_some());
    }
}

#[test]
fn topo_kahn_order_on_dependency_example() {
    let mut g = Graph::new(6);
    g.add_directed_edge(5, 2);
    g.add_directed_edge(5, 0);
    g.add_directed_edge(4, 0);
    g.add_directed_edge(4, 1);
    g.add_directed_edge(2, 3);
    g.add_directed_edge(3, 1);
    assert_eq!(topological_sort(&g), Some(vec![4, 5, 2, 0, 3, 1]));
}

#[test]
fn topo_self_loop_is_a_cycle() {
    let mut g = Graph::new(2);
    g.add_directed_edge(0, 1);
    g.add_directed_edge(1, 1);
    assert_eq!(topological_sort(&g), None);
}

#[test]
fn topo_parallel_edges_are_fine() {
    let mut g = Graph::new(2);
    g.add_directed_edge(0, 1);
    g.add_directed_edge(0, 1);
    assert_eq!(topological_sort(&g), Some(vec![0, 1]));
}

#[test]
fn tarjan_linear_in_reverse_topological_order() {
    let mut g = Graph::new(4);
    g.add_directed_edge(0, 1);
    g.add_directed_edge(1, 2);
    g.add_directed_edge(2, 3);
    assert_eq!(tarjan_scc(&g), vec![vec![3], vec![2], vec![1], vec![0]]);
}

#[test]
fn tarjan_mixed_exact_components() {
    let mut g = Graph::new(4);
    g.add_directed_edge(0, 1);
    g.add_directed_edge(1, 2);
    g.add_directed_edge(2, 1);
    g.add_directed_edge(0, 3);
    assert_eq!(tarjan_scc(&g), vec![vec![2, 1], vec![3], vec![0]]);
}

#[test]
fn tarjan_components_partition_the_nodes() {
    let mut g = Graph::new(10);
    g.add_directed_edge(0, 1);
    g.add_directed_edge(1, 2);
    g.add_directed_edge(2, 0);
    g.add_directed_edge(1, 3);
    g.add_directed_edge(3, 0);
    g.add_directed_edge(4, 5);
    g.add_directed_edge(5, 6);
    g.add_directed_edge(6, 4);
    g.add_directed_edge(3, 7);
    g.add_directed_edge(7, 4);
    g.add_directed_edge(8, 9);
    let sccs = tarjan_scc(&g);
    let mut all: Vec<usize> = sccs.iter().flatten().copied().collect();
    all.sort();
    assert_eq!(all, (0..10).collect::<Vec<usize>>());
    let comp_of = |x: usize| sccs.iter().position(|c| c.contains(&x)).unwrap();
    // each edge leads to the same or an earlier component
    for u in 0..10 {
        for e in &g.adj[u] {
            assert!(comp_of(e.to) <= comp_of(u));
        }
    }
    assert_eq!(comp_of(0), comp_of(3));
    assert_eq!(comp_of(4), comp_of(6));
    assert_ne!(comp_of(3), comp_of(7));
    assert_eq!(sccs.len(), 5);
}

#[test]
fn tarjan_components_follow_the_search() {
    let mut g = Graph::new(6);
    g.add_directed_edge(0, 1);
    g.add_directed_edge(1, 0);
    g.add_directed_edge(1, 2);
    g.add_directed_edge(2, 3);
    g.add_directed_edge(3, 2);
    g.add_directed_edge(0, 4);
    g.add_directed_edge(5, 0);
    assert_eq!(
        tarjan_scc(&g),
        vec![vec![3, 2], vec![4], vec![1, 0], vec![5]]
    );
}

#[test]
fn tarjan_on_a_dag_reversed_is_topological() {
    let mut g = Graph::new(6);
    g.add_directed_edge(5, 2);
    g.add_directed_edge(5, 0);
    g.add_directed_edge(4, 0);
    g.add_directed_edge(4, 1);
    g.add_directed_edge(2, 3);
    g.add_directed_edge(3, 1);
    assert!(topological_sort(&g).is_some());
    let sccs = tarjan_scc(&g);
    assert!(sccs.iter().all(|c| c.len() == 1));
    let order: Vec<usize> = sccs.iter().rev().map(|c| c[0]).collect();
    let pos = |x: usize| order.iter().position(|&y| y == x).unwrap();
    for u in 0..6 {
        for e in &g.adj[u] {
            assert!(pos(u) < pos(e.to));
        }
    }
}

#[test]
fn tarjan_component_of_two_nodes_means_a_cycle() {
    let mut g = Graph::new(3);
    g.add_directed_edge(0, 1);
    g.add_directed_edge(1, 2);
    g.add_directed_edge(2, 1);
    let sccs = tarjan_scc(&g);
    assert!(sccs.iter().any(|c| c.len() > 1));
    assert_eq!(topological_sort(&g), None);
}

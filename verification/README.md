# graph_search_rs

Graph search over adjacency lists, verified with Verus. Nodes are `usize`
indices; `Graph::adj[u]` lists the edges leaving `u` in insertion order.

## Layout

- `src/spec.rs` — the model: a graph is a `Seq<Seq<usize>>` of successor
  lists, with reachability, hop distances, cycles, the breadth-first and
  depth-first visiting orders, Kahn's order and Tarjan's component layout.
- `src/graph.rs` — `Edge`, `Graph`, construction and edge insertion.
- `src/traversal.rs` — `bfs`, `dfs`, `bfs_distances`, and the laws that tie
  them together (both searches visit exactly the reachable nodes, breadth-first
  search visits them by nondecreasing distance).
- `src/topo.rs` — `topological_sort` (Kahn's algorithm): `Some` exactly when the
  graph has no cycle, and then the order Kahn's algorithm produces.
- `src/scc.rs` — `tarjan_scc`: the strongly connected components in reverse
  topological order, laid out as Tarjan's algorithm finds them; on a graph
  without cycles every component is a single node, and the components read
  backwards form a topological order.
- `src/lemmas.rs` — general facts about sequences and reachability.
- `app/lib.rs` — weighted shortest paths (Dijkstra, Bellman-Ford, A*) with
  `f64` weights kept beside the verified graph; floating point stays outside
  the verified part.

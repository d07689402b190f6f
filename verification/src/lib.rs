//! Graph search algorithms over adjacency lists.
//!
//! Nodes are `usize` indices and each node keeps the list of its outgoing
//! edges. The traversals (breadth-first order, hop distances, depth-first
//! preorder), Kahn's topological sort and Tarjan's strongly connected
//! components are verified against the model in [`spec`].
pub mod graph;
pub mod spec;
mod lemmas;
pub mod scc;
pub mod topo;
pub mod traversal;

pub use graph::{Edge, Graph};
pub use scc::tarjan_scc;
pub use topo::topological_sort;
pub use traversal::{bfs, bfs_distances, dfs};

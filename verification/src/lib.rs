//! A minimal directed-graph container without pointer-based node references.
//!
//! Nodes live in a single append-only arena owned by [`Graph`]; a [`NodeRef`]
//! is a plain index into that arena, so the structure is cycle-safe and
//! move-safe by construction. The graph offers node creation, explicit edge
//! linking, reference-based lookup, and a breadth-first walk that reports each
//! visited node's outgoing connections in order.

mod bfs;
mod graph;
mod label;
mod node;

pub use bfs::bfs_events;
pub use bfs::bfs_from;
pub use bfs::count_false;
pub use bfs::is_path;
pub use bfs::lemma_bfs_source_block;
pub use bfs::lemma_bfs_total;
pub use bfs::lemma_count_false_update;
pub use bfs::lemma_walk_defined;
pub use bfs::lemma_walk_expands_each_node_once;
pub use bfs::lemma_walk_reaches_every_reachable_node;
pub use bfs::lemma_walk_visits_reachable_exactly_once;
pub use bfs::no_source;
pub use bfs::node_events;
pub use bfs::reachable;
pub use bfs::source_block_at;
pub use bfs::unvisited;
pub use bfs::Event;
pub use graph::graph_wf;
pub use graph::lemma_index_stability;
pub use graph::lemma_resolves_to_identity;
pub use graph::Graph;
pub use graph::Node;
pub use label::label_of;
pub use node::NodeModel;
pub use node::NodeRef;

//! Graphs whose structural invariants are enforced continuously.
//!
//! A graph exposes its vertices and edges as sequences; every derived query is
//! a filter over those. Each mutation capability states exactly when the graph
//! accepts an edit. Proxies present an altered view of any inner graph, and
//! the loop-free, unique, directed and undirected layers keep their invariant
//! over any inner graph, so both nest freely. The reflexive and weakly
//! connected layers, whose edits take several steps, run on the backing store
//! through the all-or-nothing batch.
pub mod graph;
pub mod edge;
pub mod property;
pub mod adj_list;
pub mod constraint;
pub mod constrained;
pub mod no_loops;
pub mod unique;
pub mod directedness;
pub mod reflexive;
pub mod weak;
pub mod edge_proxy;
pub mod subgraph_proxy;
pub mod reverse_graph;
pub mod vertex_proxy;
pub mod reach;
pub mod scc;

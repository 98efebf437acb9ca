//! In-memory storage core of a temporal multigraph: dense identifiers,
//! time indexes, versioned property cells, layered adjacency, node records
//! and the protocol that mutates them.

pub mod addition;
pub mod adj;
pub mod edge_store;
pub mod entities;
pub mod errors;
pub mod graph;
pub mod locked;
pub mod merging;
pub mod meta;
pub mod metrics;
pub mod node_store;
pub mod prop;
pub mod props;
pub mod seq_lemmas;
pub mod tcell;
pub mod timeindex;
pub mod tprop;
pub mod views;

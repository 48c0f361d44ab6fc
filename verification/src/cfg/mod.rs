//! Control-flow graphs of functions and the analyses on them.

pub mod block;
pub mod effects;
pub mod fact_laws;
pub mod function;
pub mod graph;
pub mod keys;
pub mod listing;
pub mod local_set;
pub mod metrics;
pub mod node_set;
pub mod provenance;
pub mod recovery;
pub mod scheduler;
pub mod ssa;

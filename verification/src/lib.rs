//! A verified core for a DAG-based BFT protocol: the consensus state machine that orders
//! certificates of a round-based DAG, the aggregators that turn votes into certificates and
//! certificates into proposal parents, and the bookkeeping of the primary and worker tasks.
//!
//! Everything here is plain computation over plain values; the tasks that receive and send
//! messages live outside this crate and call into it.

pub mod types;
pub mod committee;
pub mod maps;
pub mod dag;
pub mod graph;
pub mod consensus;
pub mod ordering;
pub mod safety;
pub mod keys;
pub mod messages;
pub mod aggregators;
pub mod header_waiter;
pub mod synchronizer;
pub mod quorum_waiter;
pub mod batch_maker;
pub mod render;

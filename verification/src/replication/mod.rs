//! Reads and writes across the nodes that hold a key.

pub mod coordinator;
pub mod quorum;
pub mod replication_laws;

pub use coordinator::ReplicationCoordinator;
pub use quorum::{QuorumConfig, QuorumResult};

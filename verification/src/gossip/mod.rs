//! Which nodes there are and which of them are alive.

pub mod chance;
pub mod detector;
pub mod gossip_laws;

pub use detector::{GossipConfig, GossipService, NodeStatus};

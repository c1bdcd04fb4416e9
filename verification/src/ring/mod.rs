//! Which nodes hold a key.

pub mod consistent_hash;
pub mod ring_laws;

pub use consistent_hash::{HashRing, Node};

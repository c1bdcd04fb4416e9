//! A replicated key-value store: storage, placement, quorum replication and
//! failure detection, with every rule stated as a contract and proved.

pub mod digest;
pub mod gossip;
pub mod grpc;
pub mod replication;
pub mod ring;
pub mod seqs;
pub mod storage;
pub mod str_map;
pub mod text;
pub mod text_laws;
pub mod wall_clock;

pub use str_map::StrMap;

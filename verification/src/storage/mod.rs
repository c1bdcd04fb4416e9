//! The storage of one node.

pub mod durability_laws;
pub mod engine;
pub mod memtable;
pub mod memtable_laws;
pub mod snapshot;
pub mod wal;

pub use engine::{StorageConfig, StorageEngine};
pub use memtable::{MemTable, VectorClock, VersionedValue};
pub use snapshot::SnapshotManager;
pub use wal::{WalEntry, WriteAheadLog};

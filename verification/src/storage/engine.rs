//! The storage engine of a node: the table, the log that makes its writes
//! durable, and the snapshots that shorten the log.

use vstd::prelude::*;

use crate::seqs::at_most;
use crate::storage::memtable::{
    clock_at, count, counter, incremented, lookup, merged, rows_in, rows_of, scanned, stored,
    tomb, total_size, unexpired, version_of, MemTable, Version, VersionedValue,
};
use crate::storage::snapshot::SnapshotManager;
use crate::storage::wal::{
    highest, lines_of, record, records_of, replayed, LogLine, Record, WalEntry, WriteAheadLog,
};
use crate::str_map::{as_map, keys_increase, lemma_as_map_take, StrMap};
use crate::text::key_le;
use crate::wall_clock::{clock_reading, now_ms};

verus! {

/// Configuration for the storage engine. Intervals are in nanoseconds.
#[derive(Debug)]
pub struct StorageConfig {
    pub data_dir: String,
    pub memtable_max_bytes: u64,
    pub snapshot_interval_ns: u64,
    pub ttl_reap_interval_ns: u64,
    pub max_snapshots: usize,
    pub node_id: String,
}

impl Clone for StorageConfig {
    fn clone(&self) -> (copy: Self)
        ensures
            copy == *self,
    {
        StorageConfig {
            data_dir: self.data_dir.clone(),
            memtable_max_bytes: self.memtable_max_bytes,
            snapshot_interval_ns: self.snapshot_interval_ns,
            ttl_reap_interval_ns: self.ttl_reap_interval_ns,
            max_snapshots: self.max_snapshots,
            node_id: self.node_id.clone(),
        }
    }
}

impl Default for StorageConfig {
    /// 64 MB of table, a snapshot every five minutes, of which three are kept,
    /// and a removal of expired entries every minute.
    fn default() -> (config: Self)
        ensures
            config.data_dir@ == "./data"@,
            config.memtable_max_bytes == 64 * 1024 * 1024,
            config.snapshot_interval_ns == 300 * 1_000_000_000,
            config.ttl_reap_interval_ns == 60 * 1_000_000_000,
            config.max_snapshots == 3,
            config.node_id@ == "node-0"@,
    {
        StorageConfig {
            data_dir: "./data".to_string(),
            memtable_max_bytes: 64 * 1024 * 1024,
            snapshot_interval_ns: 300 * 1_000_000_000,
            ttl_reap_interval_ns: 60 * 1_000_000_000,
            max_snapshots: 3,
            node_id: "node-0".to_string(),
        }
    }
}

/// The path of an entry of a directory.
pub open spec fn joined(dir: Seq<char>, name: Seq<char>) -> Seq<char> {
    if dir.len() == 0 || dir.last() == '/' {
        dir + name
    } else {
        dir + "/"@ + name
    }
}

/// The path of an entry of a directory.
fn join_path(dir: &str, name: &str) -> (path: String)
    ensures
        path@ == joined(dir@, name@),
{
    let mut path = dir.to_string();
    let n = dir.unicode_len();
    if n > 0 && dir.get_char(n - 1) != '/' {
        path.append("/");
    }
    path.append(name);
    path
}

impl StorageConfig {
    /// The path of the log file.
    pub fn wal_path(&self) -> (path: String)
        ensures
            path@ == joined(self.data_dir@, "wal.log"@),
    {
        join_path(self.data_dir.as_str(), "wal.log")
    }

    /// The directory of the snapshot files.
    pub fn snapshot_dir(&self) -> (path: String)
        ensures
            path@ == joined(self.data_dir@, "snapshots"@),
    {
        join_path(self.data_dir.as_str(), "snapshots")
    }
}

/// The table after the writes of log entries, one after the other.
pub open spec fn applied(table: Map<Seq<char>, Version>, entries: Seq<Record>) -> Map<
    Seq<char>,
    Version,
>
    decreases entries.len(),
{
    if entries.len() == 0 {
        table
    } else {
        applied(table, entries.drop_last()).insert(entries.last().key, entries.last().value)
    }
}

/// What a snapshot holds, or nothing where there is none.
pub open spec fn snapshot_table(snapshot: Option<StrMap<VersionedValue>>) -> Map<
    Seq<char>,
    Version,
> {
    match snapshot {
        Some(data) => as_map(rows_of(data.pairs())),
        None => Map::empty(),
    }
}

/// The version that a node writes over what is stored under a key.
pub open spec fn overwriting(
    table: Map<Seq<char>, Version>,
    key: Seq<char>,
    value: Seq<u8>,
    node: Seq<char>,
    ttl_ms: i64,
    now: i64,
) -> Version {
    Version {
        value,
        clock: merged(incremented(Map::empty(), node), clock_at(table, key)),
        timestamp_ms: now,
        ttl_ms,
        deleted: false,
    }
}

/// A write that waits for its entry to stand in the log file.
pub struct PendingWrite {
    /// The entry to append to the log file.
    pub entry: WalEntry,
    /// Whether a flush is to follow once the table is full.
    pub may_flush: bool,
}

/// The unified storage engine combining MemTable + WAL + Snapshots.
pub struct StorageEngine {
    memtable: MemTable,
    wal: WriteAheadLog,
    snapshots: SnapshotManager,
    config: StorageConfig,
}

impl View for StorageEngine {
    type V = Map<Seq<char>, Version>;

    open spec fn view(&self) -> Map<Seq<char>, Version> {
        as_map(self.rows())
    }
}

impl StorageEngine {
    /// The stored rows, in key order.
    pub closed spec fn rows(&self) -> Seq<(Seq<char>, Version)> {
        self.memtable.rows()
    }

    /// The size at which the table is full.
    pub closed spec fn max_size(&self) -> u64 {
        self.memtable.max_size()
    }

    /// The number of the last log entry.
    pub closed spec fn last(&self) -> u64 {
        self.wal.last()
    }

    /// The path of the log file.
    pub closed spec fn log_file(&self) -> Seq<char> {
        self.wal.file()
    }

    /// The directory of the snapshot files.
    pub closed spec fn snapshot_place(&self) -> Seq<char> {
        self.snapshots.place()
    }

    /// The configuration that the engine was opened with.
    pub closed spec fn settings(&self) -> StorageConfig {
        self.config
    }

    /// Whether the log has a number left for a deletion of a key, and the key's
    /// clock a count for this node.
    pub open spec fn deletable(&self, key: Seq<char>) -> bool {
        &&& self.last() < u64::MAX
        &&& count(clock_at(self@, key), self.settings().node_id@) < u64::MAX
    }

    /// Whether nothing but the table and the log's number differs.
    pub open spec fn same_setup(&self, other: &StorageEngine) -> bool {
        &&& self.settings() == other.settings()
        &&& self.max_size() == other.max_size()
        &&& self.log_file() == other.log_file()
        &&& self.snapshot_place() == other.snapshot_place()
    }

    /// Create and initialize the storage engine, recovering from the latest
    /// snapshot and then from the lines of the log on top of it.
    pub fn open(
        config: StorageConfig,
        snapshot: Option<StrMap<VersionedValue>>,
        lines: Vec<LogLine>,
    ) -> (engine: Self)
        ensures
            engine@ == applied(snapshot_table(snapshot), replayed(lines_of(lines@))),
            keys_increase(engine.rows()),
            engine.last() == highest(lines_of(lines@)),
            engine.settings() == config,
            engine.max_size() == config.memtable_max_bytes,
            engine.log_file() == joined(config.data_dir@, "wal.log"@),
            engine.snapshot_place() == joined(config.data_dir@, "snapshots"@),
    {
        let mut memtable = MemTable::new(config.memtable_max_bytes);
        let snapshots = SnapshotManager::new(config.snapshot_dir());
        let wal = WriteAheadLog::open(config.wal_path(), &lines);
        let ghost base = snapshot_table(snapshot);
        if let Some(data) = snapshot {
            let n = data.len();
            let ghost pairs = data.pairs();
            let ghost rows = rows_of(pairs);
            assert(rows.take(0) =~= Seq::empty());
            assert(as_map(rows.take(0)) =~= Map::empty());
            proof {
                assert forall|i: int, j: int| #![trigger rows[i], rows[j]]
                    0 <= i < j < rows.len() implies crate::text::key_lt(rows[i].0, rows[j].0) by {
                    assert(crate::text::key_lt(pairs[i].0, pairs[j].0));
                }
            }
            let mut i: usize = 0;
            while i < n
                invariant
                    i <= n,
                    n == pairs.len(),
                    pairs == data.pairs(),
                    rows == rows_of(pairs),
                    keys_increase(rows),
                    memtable@ == as_map(rows.take(i as int)),
                    memtable.max_size() == config.memtable_max_bytes,
                decreases n - i,
            {
                let (key, value) = data.at(i);
                proof {
                    lemma_as_map_take(rows, i as int);
                }
                assert(rows[i as int] == (key@, value@));
                memtable.put(key.clone(), value.clone());
                i = i + 1;
            }
            assert(rows.take(n as int) =~= rows);
        }
        assert(memtable@ == base);
        let found = WriteAheadLog::replay(lines);
        let ghost entries = records_of(found.entries@);
        assert(entries.take(0) =~= Seq::empty());
        let listed = found.entries;
        for entry in it: listed
            invariant
                it.seq() == listed@,
                entries == records_of(listed@),
                memtable@ == applied(base, entries.take(it.index())),
                memtable.max_size() == config.memtable_max_bytes,
        {
            let ghost i = it.index();
            assert(entries[i] == entry@);
            assert(entries.take(i + 1).drop_last() =~= entries.take(i));
            memtable.put(entry.key, entry.value);
        }
        assert(entries.take(entries.len() as int) =~= entries);
        memtable.recall_order();
        StorageEngine { memtable, wal, snapshots, config }
    }

    /// Get a value by key.
    pub fn get(&self, key: &str) -> (found: Option<VersionedValue>)
        ensures
            exists|now: i64|
                now >= 0 && clock_reading(now)
                    && version_of(found) == #[trigger] lookup(self@, key@, now),
    {
        let now = now_ms();
        self.get_at(key, now)
    }

    /// Get a value by key at a given time.
    pub fn get_at(&self, key: &str, now: i64) -> (found: Option<VersionedValue>)
        ensures
            version_of(found) == lookup(self@, key@, now),
    {
        self.memtable.get_at(key, now)
    }

    /// Get a raw value (including tombstones) for replication.
    pub fn get_raw(&self, key: &str) -> (found: Option<VersionedValue>)
        ensures
            version_of(found) == stored(self@, key@),
    {
        self.memtable.get_raw(key)
    }

    /// Begin to put a key-value pair. The entry is to be appended to the log
    /// first (durability); `commit` then brings it into the MemTable.
    pub fn put(&mut self, key: String, value: VersionedValue) -> (write: PendingWrite)
        requires
            old(self).last() < u64::MAX,
        ensures
            write.entry@ == record((old(self).last() + 1) as u64, key@, value@),
            write.may_flush,
            final(self).last() == old(self).last() + 1,
            final(self)@ == old(self)@,
            final(self).rows() == old(self).rows(),
            final(self).same_setup(old(self)),
    {
        let entry = self.wal.append(key, value);
        PendingWrite { entry, may_flush: true }
    }

    /// Begin to put a new value by creating a VersionedValue.
    pub fn put_raw(&mut self, key: String, value: Vec<u8>, ttl_ms: i64) -> (write: PendingWrite)
        requires
            old(self).last() < u64::MAX,
        ensures
            exists|now: i64|
                now >= 0 && clock_reading(now) && write.entry@ == record(
                    (old(self).last() + 1) as u64,
                    key@,
                    #[trigger] overwriting(
                        old(self)@,
                        key@,
                        value@,
                        old(self).settings().node_id@,
                        ttl_ms,
                        now,
                    ),
                ),
            write.may_flush,
            final(self).last() == old(self).last() + 1,
            final(self)@ == old(self)@,
            final(self).rows() == old(self).rows(),
            final(self).same_setup(old(self)),
    {
        let now = now_ms();
        self.put_raw_at(key, value, ttl_ms, now)
    }

    /// Begin to put a new value that is written at a given time.
    pub fn put_raw_at(
        &mut self,
        key: String,
        value: Vec<u8>,
        ttl_ms: i64,
        now: i64,
    ) -> (write: PendingWrite)
        requires
            old(self).last() < u64::MAX,
        ensures
            write.entry@ == record(
                (old(self).last() + 1) as u64,
                key@,
                overwriting(
                    old(self)@,
                    key@,
                    value@,
                    old(self).settings().node_id@,
                    ttl_ms,
                    now,
                ),
            ),
            write.may_flush,
            final(self).last() == old(self).last() + 1,
            final(self)@ == old(self)@,
            final(self).rows() == old(self).rows(),
            final(self).same_setup(old(self)),
    {
        let existing_clock = self.memtable.clock(key.as_str());
        let mut versioned = VersionedValue::new_at(
            value,
            self.config.node_id.as_str(),
            ttl_ms,
            now,
        );
        versioned.vector_clock.merge(&existing_clock);
        self.put(key, versioned)
    }

    /// Begin to delete a key (writes tombstone).
    pub fn delete(&mut self, key: &str) -> (write: PendingWrite)
        requires
            old(self).deletable(key@),
        ensures
            exists|now: i64|
                now >= 0 && clock_reading(now) && write.entry@ == record(
                    (old(self).last() + 1) as u64,
                    key@,
                    #[trigger] tomb(
                        old(self).settings().node_id@,
                        clock_at(old(self)@, key@),
                        now,
                    ),
                ),
            !write.may_flush,
            final(self).last() == old(self).last() + 1,
            final(self)@ == old(self)@,
            final(self).rows() == old(self).rows(),
            final(self).same_setup(old(self)),
    {
        let now = now_ms();
        self.delete_at(key, now)
    }

    /// Begin to delete a key with a tombstone that is written at a given time.
    pub fn delete_at(&mut self, key: &str, now: i64) -> (write: PendingWrite)
        requires
            old(self).deletable(key@),
        ensures
            write.entry@ == record(
                (old(self).last() + 1) as u64,
                key@,
                tomb(old(self).settings().node_id@, clock_at(old(self)@, key@), now),
            ),
            !write.may_flush,
            final(self).last() == old(self).last() + 1,
            final(self)@ == old(self)@,
            final(self).rows() == old(self).rows(),
            final(self).same_setup(old(self)),
    {
        let clock = self.memtable.clock(key);
        let tombstone = VersionedValue::tombstone_at(self.config.node_id.as_str(), &clock, now);
        let entry = self.wal.append(key.to_string(), tombstone);
        PendingWrite { entry, may_flush: false }
    }

    /// Whether a deletion of a key can still be numbered and counted.
    pub fn can_delete(&self, key: &str) -> (yes: bool)
        ensures
            yes == self.deletable(key@),
    {
        let clock = self.memtable.clock(key);
        self.wal.sequence() < u64::MAX && clock.get(self.config.node_id.as_str()) < u64::MAX
    }

    /// Bring a write whose entry stands in the log file into the MemTable.
    /// Returns true if a flush is to follow.
    pub fn commit(&mut self, write: PendingWrite) -> (flush: bool)
        ensures
            final(self)@ == old(self)@.insert(write.entry.key@, write.entry.value@),
            keys_increase(final(self).rows()),
            flush == (write.may_flush && counter(total_size(final(self).rows()) as int)
                >= old(self).max_size()),
            final(self).last() == old(self).last(),
            final(self).same_setup(old(self)),
    {
        let full = self.memtable.put(write.entry.key, write.entry.value);
        write.may_flush && full
    }

    /// Scan a range of keys.
    pub fn scan(
        &self,
        start: &str,
        end: &str,
        limit: usize,
    ) -> (found: Vec<(String, VersionedValue)>)
        requires
            key_le(start@, end@),
        ensures
            keys_increase(self.rows()),
            exists|now: i64|
                now >= 0 && clock_reading(now) && rows_in(found@) == at_most(
                    #[trigger] scanned(self.rows(), start@, end@, now),
                    limit as int,
                ),
    {
        let now = now_ms();
        self.scan_at(start, end, limit, now)
    }

    /// Scan a range of keys at a given time.
    pub fn scan_at(
        &self,
        start: &str,
        end: &str,
        limit: usize,
        now: i64,
    ) -> (found: Vec<(String, VersionedValue)>)
        requires
            key_le(start@, end@),
        ensures
            keys_increase(self.rows()),
            rows_in(found@) == at_most(scanned(self.rows(), start@, end@, now), limit as int),
    {
        self.memtable.scan_at(start, end, limit, now)
    }

    /// Begin a snapshot flush: the data to save in a snapshot file, or none
    /// where nothing is stored. Once it is saved and old snapshots are removed,
    /// `flushed` ends the flush.
    pub fn flush(&self) -> (data: Option<StrMap<VersionedValue>>)
        ensures
            keys_increase(self.rows()),
            data is None <==> self.rows().len() == 0,
            data matches Some(d) ==> rows_of(d.pairs()) == self.rows(),
    {
        let data = self.memtable.snapshot();
        let n = data.len();
        assert(rows_of(data.pairs()).len() == n);
        if n == 0 {
            return None;
        }
        Some(data)
    }

    /// End a snapshot flush: the log file is to be emptied.
    pub fn flushed(&mut self)
        ensures
            final(self).last() == 0,
            final(self)@ == old(self)@,
            final(self).rows() == old(self).rows(),
            final(self).same_setup(old(self)),
    {
        self.wal.truncate();
    }

    /// The names of the snapshot files to remove from the names in their
    /// directory, as many as the configuration does not keep.
    pub fn surplus_snapshots(&self, names: &Vec<String>) -> (removed: Vec<String>)
        ensures
            crate::text::texts(removed@) == crate::storage::snapshot::surplus(
                crate::text::texts(names@),
                self.settings().max_snapshots as nat,
            ),
    {
        self.snapshots.cleanup(names, self.config.max_snapshots)
    }

    /// Remove expired entries. Returns the number of entries removed.
    pub fn reap(&mut self) -> (removed: usize)
        ensures
            keys_increase(old(self).rows()),
            keys_increase(final(self).rows()),
            exists|now: i64|
                now >= 0 && clock_reading(now)
                    && final(self).rows() == #[trigger] unexpired(old(self).rows(), now),
            removed == old(self).rows().len() - final(self).rows().len(),
            final(self).last() == old(self).last(),
            final(self).same_setup(old(self)),
    {
        let now = now_ms();
        self.reap_at(now)
    }

    /// Remove the entries that have expired at a given time.
    pub fn reap_at(&mut self, now: i64) -> (removed: usize)
        ensures
            keys_increase(old(self).rows()),
            keys_increase(final(self).rows()),
            final(self).rows() == unexpired(old(self).rows(), now),
            removed == old(self).rows().len() - final(self).rows().len(),
            final(self).last() == old(self).last(),
            final(self).same_setup(old(self)),
    {
        self.memtable.evict_expired_at(now)
    }

    /// Get a reference to the inner MemTable.
    pub fn memtable(&self) -> (table: &MemTable)
        ensures
            table@ == self@,
            table.rows() == self.rows(),
            table.max_size() == self.max_size(),
    {
        &self.memtable
    }

    /// The inner log.
    pub fn wal(&self) -> (wal: &WriteAheadLog)
        ensures
            wal.last() == self.last(),
            wal.file() == self.log_file(),
    {
        &self.wal
    }

    /// The inner manager of snapshots.
    pub fn snapshots(&self) -> (manager: &SnapshotManager)
        ensures
            manager.place() == self.snapshot_place(),
    {
        &self.snapshots
    }

    /// The id of the node.
    pub fn node_id(&self) -> (id: &str)
        ensures
            id@ == self.settings().node_id@,
    {
        self.config.node_id.as_str()
    }

    /// The directory of the node's files.
    pub fn data_dir(&self) -> (dir: &str)
        ensures
            dir@ == self.settings().data_dir@,
    {
        self.config.data_dir.as_str()
    }

    /// The configuration that the engine was opened with.
    pub fn config(&self) -> (config: &StorageConfig)
        ensures
            *config == self.settings(),
    {
        &self.config
    }
}

} // verus!

//! The storage engine.

use rkv::storage::engine::PendingWrite;
use rkv::storage::wal::LogLine;
use rkv::storage::{StorageConfig, StorageEngine, VectorClock, VersionedValue};
use rkv::StrMap;

/// What stands on disk.
struct Disk {
    snapshot: Option<StrMap<VersionedValue>>,
    lines: Vec<LogLine>,
}

fn disk() -> Disk {
    Disk {
        snapshot: None,
        lines: Vec::new(),
    }
}

fn config() -> StorageConfig {
    StorageConfig {
        data_dir: "/data/test".to_string(),
        memtable_max_bytes: 1024 * 1024,
        snapshot_interval_ns: 3_600_000_000_000,
        ttl_reap_interval_ns: 3_600_000_000_000,
        max_snapshots: 3,
        node_id: "test-node".to_string(),
    }
}

/// Opens an engine over what stands on disk, which stays there.
fn open(disk: &Disk) -> StorageEngine {
    let mut lines = Vec::new();
    for line in &disk.lines {
        lines.push(match line {
            LogLine::Unreadable => LogLine::Unreadable,
            LogLine::Text { text, parsed } => LogLine::Text {
                text: text.clone(),
                parsed: parsed.clone(),
            },
        });
    }
    StorageEngine::open(config(), disk.snapshot.clone(), lines)
}

/// Logs and commits a write.
fn log(disk: &mut Disk, engine: &mut StorageEngine, write: PendingWrite) -> bool {
    disk.lines.push(LogLine::Text {
        text: format!("{{{}}}", write.entry.sequence),
        parsed: Some(write.entry.clone()),
    });
    engine.commit(write)
}

fn put(disk: &mut Disk, engine: &mut StorageEngine, key: &str, value: &[u8]) {
    let write = engine.put_raw(key.to_string(), value.to_vec(), 0);
    log(disk, engine, write);
}

fn flush(disk: &mut Disk, engine: &mut StorageEngine) {
    if let Some(data) = engine.flush() {
        disk.snapshot = Some(data);
        disk.lines.clear();
        engine.flushed();
    }
}

#[test]
fn engine_test_put_and_get() {
    let mut disk = disk();
    let mut engine = open(&disk);

    put(&mut disk, &mut engine, "hello", b"world");
    let val = engine.get("hello").unwrap();
    assert_eq!(val.value, b"world");
}

#[test]
fn engine_test_delete() {
    let mut disk = disk();
    let mut engine = open(&disk);

    put(&mut disk, &mut engine, "key", b"val");
    let write = engine.delete("key");
    log(&mut disk, &mut engine, write);
    assert!(engine.get("key").is_none());
}

#[test]
fn test_flush_and_recovery() {
    let mut disk = disk();

    // Write and flush
    {
        let mut engine = open(&disk);
        put(&mut disk, &mut engine, "k1", b"v1");
        put(&mut disk, &mut engine, "k2", b"v2");
        flush(&mut disk, &mut engine);
    }

    // Recover from snapshot
    {
        assert!(disk.lines.is_empty());
        let engine = open(&disk);
        assert_eq!(engine.get("k1").unwrap().value, b"v1");
        assert_eq!(engine.get("k2").unwrap().value, b"v2");
    }
}

#[test]
fn test_wal_recovery_without_snapshot() {
    let mut disk = disk();

    // Write without flushing
    {
        let mut engine = open(&disk);
        put(&mut disk, &mut engine, "k1", b"v1");
        put(&mut disk, &mut engine, "k2", b"v2");
        // No flush: data is only in WAL
    }

    // Recover from WAL
    {
        assert!(disk.snapshot.is_none());
        let engine = open(&disk);
        assert_eq!(engine.get("k1").unwrap().value, b"v1");
        assert_eq!(engine.get("k2").unwrap().value, b"v2");
    }
}

#[test]
fn test_scan() {
    let mut disk = disk();
    let mut engine = open(&disk);

    for i in 0..10 {
        let key = format!("key{:02}", i);
        put(&mut disk, &mut engine, &key, format!("val{}", i).as_bytes());
    }

    let results = engine.scan("key03", "key07", 100);
    assert_eq!(results.len(), 4);
}

#[test]
fn the_default_configuration() {
    let config = StorageConfig::default();
    assert_eq!(config.data_dir, "./data");
    assert_eq!(config.memtable_max_bytes, 67_108_864);
    assert_eq!(config.snapshot_interval_ns, 300_000_000_000);
    assert_eq!(config.ttl_reap_interval_ns, 60_000_000_000);
    assert_eq!(config.max_snapshots, 3);
    assert_eq!(config.node_id, "node-0");
    assert_eq!(config.wal_path(), "./data/wal.log");
    assert_eq!(config.snapshot_dir(), "./data/snapshots");
}

#[test]
fn paths_are_joined_with_one_slash() {
    let mut config = config();
    config.data_dir = "/var/rkv/".to_string();
    assert_eq!(config.wal_path(), "/var/rkv/wal.log");
    config.data_dir = String::new();
    assert_eq!(config.wal_path(), "wal.log");
    let engine = StorageEngine::open(config, None, Vec::new());
    assert_eq!(engine.wal().path(), "wal.log");
    assert_eq!(engine.snapshots().dir(), "snapshots");
    assert_eq!(engine.data_dir(), "");
    assert_eq!(engine.node_id(), "test-node");
}

#[test]
fn a_write_is_not_seen_before_it_is_committed() {
    let mut engine = open(&disk());
    let write = engine.put_raw_at("k".to_string(), b"v".to_vec(), 0, 5);
    assert_eq!(write.entry.sequence, 1);
    assert!(write.entry.verify());
    assert!(write.may_flush);
    assert!(engine.get_raw("k").is_none());
    assert!(!engine.commit(write));
    assert_eq!(engine.get_raw("k").unwrap().value, b"v");
    assert_eq!(engine.wal().sequence(), 1);
    assert_eq!(engine.memtable().len(), 1);
}

#[test]
fn an_overwrite_merges_the_clock() {
    let mut engine = open(&disk());
    let mut old = VersionedValue::new_at(b"old".to_vec(), "other", 0, 1);
    old.vector_clock.increment("other");
    let write = engine.put("k".to_string(), old);
    engine.commit(write);
    let write = engine.put_raw_at("k".to_string(), b"new".to_vec(), 9, 2);
    engine.commit(write);
    let new = engine.get_raw("k").unwrap();
    assert_eq!(new.value, b"new");
    assert_eq!((new.timestamp_ms, new.ttl_ms, new.deleted), (2, 9, false));
    assert_eq!(new.vector_clock.get("other"), 2);
    assert_eq!(new.vector_clock.get("test-node"), 1);
    let write = engine.put_raw_at("k".to_string(), b"newer".to_vec(), 0, 3);
    engine.commit(write);
    assert!(engine.get_raw("k").unwrap().vector_clock == new.vector_clock);
}

#[test]
fn a_delete_writes_a_tombstone_and_no_flush() {
    let mut disk = disk();
    let mut small = config();
    small.memtable_max_bytes = 1;
    let mut engine = StorageEngine::open(small, None, Vec::new());
    let write = engine.put_raw_at("k".to_string(), b"v".to_vec(), 0, 1);
    assert!(log(&mut disk, &mut engine, write));
    let write = engine.delete_at("k", 2);
    assert!(!write.may_flush);
    assert!(!log(&mut disk, &mut engine, write));
    let raw = engine.get_raw("k").unwrap();
    assert!(raw.deleted);
    assert_eq!(raw.vector_clock.get("test-node"), 2);
    assert!(engine.get_at("k", 3).is_none());
    let again = open(&disk);
    assert!(again.get_raw("k").unwrap() == raw);
    assert!(engine.can_delete("k"));
}

#[test]
fn can_delete_ends_with_the_counters() {
    let mut engine = open(&disk());
    let mut value = VersionedValue::new_at(b"v".to_vec(), "x", 0, 1);
    let mut clock = VectorClock::new();
    clock.clocks.insert("test-node".to_string(), u64::MAX);
    value.vector_clock = clock;
    let write = engine.put("k".to_string(), value);
    engine.commit(write);
    assert!(!engine.can_delete("k"));
    assert!(engine.can_delete("other"));
}

#[test]
fn a_log_that_was_not_emptied_replays_to_the_same_table() {
    let mut disk = disk();
    let mut engine = open(&disk);
    put(&mut disk, &mut engine, "a", b"1");
    put(&mut disk, &mut engine, "a", b"2");
    put(&mut disk, &mut engine, "b", b"3");
    disk.snapshot = engine.flush();
    let again = open(&disk);
    assert_eq!(again.memtable().len(), 2);
    assert!(again.get_raw("a").unwrap() == engine.get_raw("a").unwrap());
    assert!(again.get_raw("b").unwrap() == engine.get_raw("b").unwrap());
    assert_eq!(again.wal().sequence(), 3);
}

#[test]
fn a_flush_of_nothing_saves_nothing() {
    let engine = open(&disk());
    assert!(engine.flush().is_none());
}

#[test]
fn numbers_start_over_after_a_flush() {
    let mut disk = disk();
    let mut engine = open(&disk);
    put(&mut disk, &mut engine, "a", b"1");
    flush(&mut disk, &mut engine);
    assert_eq!(engine.wal().sequence(), 0);
    put(&mut disk, &mut engine, "b", b"2");
    assert_eq!(engine.wal().sequence(), 1);
    let again = open(&disk);
    assert_eq!(again.get("a").unwrap().value, b"1");
    assert_eq!(again.get("b").unwrap().value, b"2");
}

#[test]
fn the_log_wins_over_the_snapshot() {
    let mut disk = disk();
    let mut engine = open(&disk);
    put(&mut disk, &mut engine, "a", b"old");
    flush(&mut disk, &mut engine);
    put(&mut disk, &mut engine, "a", b"new");
    assert_eq!(open(&disk).get("a").unwrap().value, b"new");
}

#[test]
fn reaping_keeps_reads() {
    let mut disk = disk();
    let mut engine = open(&disk);
    let write = engine.put_raw_at("a".to_string(), b"1".to_vec(), 10, 100);
    log(&mut disk, &mut engine, write);
    let write = engine.put_raw_at("b".to_string(), b"2".to_vec(), 0, 100);
    log(&mut disk, &mut engine, write);
    assert_eq!(engine.reap_at(111), 1);
    assert!(engine.get_raw("a").is_none());
    disk.snapshot = engine.flush();
    let again = open(&disk);
    assert!(again.get_raw("a").is_some());
    assert!(again.get_at("a", 111).is_none());
    assert_eq!(again.get_at("b", 111).unwrap().value, b"2");
    assert_eq!(engine.reap(), 0);
}

#[test]
fn surplus_snapshots_go_by_the_configuration() {
    let engine = open(&disk());
    let names: Vec<String> = (1..=5).map(|i| format!("snapshot_{}.dat", i)).collect();
    assert_eq!(
        engine.surplus_snapshots(&names),
        ["snapshot_1.dat", "snapshot_2.dat"]
    );
    assert_eq!(engine.config().max_snapshots, 3);
}

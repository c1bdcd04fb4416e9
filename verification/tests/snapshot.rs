//! Snapshot files.

use rkv::storage::snapshot::{frame, unframe, SnapshotError, SnapshotFile};
use rkv::storage::{SnapshotManager, VersionedValue};
use rkv::StrMap;

type Row = (String, Vec<u8>, i64, i64, bool);

fn serialize(data: &StrMap<VersionedValue>) -> Vec<u8> {
    let mut rows: Vec<Row> = Vec::new();
    for i in 0..data.len() {
        let (key, v) = data.at(i);
        rows.push((
            key.clone(),
            v.value.clone(),
            v.timestamp_ms,
            v.ttl_ms,
            v.deleted,
        ));
    }
    bincode::serialize(&rows).unwrap()
}

fn deserialize(bytes: &[u8]) -> StrMap<VersionedValue> {
    let rows: Vec<Row> = bincode::deserialize(bytes).unwrap();
    let mut data = StrMap::new();
    for (key, value, timestamp_ms, ttl_ms, deleted) in rows {
        let mut v = VersionedValue::new_at(value, "node1", ttl_ms, timestamp_ms);
        v.deleted = deleted;
        data.insert(key, v);
    }
    data
}

fn make_data() -> StrMap<VersionedValue> {
    let mut data = StrMap::new();
    for i in 0..100 {
        let key = format!("key_{:04}", i);
        let val = VersionedValue::new(format!("value_{}", i).into_bytes(), "node1", 0);
        data.insert(key, val);
    }
    data
}

fn manager() -> SnapshotManager {
    SnapshotManager::new("snapshots".to_string())
}

/// Waits until the wall clock has moved on by some milliseconds.
fn wait_ms(ms: i64) {
    let start = VersionedValue::new(Vec::new(), "clock", 0).timestamp_ms;
    while VersionedValue::new(Vec::new(), "clock", 0).timestamp_ms < start + ms {}
}

fn names(list: &[&str]) -> Vec<String> {
    list.iter().map(|s| s.to_string()).collect()
}

#[test]
fn test_save_and_load() {
    let mgr = manager();
    let data = make_data();

    let file = mgr.save(&serialize(&data));
    assert!(file.name.starts_with("snapshot_"));

    let loaded = deserialize(&mgr.load_snapshot(&file.bytes).unwrap());
    assert_eq!(loaded.len(), data.len());
    for i in 0..data.len() {
        let (k, v) = data.at(i);
        assert_eq!(loaded.get(k).unwrap().value, v.value);
    }
}

#[test]
fn test_load_latest() {
    let mgr = manager();
    let mut files: Vec<SnapshotFile> = Vec::new();

    // No snapshots yet
    assert!(mgr.load_latest(&files).unwrap().is_none());

    // Save two snapshots
    let mut data1 = StrMap::new();
    data1.insert("a".to_string(), VersionedValue::new(b"1".to_vec(), "n1", 0));
    files.push(mgr.save(&serialize(&data1)));

    wait_ms(10);

    let mut data2 = StrMap::new();
    data2.insert("b".to_string(), VersionedValue::new(b"2".to_vec(), "n1", 0));
    files.push(mgr.save(&serialize(&data2)));

    let latest = deserialize(&mgr.load_latest(&files).unwrap().unwrap());
    assert!(latest.contains_key("b"));
    assert!(!latest.contains_key("a"));
}

#[test]
fn test_cleanup() {
    let mgr = manager();
    let data: StrMap<VersionedValue> = StrMap::new();
    let mut dir: Vec<String> = Vec::new();

    for _ in 0..5 {
        dir.push(mgr.save(&serialize(&data)).name);
        wait_ms(5);
    }

    let removed = mgr.cleanup(&dir, 2);
    assert_eq!(removed.len(), 3);

    // Should be 2 files left
    dir.retain(|name| !removed.contains(name));
    assert_eq!(dir.len(), 2);
}

#[test]
fn test_corrupt_snapshot() {
    let mgr = manager();
    let data = make_data();
    let mut file = mgr.save(&serialize(&data));

    // Corrupt the file
    if let Some(b) = file.bytes.last_mut() {
        *b ^= 0xff;
    }

    let result = mgr.load_snapshot(&file.bytes);
    assert!(result.is_err());
}

#[test]
fn a_file_is_the_checksum_and_the_payload() {
    let mgr = manager();
    let file = mgr.save_at(b"123456789", 1_700_000_000_123);
    assert_eq!(file.name, "snapshot_1700000000123.dat");
    assert_eq!(&file.bytes[..4], &[0x26, 0x39, 0xf4, 0xcb]);
    assert_eq!(&file.bytes[4..], b"123456789");
    assert_eq!(mgr.load_snapshot(&file.bytes).unwrap(), b"123456789");
    assert_eq!(mgr.save_at(b"", 0).name, "snapshot_0.dat");
    assert_eq!(mgr.dir(), "snapshots");
}

#[test]
fn a_short_file_is_refused() {
    let mgr = manager();
    assert_eq!(mgr.load_snapshot(&[1, 2, 3]), Err(SnapshotError::TooShort));
    assert_eq!(SnapshotError::TooShort.message(), "failed to fill whole buffer");
}

#[test]
fn a_checksum_mismatch_is_named() {
    let mgr = manager();
    let mut bytes = vec![1, 1, 0, 0];
    bytes.extend_from_slice(b"123456789");
    let error = mgr.load_snapshot(&bytes).unwrap_err();
    assert_eq!(
        error,
        SnapshotError::ChecksumMismatch {
            expected: 257,
            actual: 0xcbf4_3926
        }
    );
    assert_eq!(
        error.message(),
        "Snapshot checksum mismatch: expected 257, got 3421780262"
    );
}

#[test]
fn the_latest_is_the_most_recent() {
    let mgr = manager();
    let dir = names(&[
        "snapshot_10.dat",
        "wal.log",
        "snapshot_9.dat",
        "snapshot_11.tmp",
        "old_snapshot_12.dat",
    ]);
    assert_eq!(mgr.find_latest(&dir), Some(0));
    assert_eq!(mgr.find_latest(&names(&["a", "b"])), None);
    assert_eq!(mgr.find_latest(&Vec::new()), None);
}

#[test]
fn names_go_by_number_and_then_by_bytes() {
    let mgr = manager();
    let dir = names(&[
        "snapshot_b.dat",
        "snapshot_100.dat",
        "snapshot_a.dat",
        "snapshot_99.dat",
        "snapshot_.dat",
        "snapshot_099.dat",
    ]);
    assert_eq!(
        mgr.list_by_age(&dir),
        [
            "snapshot_.dat",
            "snapshot_099.dat",
            "snapshot_99.dat",
            "snapshot_100.dat",
            "snapshot_a.dat",
            "snapshot_b.dat"
        ]
    );
}

#[test]
fn times_of_any_length_are_compared() {
    let mgr = manager();
    let dir = names(&[
        "snapshot_100000000000000000000000000.dat",
        "snapshot_18446744073709551616.dat",
        "snapshot_18446744073709551615.dat",
        "snapshot_99999999999999999999999999.dat",
    ]);
    assert_eq!(
        mgr.list_by_age(&dir),
        [
            "snapshot_18446744073709551615.dat",
            "snapshot_18446744073709551616.dat",
            "snapshot_99999999999999999999999999.dat",
            "snapshot_100000000000000000000000000.dat"
        ]
    );
}

#[test]
fn a_copy_is_as_old_as_its_time_tells() {
    let mgr = manager();
    let dir = names(&["snapshot_5.dat", "snapshot_4-copy.dat"]);
    assert_eq!(mgr.find_latest(&dir), Some(0));
    assert_eq!(mgr.cleanup(&dir, 1), ["snapshot_4-copy.dat"]);
    let dir = names(&["snapshot_5.dat", "snapshot_5-copy.dat"]);
    assert_eq!(mgr.list_by_age(&dir), ["snapshot_5-copy.dat", "snapshot_5.dat"]);
}

#[test]
fn a_cleanup_removes_the_oldest_first() {
    let mgr = manager();
    let dir = names(&[
        "snapshot_300.dat",
        "snapshot_5.dat",
        "notes.txt",
        "snapshot_1000.dat",
        "snapshot_40.dat",
    ]);
    assert_eq!(
        mgr.cleanup(&dir, 1),
        ["snapshot_5.dat", "snapshot_40.dat", "snapshot_300.dat"]
    );
    assert_eq!(mgr.cleanup(&dir, 0).len(), 4);
    assert!(mgr.cleanup(&dir, 4).is_empty());
    assert!(mgr.cleanup(&dir, 9).is_empty());
}

#[test]
fn a_frame_is_undone_with_the_checksum() {
    let bytes = frame(0x0403_0201, b"payload");
    assert_eq!(&bytes[..4], &[1, 2, 3, 4]);
    assert_eq!(unframe(&bytes, 0x0403_0201).unwrap(), b"payload");
    assert_eq!(
        unframe(&bytes, 5),
        Err(SnapshotError::ChecksumMismatch {
            expected: 0x0403_0201,
            actual: 5
        })
    );
    assert_eq!(unframe(&bytes[..3], 5), Err(SnapshotError::TooShort));
    assert!(unframe(&[0, 0, 0, 0], 0).unwrap().is_empty());
}

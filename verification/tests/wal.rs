//! The write-ahead log.

use rkv::storage::wal::{Found, LogLine};
use rkv::storage::{VersionedValue, WalEntry, WriteAheadLog};

fn make_value(data: &[u8]) -> VersionedValue {
    VersionedValue::new(data.to_vec(), "test-node", 0)
}

fn line(entry: WalEntry) -> LogLine {
    LogLine::Text {
        text: format!("entry {}", entry.sequence),
        parsed: Some(entry),
    }
}

#[test]
fn test_append_and_replay() {
    let mut lines = Vec::new();

    // Write entries
    {
        let mut wal = WriteAheadLog::open("test.wal".to_string(), &lines);
        lines.push(line(wal.append("key1".to_string(), make_value(b"value1"))));
        lines.push(line(wal.append("key2".to_string(), make_value(b"value2"))));
        lines.push(line(wal.append("key3".to_string(), make_value(b"value3"))));
        assert_eq!(wal.sequence(), 3);
    }

    // Replay
    let entries = WriteAheadLog::replay(lines).entries;
    assert_eq!(entries.len(), 3);
    assert_eq!(entries[0].key, "key1");
    assert_eq!(entries[1].key, "key2");
    assert_eq!(entries[2].key, "key3");
}

#[test]
fn test_checksum_verification() {
    let val = make_value(b"test");
    let entry = WalEntry::new(1, "k".to_string(), val);
    assert!(entry.verify());

    // Corrupt it
    let mut corrupted = entry.clone();
    corrupted.key = "tampered".to_string();
    assert!(!corrupted.verify());
}

#[test]
fn test_truncate() {
    let mut lines = Vec::new();
    let mut wal = WriteAheadLog::open("test.wal".to_string(), &lines);
    lines.push(line(wal.append("k1".to_string(), make_value(b"v1"))));
    lines.push(line(wal.append("k2".to_string(), make_value(b"v2"))));
    wal.truncate();
    lines.clear();

    let entries = WriteAheadLog::replay(lines).entries;
    assert!(entries.is_empty());
    assert_eq!(wal.sequence(), 0);
}

#[test]
fn test_reopen_continues_sequence() {
    let mut lines = Vec::new();
    {
        let mut wal = WriteAheadLog::open("test.wal".to_string(), &lines);
        lines.push(line(wal.append("k1".to_string(), make_value(b"v1"))));
        lines.push(line(wal.append("k2".to_string(), make_value(b"v2"))));
    }

    let wal = WriteAheadLog::open("test.wal".to_string(), &lines);
    assert_eq!(wal.sequence(), 2);
    assert_eq!(wal.path(), "test.wal");
}

#[test]
fn test_replay_nonexistent() {
    let entries = WriteAheadLog::replay(Vec::new()).entries;
    assert!(entries.is_empty());
}

#[test]
fn checksum_is_the_crc_of_number_key_value_and_timestamp() {
    let value = VersionedValue::new_at(b"6789".to_vec(), "n", 0, -2);
    let entry = WalEntry::new(0x0201, "12345".to_string(), value);
    let mut bytes = vec![1u8, 2, 0, 0, 0, 0, 0, 0];
    bytes.extend_from_slice(b"123456789");
    bytes.extend_from_slice(&[0xfe, 0xff, 0xff, 0xff, 0xff, 0xff, 0xff, 0xff]);
    assert_eq!(entry.checksum, crc32fast::hash(&bytes));
    assert_eq!(entry.checksum, entry.compute_checksum());
    assert_ne!(entry.checksum, 0);
    assert_eq!(crc32fast::hash(b"123456789"), 0xcbf4_3926);
}

#[test]
fn each_covered_field_changes_the_checksum() {
    let value = VersionedValue::new_at(b"value".to_vec(), "n", 0, 1000);
    let entry = WalEntry::new(7, "key".to_string(), value);
    let mut other = entry.clone();
    other.sequence = 8;
    assert!(!other.verify());
    let mut other = entry.clone();
    other.value.value = b"valuf".to_vec();
    assert!(!other.verify());
    let mut other = entry.clone();
    other.value.timestamp_ms = 1001;
    assert!(!other.verify());
    let mut other = entry.clone();
    other.value.ttl_ms = 5;
    assert!(other.verify());
}

#[test]
fn replay_skips_blank_unreadable_and_corrupt_lines() {
    let good = WalEntry::new(1, "a".to_string(), make_value(b"1"));
    let last = WalEntry::new(9, "c".to_string(), make_value(b"3"));
    let mut bad = WalEntry::new(12, "b".to_string(), make_value(b"2"));
    bad.checksum ^= 1;
    let lines = vec![
        line(good),
        LogLine::Unreadable,
        LogLine::Text { text: " \t\u{a0}".to_string(), parsed: None },
        LogLine::Text { text: "{not an entry".to_string(), parsed: None },
        line(bad),
        LogLine::Text { text: String::new(), parsed: None },
        line(last),
    ];
    let wal = WriteAheadLog::open("p".to_string(), &lines);
    assert_eq!(wal.sequence(), 12);
    let found = WriteAheadLog::replay(lines);
    assert_eq!(found.corrupt, 2);
    assert_eq!(found.entries.len(), 2);
    assert_eq!(found.entries[0].key, "a");
    assert_eq!(found.entries[1].key, "c");
}

#[test]
fn covered_bytes_are_number_key_value_and_timestamp() {
    let value = VersionedValue::new_at(b"v".to_vec(), "n", 0, 258);
    let entry = WalEntry::new(3, "k".to_string(), value);
    assert_eq!(
        entry.covered_bytes(),
        [3, 0, 0, 0, 0, 0, 0, 0, b'k', b'v', 2, 1, 0, 0, 0, 0, 0, 0]
    );
}

#[test]
fn a_line_is_judged_by_its_text_and_checksum() {
    let entry = || {
        let mut entry = WalEntry::new(1, "k".to_string(), make_value(b"v"));
        entry.checksum = 7;
        entry
    };
    match line(entry()).examine(false, 7) {
        Found::Entry(found) => assert_eq!(found.key, "k"),
        _ => panic!("expected an entry"),
    }
    assert!(matches!(line(entry()).examine(false, 8), Found::Corrupt));
    assert!(matches!(line(entry()).examine(true, 7), Found::Nothing));
    assert!(matches!(LogLine::Unreadable.examine(false, 0), Found::Nothing));
    let bare = LogLine::Text {
        text: "x".to_string(),
        parsed: None,
    };
    assert!(matches!(bare.examine(false, 0), Found::Corrupt));
}

#[test]
fn an_appended_entry_is_replayed_last() {
    let first = WalEntry::new(7, "first".to_string(), make_value(b"1"));
    let broken = LogLine::Text {
        text: "{\"sequence\":".to_string(),
        parsed: None,
    };
    let mut log = vec![line(first), broken];
    let mut wal = WriteAheadLog::open("test.wal".to_string(), &log);
    assert_eq!(wal.sequence(), 7);
    let second = wal.append("second".to_string(), make_value(b"2"));
    log.push(LogLine::Text {
        text: "{\"sequence\":8}".to_string(),
        parsed: Some(second.clone()),
    });
    assert_eq!(WriteAheadLog::open("test.wal".to_string(), &log).sequence(), 8);
    let found = WriteAheadLog::replay(log);
    assert_eq!(found.corrupt, 1);
    let replayed: Vec<(u64, &str)> =
        found.entries.iter().map(|e| (e.sequence, e.key.as_str())).collect();
    assert_eq!(replayed, [(7, "first"), (8, "second")]);
    assert_eq!(found.entries[1].value.value, second.value.value);
}

#[test]
fn joined_logs_replay_one_after_the_other() {
    let entry = |n: u64| WalEntry::new(n, format!("k{}", n), make_value(b"v"));
    let joined = vec![line(entry(1)), line(entry(2)), line(entry(1)), line(entry(5))];
    let found = WriteAheadLog::replay(joined);
    let keys: Vec<&str> = found.entries.iter().map(|e| e.key.as_str()).collect();
    assert_eq!(keys, ["k1", "k2", "k1", "k5"]);
    assert_eq!(found.corrupt, 0);
}

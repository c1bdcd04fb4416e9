//! Vector clocks, versioned values and the table.

use rkv::storage::memtable::TOMBSTONE_TTL_MS;
use rkv::storage::{MemTable, VectorClock, VersionedValue};

fn clock(counts: &[(&str, u64)]) -> VectorClock {
    let mut clock = VectorClock::new();
    for (node, n) in counts {
        clock.clocks.insert(node.to_string(), *n);
    }
    clock
}

fn at(value: &[u8], ttl_ms: i64, now: i64) -> VersionedValue {
    VersionedValue::new_at(value.to_vec(), "n1", ttl_ms, now)
}

#[test]
fn memtable_test_put_and_get() {
    let mut mt = MemTable::new(1024 * 1024);
    let val = VersionedValue::new(b"hello".to_vec(), "node1", 0);
    mt.put("key1".to_string(), val.clone());

    let result = mt.get("key1").unwrap();
    assert_eq!(result.value, b"hello");
}

#[test]
fn test_get_nonexistent() {
    let mt = MemTable::new(1024 * 1024);
    assert!(mt.get("nope").is_none());
}

#[test]
fn memtable_test_delete() {
    let mut mt = MemTable::new(1024 * 1024);
    let val = VersionedValue::new(b"hello".to_vec(), "node1", 0);
    mt.put("key1".to_string(), val);
    mt.delete("key1", "node1");
    assert!(mt.get("key1").is_none());
}

/// Waits until the wall clock has moved on by some milliseconds.
fn wait_ms(ms: i64) {
    let start = VersionedValue::new(Vec::new(), "clock", 0).timestamp_ms;
    while VersionedValue::new(Vec::new(), "clock", 0).timestamp_ms < start + ms {}
}

#[test]
fn test_ttl_expiry() {
    let mut mt = MemTable::new(1024 * 1024);
    let val = VersionedValue::new(b"ephemeral".to_vec(), "node1", 50); // 50ms TTL
    mt.put("key1".to_string(), val);

    assert!(mt.get("key1").is_some());
    wait_ms(60);
    assert!(mt.get("key1").is_none());
}

#[test]
fn test_evict_expired() {
    let mut mt = MemTable::new(1024 * 1024);
    mt.put(
        "exp".to_string(),
        VersionedValue::new(b"bye".to_vec(), "n1", 10),
    );
    mt.put(
        "keep".to_string(),
        VersionedValue::new(b"stay".to_vec(), "n1", 0),
    );
    wait_ms(20);
    let removed = mt.evict_expired();
    assert_eq!(removed, 1);
    assert_eq!(mt.len(), 1);
}

#[test]
fn test_scan_range() {
    let mut mt = MemTable::new(1024 * 1024);
    for i in 0..10 {
        let key = format!("key{:02}", i);
        mt.put(
            key,
            VersionedValue::new(format!("val{}", i).into_bytes(), "n1", 0),
        );
    }
    let results = mt.scan("key03", "key07", 100);
    assert_eq!(results.len(), 4); // key03, key04, key05, key06
}

#[test]
fn test_vector_clock_dominates() {
    let mut vc1 = VectorClock::new();
    vc1.increment("a");
    vc1.increment("a");

    let mut vc2 = VectorClock::new();
    vc2.increment("a");

    assert!(vc1.dominates(&vc2));
    assert!(!vc2.dominates(&vc1));
}

#[test]
fn test_vector_clock_concurrent() {
    let mut vc1 = VectorClock::new();
    vc1.increment("a");

    let mut vc2 = VectorClock::new();
    vc2.increment("b");

    assert!(vc1.is_concurrent_with(&vc2));
}

#[test]
fn test_drain() {
    let mut mt = MemTable::new(1024 * 1024);
    mt.put(
        "k1".to_string(),
        VersionedValue::new(b"v1".to_vec(), "n1", 0),
    );
    mt.put(
        "k2".to_string(),
        VersionedValue::new(b"v2".to_vec(), "n1", 0),
    );
    let drained = mt.drain();
    assert_eq!(drained.len(), 2);
    assert!(mt.is_empty());
}

#[test]
fn clocks_with_the_same_counts_do_not_dominate() {
    let a = clock(&[("a", 2), ("b", 1)]);
    let b = clock(&[("b", 1), ("a", 2)]);
    assert!(!a.dominates(&b));
    assert!(!b.dominates(&a));
    assert!(!a.is_concurrent_with(&b));
    assert!(a == b);
}

#[test]
fn a_listed_count_of_zero_is_no_lead() {
    let zero = clock(&[("a", 0)]);
    let none = clock(&[]);
    assert!(!zero.dominates(&none));
    assert!(!none.dominates(&zero));
    assert!(zero != none);
    assert!(zero.is_concurrent_with(&none));
}

#[test]
fn a_node_that_the_other_clock_lacks_is_a_lead() {
    let a = clock(&[("a", 1), ("b", 1)]);
    let b = clock(&[("a", 1)]);
    assert!(a.dominates(&b));
    assert!(!b.dominates(&a));
}

#[test]
fn merge_takes_the_larger_counts() {
    let mut a = clock(&[("a", 3), ("b", 1)]);
    let b = clock(&[("b", 4), ("c", 2)]);
    a.merge(&b);
    assert!(a == clock(&[("a", 3), ("b", 4), ("c", 2)]));
    assert!(a.dominates(&b));
    let before = a.clone();
    a.merge(&before);
    assert!(a == before);
}

#[test]
fn merge_is_order_free() {
    let a = clock(&[("a", 3), ("b", 1)]);
    let b = clock(&[("b", 4), ("c", 2)]);
    let c = clock(&[("a", 5)]);
    let mut ab = a.clone();
    ab.merge(&b);
    let mut ba = b.clone();
    ba.merge(&a);
    assert!(ab == ba);
    let mut ab_c = ab.clone();
    ab_c.merge(&c);
    let mut bc = b.clone();
    bc.merge(&c);
    let mut a_bc = a.clone();
    a_bc.merge(&bc);
    assert!(ab_c == a_bc);
    assert_eq!(ab_c.get("a"), 5);
    assert_eq!(ab_c.get("d"), 0);
}

#[test]
fn domination_is_transitive() {
    let a = clock(&[("a", 3), ("b", 1)]);
    let b = clock(&[("a", 2), ("b", 1)]);
    let c = clock(&[("a", 2)]);
    assert!(a.dominates(&b) && b.dominates(&c) && a.dominates(&c));
    assert!(!a.dominates(&a));
}

#[test]
fn a_new_value_has_one_event_and_a_timestamp() {
    let before = VersionedValue::new(Vec::new(), "x", 0).timestamp_ms;
    let v = VersionedValue::new(b"v".to_vec(), "node1", 7);
    assert!(v.timestamp_ms >= before);
    assert!(v.timestamp_ms > 1_600_000_000_000);
    assert_eq!(v.ttl_ms, 7);
    assert!(!v.deleted);
    assert!(v.vector_clock == clock(&[("node1", 1)]));
}

#[test]
fn a_value_expires_after_its_time_to_live() {
    let v = at(b"v", 50, 1000);
    assert!(!v.is_expired_at(1000));
    assert!(!v.is_expired_at(1050));
    assert!(v.is_expired_at(1051));
    assert!(!at(b"v", 0, 1000).is_expired_at(i64::MAX));
    assert!(!at(b"v", -5, 1000).is_expired_at(i64::MAX));
    assert!(!at(b"v", i64::MAX, i64::MAX).is_expired_at(i64::MAX));
}

#[test]
fn a_tombstone_is_after_the_clock_it_covers() {
    let old = clock(&[("a", 2), ("b", 1)]);
    let t = VersionedValue::tombstone("b", &old);
    assert!(t.deleted);
    assert!(t.value.is_empty());
    assert_eq!(t.ttl_ms, TOMBSTONE_TTL_MS);
    assert_eq!(t.ttl_ms, 300_000);
    assert!(t.vector_clock == clock(&[("a", 2), ("b", 2)]));
    assert!(t.vector_clock.dominates(&old));
}

#[test]
fn values_are_equal_by_all_fields() {
    let a = at(b"v", 5, 1000);
    assert!(a == at(b"v", 5, 1000));
    assert!(a != at(b"w", 5, 1000));
    assert!(a != at(b"v", 6, 1000));
    assert!(a != at(b"v", 5, 1001));
    let mut deleted = a.clone();
    deleted.deleted = true;
    assert!(a != deleted);
    let mut other = a.clone();
    other.vector_clock.increment("z");
    assert!(a != other);
}

#[test]
fn raw_reads_see_tombstones_and_expired_values() {
    let mut mt = MemTable::new(1024);
    mt.put("a".to_string(), at(b"v", 10, 1000));
    assert!(mt.get_at("a", 1010).is_some());
    assert!(mt.get_at("a", 1011).is_none());
    assert_eq!(mt.get_raw("a").unwrap().value, b"v");
    mt.delete_at("a", "n2", 2000);
    assert!(mt.get_at("a", 2000).is_none());
    let raw = mt.get_raw("a").unwrap();
    assert!(raw.deleted);
    assert!(raw.vector_clock == clock(&[("n1", 1), ("n2", 1)]));
    assert!(mt.get_raw("b").is_none());
    assert!(mt.clock("b") == clock(&[]));
}

#[test]
fn sizes_count_keys_values_and_overhead() {
    let mut mt = MemTable::new(280);
    assert_eq!(mt.size_bytes(), 0);
    assert!(!mt.put("key".to_string(), at(b"12345", 0, 1)));
    assert_eq!(mt.size_bytes(), 3 + 5 + 128);
    assert!(!mt.put("key".to_string(), at(b"1", 0, 2)));
    assert_eq!(mt.size_bytes(), 3 + 1 + 128);
    assert!(!mt.is_full());
    assert!(mt.put("key\u{e9}2".to_string(), at(b"123456789a12345", 0, 3)));
    assert_eq!(mt.size_bytes(), 132 + 6 + 15 + 128);
    assert!(mt.is_full());
    assert_eq!(mt.len(), 2);
    mt.delete_at("key", "n", 4);
    assert_eq!(mt.size_bytes(), 131 + 6 + 15 + 128);
    let drained = mt.drain();
    assert_eq!(drained.len(), 2);
    assert_eq!(mt.size_bytes(), 0);
}

#[test]
fn eviction_removes_the_expired_and_recounts() {
    let mut mt = MemTable::new(1024);
    mt.put("a".to_string(), at(b"1", 10, 100));
    mt.put("b".to_string(), at(b"2", 0, 100));
    mt.put("c".to_string(), at(b"3", 20, 100));
    mt.delete_at("d", "n", 100);
    assert_eq!(mt.evict_expired_at(110), 0);
    assert_eq!(mt.evict_expired_at(111), 1);
    assert_eq!(mt.len(), 3);
    assert_eq!(mt.size_bytes(), 130 + 130 + 129);
    assert!(mt.get_raw("a").is_none());
    assert!(mt.get_at("b", 111).is_some());
    assert!(mt.get_at("c", 111).is_some());
    assert!(mt.get_raw("d").is_some());
    assert_eq!(mt.evict_expired_at(300_101), 2);
    assert_eq!(mt.len(), 1);
}

#[test]
fn scans_are_bounded_ordered_and_live() {
    let mut mt = MemTable::new(1024);
    for key in ["d", "a", "c", "b", "aa"] {
        mt.put(key.to_string(), at(key.as_bytes(), 0, 1));
    }
    mt.delete_at("b", "n", 2);
    mt.put("ab".to_string(), at(b"x", 5, 1));
    let keys = |found: Vec<(String, VersionedValue)>| -> Vec<String> {
        found.into_iter().map(|(k, _)| k).collect()
    };
    assert_eq!(keys(mt.scan_at("a", "d", 100, 3)), ["a", "aa", "ab", "c"]);
    assert_eq!(keys(mt.scan_at("a", "d", 100, 7)), ["a", "aa", "c"]);
    assert_eq!(keys(mt.scan_at("a", "d", 2, 3)), ["a", "aa"]);
    assert!(mt.scan_at("a", "d", 0, 3).is_empty());
    assert!(mt.scan_at("c", "c", 10, 3).is_empty());
    assert_eq!(keys(mt.scan_at("", "zzz", 100, 7)), ["a", "aa", "c", "d"]);
}

#[test]
fn a_snapshot_leaves_the_table_as_it_is() {
    let mut mt = MemTable::new(1024);
    mt.put("a".to_string(), at(b"1", 0, 1));
    let copy = mt.snapshot();
    assert_eq!(copy.len(), 1);
    assert!(*copy.get("a").unwrap() == at(b"1", 0, 1));
    assert_eq!(mt.len(), 1);
}

#[test]
fn expiry_goes_by_the_wall_clock() {
    let mut v = VersionedValue::new(b"v".to_vec(), "n1", 60_000);
    assert!(!v.is_expired());
    v.timestamp_ms -= 60_001;
    assert!(v.is_expired());
    v.ttl_ms = 0;
    assert!(!v.is_expired());
}

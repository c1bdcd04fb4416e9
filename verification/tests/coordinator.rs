//! Coordinated reads and writes.

use rkv::grpc::proto;
use rkv::replication::coordinator::{
    value_from_proto, value_to_proto, vc_from_proto, vc_to_proto, RPC_TIMEOUT_NS,
};
use rkv::replication::{QuorumConfig, ReplicationCoordinator};
use rkv::ring::{HashRing, Node};
use rkv::storage::wal::LogLine;
use rkv::storage::{StorageConfig, StorageEngine, VectorClock, VersionedValue, WalEntry};

fn node(id: &str) -> Node {
    Node {
        id: id.to_string(),
        address: format!("{}:1", id),
    }
}

fn engine(id: &str) -> StorageEngine {
    let mut config = StorageConfig::default();
    config.node_id = id.to_string();
    StorageEngine::open(config, None, Vec::new())
}

fn coordinator() -> ReplicationCoordinator {
    ReplicationCoordinator::new(QuorumConfig::default_strong())
}

fn clock(counts: &[(&str, u64)]) -> VectorClock {
    let mut clock = VectorClock::new();
    for (node, n) in counts {
        clock.clocks.insert(node.to_string(), *n);
    }
    clock
}

fn version(value: &str, counts: &[(&str, u64)], timestamp_ms: i64) -> VersionedValue {
    VersionedValue {
        value: value.as_bytes().to_vec(),
        vector_clock: clock(counts),
        timestamp_ms,
        ttl_ms: 0,
        deleted: false,
    }
}

fn ids(nodes: &[Node]) -> Vec<&str> {
    nodes.iter().map(|n| n.id.as_str()).collect()
}

#[test]
fn a_write_goes_to_this_node_and_its_peers() {
    let mut engine = engine("a");
    let nodes = vec![node("b"), node("a"), node("c")];
    let c = coordinator();
    let plan = c.put_to(&mut engine, &nodes, "k".to_string(), b"v".to_vec(), 7, 0, 50);
    assert_eq!(plan.required, 2);
    assert_eq!(ids(&plan.peers), ["b", "c"]);
    assert_eq!(plan.request.key, "k");
    assert!(!plan.request.is_delete);
    let wire = plan.request.value.as_ref().unwrap();
    assert_eq!(wire.value, b"v");
    assert_eq!((wire.timestamp_ms, wire.ttl_ms), (50, 7));
    assert!(engine.get_raw("k").is_none());
    let write = plan.local.as_ref().unwrap();
    assert_eq!(write.entry.sequence, 1);
    assert!(write.entry.value == plan.versioned);
    let result = c.finish_put(plan, Some(true), vec![true, false]);
    assert_eq!((result.successes, result.failures, result.required), (2, 1, 2));
    assert!(result.is_success());
    assert!(result.value.unwrap() == clock(&[("a", 1)]));
}

#[test]
fn a_write_on_another_node_stays_off_the_log() {
    let mut engine = engine("z");
    let nodes = vec![node("b"), node("c")];
    let c = coordinator();
    let plan = c.put_to(&mut engine, &nodes, "k".to_string(), b"v".to_vec(), 0, 3, 50);
    assert_eq!(plan.required, 3);
    assert!(plan.local.is_none());
    assert_eq!(engine.wal().sequence(), 0);
    let result = c.finish_put(plan, None, vec![true, true]);
    assert_eq!((result.successes, result.failures), (2, 0));
    assert!(!result.is_success());
}

#[test]
fn a_failed_local_write_counts_as_a_failure() {
    let mut engine = engine("a");
    let c = coordinator();
    let nodes = vec![node("a")];
    let plan = c.put_to(&mut engine, &nodes, "k".to_string(), Vec::new(), 0, 1, 1);
    let result = c.finish_put(plan, Some(false), Vec::new());
    assert_eq!((result.successes, result.failures), (0, 1));
    assert!(!result.is_success());
}

#[test]
fn operations_ask_the_nodes_of_the_ring() {
    let mut ring = HashRing::new(20, 2);
    for id in ["a", "b", "c"] {
        ring.add_node(node(id));
    }
    let mut engine = engine("a");
    let c = coordinator();
    let list = ring.get_nodes("key");
    let put = c.put(&mut engine, &ring, "key".to_string(), b"v".to_vec(), 0, 0);
    assert_eq!(put.local.is_some(), ring.is_responsible("a", "key"));
    assert_eq!(put.peers.len() + put.local.is_some() as usize, list.len());
    let get = c.get(&engine, &ring, "key", 0);
    assert_eq!(ids(&get.peers), ids(&put.peers));
    let delete = c.delete(&mut engine, &ring, "key", 0);
    assert_eq!(ids(&delete.peers), ids(&put.peers));
    assert_eq!(delete.local.is_some(), put.local.is_some());
}

#[test]
fn a_read_resolves_what_came_back() {
    let mut engine = engine("a");
    let write = engine.put("k".to_string(), version("old", &[("a", 1)], 100));
    engine.commit(write);
    let c = coordinator();
    let nodes = vec![node("a"), node("b"), node("c")];
    let plan = c.get_from(&engine, &nodes, "k", 0);
    assert_eq!(plan.required, 2);
    assert_eq!(plan.request.key, "k");
    assert_eq!(ids(&plan.peers), ["b", "c"]);
    let newer = value_to_proto(&version("new", &[("a", 1), ("b", 1)], 50));
    let replies = vec![
        Some(proto::GetInternalResponse {
            found: true,
            value: Some(newer),
        }),
        None,
    ];
    let result = c.finish_get_at(plan, replies, 200);
    assert_eq!((result.successes, result.failures, result.required), (3, 0, 2));
    assert_eq!(result.value.unwrap().value, b"new");
}

#[test]
fn replies_without_a_value_do_not_count_as_values() {
    let engine = engine("z");
    let c = coordinator();
    let nodes = vec![node("b"), node("c"), node("d")];
    let plan = c.get_from(&engine, &nodes, "k", 3);
    assert!(plan.local.is_none());
    let replies = vec![
        Some(proto::GetInternalResponse {
            found: false,
            value: Some(value_to_proto(&version("x", &[], 1))),
        }),
        Some(proto::GetInternalResponse {
            found: true,
            value: None,
        }),
        None,
    ];
    let result = c.finish_get(plan, replies);
    assert!(result.value.is_none());
    assert_eq!(result.successes, 3);
    assert!(result.is_success());
}

#[test]
fn a_deletion_sends_the_clock_of_the_tombstone() {
    let mut engine = engine("a");
    let write = engine.put("k".to_string(), version("v", &[("b", 4)], 100));
    engine.commit(write);
    let c = coordinator();
    let nodes = vec![node("a"), node("b")];
    let mut plan = c.delete_from(&mut engine, &nodes, "k", 0, 150);
    assert_eq!(plan.required, 2);
    assert_eq!(plan.key, "k");
    assert_eq!(ids(&plan.peers), ["b"]);
    let write = plan.local.take().unwrap();
    assert!(write.entry.value.deleted);
    engine.commit(write);
    let request = c.delete_request(&engine, "k");
    assert_eq!(request.key, "k");
    assert!(vc_from_proto(request.vector_clock.unwrap()) == clock(&[("a", 1), ("b", 4)]));
    let result = c.finish_delete(plan, Some(true), vec![false]);
    assert_eq!((result.successes, result.failures), (1, 1));
    assert_eq!(result.value, Some(()));
    assert!(!result.is_success());
}

#[test]
fn a_node_that_does_not_hold_the_key_numbers_nothing() {
    let value = version("v", &[], 1);
    let lines = vec![LogLine::Text {
        text: "last".to_string(),
        parsed: Some(WalEntry::new(u64::MAX, "k".to_string(), value)),
    }];
    let mut full = StorageEngine::open(StorageConfig::default(), None, lines);
    let c = coordinator();
    let nodes = vec![node("b"), node("c")];
    let plan = c.put_to(&mut full, &nodes, "k".to_string(), b"v".to_vec(), 0, 0, 50);
    assert!(plan.local.is_none());
    let plan = c.delete_from(&mut full, &nodes, "k", 0, 50);
    assert!(plan.local.is_none());
    assert_eq!(ids(&plan.peers), ["b", "c"]);
    assert_eq!(full.wal().sequence(), u64::MAX);
}

#[test]
fn a_dominating_version_wins_in_any_order() {
    let c = coordinator();
    let low = version("low", &[("a", 1)], 900);
    let mid = version("mid", &[("b", 1)], 800);
    let top = version("top", &[("a", 1), ("b", 1), ("c", 1)], 1);
    for order in [[&low, &mid, &top], [&top, &low, &mid], [&mid, &top, &low]] {
        let values = order.iter().map(|v| Some((*v).clone())).collect();
        assert_eq!(c.resolve_conflicts_at(values, 1000).unwrap().value, b"top");
    }
}

#[test]
fn the_last_writer_wins_among_concurrent_versions() {
    let c = coordinator();
    let a = version("a", &[("a", 1)], 10);
    let b = version("b", &[("b", 1)], 30);
    let d = version("d", &[("d", 1)], 20);
    let same_time = version("e", &[("e", 1)], 30);
    let values = vec![Some(a), Some(b), None, Some(d), Some(same_time)];
    assert_eq!(c.resolve_conflicts(values).unwrap().value, b"b");
}

#[test]
fn expired_versions_are_passed_over() {
    let c = coordinator();
    let mut old = version("old", &[("a", 8)], 10);
    old.ttl_ms = 5;
    let live = version("live", &[("a", 1)], 1);
    for values in [
        vec![Some(old.clone()), Some(live.clone())],
        vec![Some(live.clone()), Some(old.clone())],
    ] {
        assert_eq!(c.resolve_conflicts_at(values.clone(), 15).unwrap().value, b"old");
        assert_eq!(c.resolve_conflicts_at(values, 16).unwrap().value, b"live");
    }
    assert!(c.resolve_conflicts_at(vec![Some(old)], 16).is_none());
    assert!(c.resolve_conflicts_at(vec![None, None], 16).is_none());
    assert!(c.resolve_conflicts_at(Vec::new(), 16).is_none());
}

#[test]
fn a_deleted_value_does_not_come_back() {
    let c = coordinator();
    let stale = version("stale", &[("a", 1)], 900);
    let gone = VersionedValue::tombstone_at("a", &stale.vector_clock, 100);
    for values in [
        vec![Some(stale.clone()), Some(gone.clone())],
        vec![Some(gone.clone()), Some(stale.clone())],
        vec![Some(stale.clone()), None, Some(gone.clone()), Some(stale.clone())],
    ] {
        assert!(c.resolve_conflicts_at(values.clone(), 1000).is_none());
        // The tombstone's time to live has passed.
        assert_eq!(c.resolve_conflicts_at(values, 300_101).unwrap().value, b"stale");
    }
    assert!(c.resolve_conflicts_at(vec![Some(gone)], 1000).is_none());
}

#[test]
fn a_value_stands_against_an_earlier_tombstone() {
    let c = coordinator();
    let gone = VersionedValue::tombstone_at("a", &VectorClock::new(), 100);
    let after = version("after", &[("a", 2)], 1);
    let beside = version("beside", &[("b", 1)], 101);
    let before = version("before", &[("b", 1)], 99);
    for (value, wins) in [(after, true), (beside, true), (before, false)] {
        for values in [
            vec![Some(gone.clone()), Some(value.clone())],
            vec![Some(value.clone()), Some(gone.clone())],
        ] {
            let found = c.resolve_conflicts_at(values, 1000);
            assert_eq!(found.is_some(), wins);
            assert!(found.is_none() || found == Some(value.clone()));
        }
    }
}

#[test]
fn values_come_through_the_wire() {
    let mut v = version("v", &[("a", 2), ("b", 1)], 77);
    v.ttl_ms = 5;
    assert!(value_from_proto(value_to_proto(&v)) == v);
    assert!(vc_from_proto(vc_to_proto(&v.vector_clock)) == v.vector_clock);
    let tombstone = VersionedValue::tombstone_at("a", &v.vector_clock, 80);
    let arrived = value_from_proto(value_to_proto(&tombstone));
    assert!(!arrived.deleted);
    assert!(arrived.value.is_empty());
    assert_eq!(arrived.ttl_ms, 300_000);
    let bare = proto::VersionedValue {
        value: b"x".to_vec(),
        vector_clock: None,
        timestamp_ms: 1,
        ttl_ms: 2,
    };
    assert!(value_from_proto(bare).vector_clock == VectorClock::new());
}

#[test]
fn the_coordinator_keeps_its_configuration() {
    let c = ReplicationCoordinator::new(QuorumConfig::eventual());
    assert_eq!(*c.quorum_config(), QuorumConfig::eventual());
    assert_eq!(c.rpc_timeout_ns(), RPC_TIMEOUT_NS);
    assert_eq!(c.rpc_timeout_ns(), 2_000_000_000);
}

#[test]
fn a_strong_read_sees_the_write() {
    let c = coordinator();
    let mut engine = engine("a");
    let nodes = vec![node("a"), node("b"), node("c")];
    let mut written = Vec::new();
    for (value, now) in [(b"old", 10), (b"new", 20)] {
        let plan = c.put_to(&mut engine, &nodes, "k".to_string(), value.to_vec(), 0, 0, now);
        engine.commit(plan.local.unwrap());
        written.push(value_from_proto(plan.request.value.unwrap()));
    }
    // A node's writes over its own have one clock: the later one counts.
    assert!(written[0].vector_clock == clock(&[("a", 1)]));
    assert!(written[1].vector_clock == written[0].vector_clock);
    let has = [
        engine.get_raw("k"),
        Some(written[0].clone()),
        Some(written[1].clone()),
    ];
    for asked in [[0, 1], [1, 0], [1, 2], [2, 0]] {
        let replies = asked.iter().map(|r: &usize| has[*r].clone()).collect();
        assert_eq!(c.resolve_conflicts_at(replies, 100).unwrap().value, b"new");
    }
}

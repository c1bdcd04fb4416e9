//! What the services answer.

use rkv::gossip::{GossipConfig, GossipService, NodeStatus};
use rkv::grpc::proto;
use rkv::grpc::service::{InternalServiceImpl, KvServiceImpl, Status, DEFAULT_SCAN_LIMIT};
use rkv::replication::coordinator::{value_to_proto, vc_from_proto, vc_to_proto};
use rkv::replication::{QuorumConfig, QuorumResult, ReplicationCoordinator};
use rkv::ring::{HashRing, Node};
use rkv::storage::wal::LogLine;
use rkv::storage::{StorageConfig, StorageEngine, VectorClock, VersionedValue, WalEntry};

fn kv() -> KvServiceImpl {
    KvServiceImpl::new(ReplicationCoordinator::new(QuorumConfig::default_strong()))
}

fn engine() -> StorageEngine {
    StorageEngine::open(StorageConfig::default(), None, Vec::new())
}

fn store(engine: &mut StorageEngine, key: &str, value: &[u8]) {
    let write = engine.put_raw_at(key.to_string(), value.to_vec(), 0, 100);
    engine.commit(write);
}

fn result<T>(value: Option<T>, successes: u32, required: u32) -> QuorumResult<T> {
    QuorumResult {
        value,
        successes,
        failures: 0,
        required,
    }
}

#[test]
fn a_read_answers_with_the_value() {
    let v = VersionedValue::new_at(b"v".to_vec(), "a", 0, 1);
    let reply = kv().get_reply(result(Some(v), 2, 2)).unwrap();
    assert!(reply.found);
    assert_eq!(reply.value, b"v");
    assert_eq!(vc_from_proto(reply.vector_clock.unwrap()).get("a"), 1);
    let reply = kv().get_reply(result(None, 2, 2)).unwrap();
    assert!(!reply.found);
    assert!(reply.value.is_empty());
    assert!(reply.vector_clock.is_none());
}

#[test]
fn a_read_without_its_quorum_is_unavailable() {
    let v = VersionedValue::new_at(b"v".to_vec(), "a", 0, 1);
    match kv().get_reply(result(Some(v), 1, 12)) {
        Err(Status::Unavailable(text)) => {
            assert_eq!(text, "Read quorum not met: got 1/12 successes")
        }
        _ => panic!("expected a failure"),
    }
}

#[test]
fn a_write_answers_with_its_clock() {
    let mut clock = VectorClock::new();
    clock.increment("a");
    let reply = kv().put_reply(result(Some(clock), 3, 2)).unwrap();
    assert!(reply.success);
    assert_eq!(vc_from_proto(reply.vector_clock.unwrap()).get("a"), 1);
    match kv().put_reply(result(None, 0, 2)) {
        Err(Status::Unavailable(text)) => {
            assert_eq!(text, "Write quorum not met: got 0/2 successes")
        }
        _ => panic!("expected a failure"),
    }
}

#[test]
fn a_deletion_tells_whether_its_quorum_was_met() {
    assert!(kv().delete_reply(result(Some(()), 2, 2)).success);
    assert!(!kv().delete_reply(result(Some(()), 1, 2)).success);
}

#[test]
fn requests_are_coordinated() {
    let mut ring = HashRing::new(10, 1);
    ring.add_node(Node {
        id: "node-0".to_string(),
        address: "x".to_string(),
    });
    let mut engine = engine();
    let service = kv();
    let plan = service.put(
        &mut engine,
        &ring,
        proto::PutRequest {
            key: "k".to_string(),
            value: b"v".to_vec(),
            ttl_ms: 0,
            write_quorum: 1,
            vector_clock: None,
        },
    );
    assert_eq!(plan.required, 1);
    assert!(plan.peers.is_empty());
    let mut plan = plan;
    engine.commit(plan.local.take().unwrap());
    let result = service.coordinator().finish_put(plan, Some(true), Vec::new());
    assert!(service.put_reply(result).is_ok());
    let request = proto::GetRequest {
        key: "k".to_string(),
        read_quorum: 1,
    };
    let plan = service.get(&engine, &ring, &request);
    let result = service.coordinator().finish_get(plan, Vec::new());
    assert_eq!(service.get_reply(result).unwrap().value, b"v");
    let request = proto::DeleteRequest {
        key: "k".to_string(),
        write_quorum: 0,
    };
    let plan = service.delete(&mut engine, &ring, &request);
    assert_eq!(plan.required, 2);
    assert!(plan.local.is_some());
}

/// An engine whose log has no number left.
fn full_engine() -> StorageEngine {
    let value = VersionedValue::new_at(b"v".to_vec(), "node-0", 0, 1);
    let lines = vec![LogLine::Text {
        text: "last".to_string(),
        parsed: Some(WalEntry::new(u64::MAX, "k".to_string(), value)),
    }];
    StorageEngine::open(StorageConfig::default(), None, lines)
}

fn put_request() -> proto::PutRequest {
    proto::PutRequest {
        key: "k".to_string(),
        value: b"new".to_vec(),
        ttl_ms: 0,
        write_quorum: 0,
        vector_clock: None,
    }
}

fn ring_of(id: &str) -> HashRing {
    let mut ring = HashRing::new(10, 1);
    ring.add_node(Node {
        id: id.to_string(),
        address: "x".to_string(),
    });
    ring
}

#[test]
fn a_full_log_stops_only_the_node_that_holds_the_key() {
    let service = kv();
    let delete = proto::DeleteRequest {
        key: "k".to_string(),
        write_quorum: 0,
    };
    let mut full = full_engine();
    assert!(service.try_put(&mut full, &ring_of("node-0"), put_request()).is_none());
    assert!(service.try_delete(&mut full, &ring_of("node-0"), &delete).is_none());
    assert_eq!(full.wal().sequence(), u64::MAX);
    assert_eq!(full.get_raw("k").unwrap().value, b"v");
    let plan = service.try_put(&mut full, &ring_of("other"), put_request()).unwrap();
    assert!(plan.local.is_none());
    assert_eq!(plan.peers.len(), 1);
    assert_eq!(plan.versioned.value, b"new");
    let plan = service.try_delete(&mut full, &ring_of("other"), &delete).unwrap();
    assert!(plan.local.is_none());
    assert_eq!(plan.peers[0].id, "other");
    let mut fresh = engine();
    let plan = service.try_put(&mut fresh, &ring_of("node-0"), put_request()).unwrap();
    assert_eq!(plan.local.unwrap().entry.sequence, 1);
    let plan = service.try_delete(&mut fresh, &ring_of("node-0"), &delete).unwrap();
    assert_eq!(plan.local.unwrap().entry.sequence, 2);
}

#[test]
fn a_full_clock_stops_only_deletions() {
    let service = kv();
    let mut engine = engine();
    let mut value = VersionedValue::new_at(b"v".to_vec(), "x", 0, 1);
    value.vector_clock.clocks.insert("node-0".to_string(), u64::MAX);
    let write = engine.put("k".to_string(), value);
    engine.commit(write);
    let delete = proto::DeleteRequest {
        key: "k".to_string(),
        write_quorum: 0,
    };
    assert!(service.try_delete(&mut engine, &ring_of("node-0"), &delete).is_none());
    assert!(service.try_delete(&mut engine, &ring_of("other"), &delete).is_some());
    let plan = service.try_put(&mut engine, &ring_of("node-0"), put_request()).unwrap();
    assert_eq!(plan.versioned.vector_clock.get("node-0"), u64::MAX);
}

#[test]
fn messages_without_a_value_need_no_number() {
    let service = InternalServiceImpl::new();
    let mut full = full_engine();
    for is_delete in [false, true] {
        let request = proto::ReplicateRequest {
            key: "k".to_string(),
            value: None,
            is_delete,
        };
        assert!(matches!(
            service.replicate_at(&mut full, request, 5),
            Err(Status::InvalidArgument(_))
        ));
        let hint = proto::Hint {
            key: "k".to_string(),
            value: None,
            is_delete,
        };
        assert!(service.hinted_handoff_at(&mut full, hint, 5).is_none());
    }
    assert_eq!(full.wal().sequence(), u64::MAX);
}

#[test]
fn a_scan_gives_at_most_its_limit() {
    let mut engine = engine();
    for i in 0..120 {
        store(&mut engine, &format!("key{:03}", i), b"v");
    }
    let scan = |limit: u32| {
        kv().scan(
            &engine,
            &proto::ScanRequest {
                start_key: "key000".to_string(),
                end_key: "key999".to_string(),
                limit,
            },
        )
    };
    assert_eq!(scan(0).pairs.len(), DEFAULT_SCAN_LIMIT);
    assert_eq!(scan(0).pairs.len(), 100);
    assert_eq!(scan(7).pairs.len(), 7);
    assert_eq!(scan(500).pairs.len(), 120);
    let first = &scan(1).pairs[0];
    assert_eq!(first.key, "key000");
    assert_eq!(first.value, b"v");
    assert!(first.vector_clock.is_some());
}

#[test]
fn a_replica_stores_what_it_gets() {
    let mut engine = engine();
    let service = InternalServiceImpl::new();
    let v = VersionedValue::new_at(b"v".to_vec(), "other", 9, 100);
    let write = service
        .replicate(
            &mut engine,
            proto::ReplicateRequest {
                key: "k".to_string(),
                value: Some(value_to_proto(&v)),
                is_delete: false,
            },
        )
        .unwrap_or_else(|_| panic!("refused"));
    assert!(write.may_flush);
    engine.commit(write);
    assert!(engine.get_raw("k").unwrap() == v);
    assert!(service.replicate_reply(Ok(())).unwrap().success);
}

#[test]
fn a_replica_refuses_a_write_without_a_value() {
    let mut engine = engine();
    let service = InternalServiceImpl::new();
    for is_delete in [false, true] {
        let request = proto::ReplicateRequest {
            key: "k".to_string(),
            value: None,
            is_delete,
        };
        match service.replicate(&mut engine, request) {
            Err(Status::InvalidArgument(text)) => assert_eq!(text, "missing value"),
            _ => panic!("expected a failure"),
        }
    }
    assert_eq!(engine.wal().sequence(), 0);
}

#[test]
fn a_replica_deletes_with_its_own_tombstone() {
    let mut engine = engine();
    store(&mut engine, "k", b"v");
    let service = InternalServiceImpl::new();
    let request = proto::ReplicateRequest {
        key: "k".to_string(),
        value: Some(value_to_proto(&VersionedValue::new_at(Vec::new(), "x", 0, 1))),
        is_delete: true,
    };
    let write = service
        .replicate_at(&mut engine, request, 200)
        .unwrap_or_else(|_| panic!("refused"));
    engine.commit(write);
    let raw = engine.get_raw("k").unwrap();
    assert!(raw.deleted);
    assert_eq!(raw.vector_clock.get("node-0"), 2);
    let request = proto::DeleteInternalRequest {
        key: "k".to_string(),
        vector_clock: None,
    };
    let write = service.delete_internal(&mut engine, &request);
    engine.commit(write);
    assert_eq!(engine.get_raw("k").unwrap().vector_clock.get("node-0"), 3);
    assert!(service.delete_reply(Ok(())).unwrap().success);
}

#[test]
fn a_failed_write_is_an_internal_error() {
    let service = InternalServiceImpl::new();
    match service.replicate_reply(Err("disk full".to_string())) {
        Err(Status::Internal(text)) => assert_eq!(text, "disk full"),
        _ => panic!("expected a failure"),
    }
    match service.delete_reply(Err("disk full".to_string())) {
        Err(Status::Internal(text)) => assert_eq!(text, "disk full"),
        _ => panic!("expected a failure"),
    }
}

#[test]
fn a_replica_tells_what_it_has_stored() {
    let mut engine = engine();
    store(&mut engine, "k", b"v");
    let service = InternalServiceImpl::new();
    let get = |key: &str| {
        service.get_internal(
            &engine,
            &proto::GetInternalRequest {
                key: key.to_string(),
            },
        )
    };
    let reply = get("k");
    assert!(reply.found);
    assert_eq!(reply.value.unwrap().value, b"v");
    let reply = get("none");
    assert!(!reply.found);
    assert!(reply.value.is_none());
}

#[test]
fn hints_are_stored_deleted_or_passed_over() {
    let mut engine = engine();
    let service = InternalServiceImpl::new();
    let value = || Some(value_to_proto(&VersionedValue::new_at(b"h".to_vec(), "x", 0, 1)));
    let hint = |key: &str, value: Option<proto::VersionedValue>, is_delete: bool| proto::Hint {
        key: key.to_string(),
        value,
        is_delete,
    };
    let write = service.hinted_handoff(&mut engine, hint("a", value(), false));
    engine.commit(write.unwrap());
    assert_eq!(engine.get_raw("a").unwrap().value, b"h");
    let write = service.hinted_handoff_at(&mut engine, hint("a", value(), true), 5);
    engine.commit(write.unwrap());
    assert!(engine.get_raw("a").unwrap().deleted);
    assert!(service.hinted_handoff(&mut engine, hint("b", None, true)).is_none());
    assert_eq!(service.handoff_reply(&vec![true, false, true]).accepted, 2);
    assert_eq!(service.handoff_reply(&Vec::new()).accepted, 0);
}

#[test]
fn transferred_pairs_are_stored_as_of_now() {
    let mut engine = engine();
    let service = InternalServiceImpl::new();
    let mut clock = VectorClock::new();
    clock.increment("x");
    let pair = proto::KeyValue {
        key: "k".to_string(),
        value: b"v".to_vec(),
        vector_clock: Some(vc_to_proto(&clock)),
    };
    let write = service.transfer_keys_at(&mut engine, pair, 77);
    engine.commit(write);
    let raw = engine.get_raw("k").unwrap();
    assert_eq!(raw.value, b"v");
    assert_eq!((raw.timestamp_ms, raw.ttl_ms, raw.deleted), (77, 0, false));
    assert!(raw.vector_clock == clock);
    let pair = proto::KeyValue {
        key: "bare".to_string(),
        value: Vec::new(),
        vector_clock: None,
    };
    let write = service.transfer_keys(&mut engine, pair);
    engine.commit(write);
    let raw = engine.get_raw("bare").unwrap();
    assert!(raw.vector_clock == VectorClock::new());
    assert!(raw.timestamp_ms > 1_600_000_000_000);
    assert_eq!(service.transfer_reply(&vec![true, true]).accepted, 2);
}

#[test]
fn gossip_is_answered_with_what_is_known() {
    let mut ring = HashRing::new(10, 3);
    let mut gossip = GossipService::new(
        "me".to_string(),
        "me:1".to_string(),
        &mut ring,
        GossipConfig::default(),
    );
    let service = InternalServiceImpl::new();
    let ack = service.gossip(
        &mut gossip,
        &mut ring,
        &proto::GossipMessage {
            sender_id: "b".to_string(),
            nodes: vec![proto::NodeState {
                node_id: "b".to_string(),
                address: "b:1".to_string(),
                status: 0,
                heartbeat: 3,
                generation: 1,
            }],
        },
        5,
    );
    assert_eq!(ack.nodes.len(), 1);
    assert_eq!(ack.nodes[0].node_id, "b");
    assert_eq!(ack.nodes[0].heartbeat, 3);
    assert_eq!(gossip.peer_status("b"), Some(NodeStatus::Alive));
    assert_eq!(ring.node_count(), 2);
}

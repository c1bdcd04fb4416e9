//! Gossip and failure detection.

use rkv::gossip::chance::pick;
use rkv::gossip::detector::parse_seeds;
use rkv::gossip::{GossipConfig, GossipService, NodeStatus};
use rkv::grpc::proto::{GossipMessage, NodeState, STATUS_ALIVE, STATUS_DEAD, STATUS_SUSPECT};
use rkv::ring::HashRing;

const SECOND: u64 = 1_000_000_000;

fn start() -> (GossipService, HashRing) {
    let mut ring = HashRing::new(10, 3);
    let gossip = GossipService::new(
        "me".to_string(),
        "me:1".to_string(),
        &mut ring,
        GossipConfig::default(),
    );
    (gossip, ring)
}

fn report(id: &str, status: i32, generation: u64, heartbeat: u64) -> NodeState {
    NodeState {
        node_id: id.to_string(),
        address: format!("{}:{}", id, heartbeat),
        status,
        heartbeat,
        generation,
    }
}

fn message(nodes: Vec<NodeState>) -> GossipMessage {
    GossipMessage {
        sender_id: "x".to_string(),
        nodes,
    }
}

fn ring_ids(ring: &HashRing) -> Vec<String> {
    let mut ids: Vec<String> = ring.get_all_nodes().into_iter().map(|n| n.id).collect();
    ids.sort();
    ids
}

#[test]
fn a_node_starts_on_the_ring_without_peers() {
    let (gossip, ring) = start();
    assert_eq!(gossip.node_id(), "me");
    assert!(gossip.alive_peers().is_empty());
    assert_eq!(gossip.peer_status("me"), None);
    assert_eq!(ring_ids(&ring), ["me"]);
    assert_eq!(ring.get_node("k").unwrap().address, "me:1");
}

#[test]
fn the_default_configuration_of_gossip() {
    let config = GossipConfig::default();
    assert_eq!(config.gossip_interval_ns, SECOND);
    assert_eq!(config.suspect_timeout_ns, 5 * SECOND);
    assert_eq!(config.dead_timeout_ns, 15 * SECOND);
    assert_eq!(config.fanout, 3);
    let (gossip, _) = start();
    assert_eq!(gossip.config(), config);
}

#[test]
fn a_seed_is_alive_and_on_the_ring() {
    let (mut gossip, mut ring) = start();
    gossip.add_seed(&mut ring, "s".to_string(), "s:1".to_string(), 5);
    assert_eq!(gossip.peer_status("s"), Some(NodeStatus::Alive));
    let peers = gossip.alive_peers();
    assert_eq!(peers.len(), 1);
    assert_eq!(peers[0].address, "s:1");
    assert_eq!(
        (peers[0].heartbeat, peers[0].generation, peers[0].last_seen_ns),
        (0, 0, 5)
    );
    assert_eq!(ring_ids(&ring), ["me", "s"]);
}

#[test]
fn reports_change_peers_and_ring() {
    let (mut gossip, mut ring) = start();
    let states = gossip.handle_gossip(
        &mut ring,
        &message(vec![
            report("c", STATUS_ALIVE, 1, 1),
            report("b", STATUS_SUSPECT, 1, 1),
            report("d", STATUS_DEAD, 1, 1),
            report("e", 77, 1, 1),
            report("me", STATUS_DEAD, 9, 9),
        ]),
        10,
    );
    assert_eq!(gossip.peer_status("b"), Some(NodeStatus::Suspect));
    assert_eq!(gossip.peer_status("c"), Some(NodeStatus::Alive));
    assert_eq!(gossip.peer_status("d"), Some(NodeStatus::Dead));
    assert_eq!(gossip.peer_status("e"), Some(NodeStatus::Alive));
    assert_eq!(gossip.peer_status("me"), None);
    assert_eq!(ring_ids(&ring), ["c", "e", "me"]);
    let told: Vec<(&str, i32)> = states.iter().map(|s| (s.node_id.as_str(), s.status)).collect();
    assert_eq!(told, [("b", 1), ("c", 0), ("d", 2), ("e", 0)]);
    assert_eq!(states[1].address, "c:1");
}

#[test]
fn only_newer_reports_count() {
    let (mut gossip, mut ring) = start();
    gossip.handle_gossip(&mut ring, &message(vec![report("b", STATUS_ALIVE, 2, 5)]), 1);
    for stale in [
        report("b", STATUS_DEAD, 1, 9),
        report("b", STATUS_DEAD, 2, 4),
        report("b", STATUS_DEAD, 2, 5),
    ] {
        gossip.handle_gossip(&mut ring, &message(vec![stale]), 2);
        assert_eq!(gossip.peer_status("b"), Some(NodeStatus::Alive));
        assert_eq!(gossip.alive_peers()[0].last_seen_ns, 1);
    }
    gossip.handle_gossip(&mut ring, &message(vec![report("b", STATUS_DEAD, 2, 6)]), 3);
    assert_eq!(gossip.peer_status("b"), Some(NodeStatus::Dead));
    assert_eq!(ring_ids(&ring), ["me"]);
    gossip.handle_gossip(&mut ring, &message(vec![report("b", STATUS_ALIVE, 3, 0)]), 4);
    assert_eq!(gossip.peer_status("b"), Some(NodeStatus::Alive));
    assert_eq!(ring_ids(&ring), ["b", "me"]);
}

#[test]
fn hearing_a_message_twice_changes_nothing() {
    let (mut gossip, mut ring) = start();
    let news = message(vec![
        report("b", STATUS_ALIVE, 1, 1),
        report("b", STATUS_SUSPECT, 1, 2),
    ]);
    gossip.handle_gossip(&mut ring, &news, 1);
    assert_eq!(gossip.peer_status("b"), Some(NodeStatus::Suspect));
    let states = gossip.handle_gossip(&mut ring, &news, 2);
    assert_eq!(gossip.peer_status("b"), Some(NodeStatus::Suspect));
    assert_eq!(states.len(), 1);
    assert_eq!(states[0].heartbeat, 2);
    assert_eq!(ring_ids(&ring), ["b", "me"]);
}

#[test]
fn a_silent_peer_is_suspect_and_then_dead() {
    let (mut gossip, mut ring) = start();
    gossip.add_seed(&mut ring, "s".to_string(), "s:1".to_string(), 100 * SECOND);
    let (suspect, dead) = (5 * SECOND, 15 * SECOND);
    gossip.check_failures(&mut ring, suspect, dead, 105 * SECOND);
    assert_eq!(gossip.peer_status("s"), Some(NodeStatus::Alive));
    gossip.check_failures(&mut ring, suspect, dead, 105 * SECOND + 1);
    assert_eq!(gossip.peer_status("s"), Some(NodeStatus::Suspect));
    assert_eq!(ring_ids(&ring), ["me", "s"]);
    gossip.check_failures(&mut ring, suspect, dead, 115 * SECOND);
    assert_eq!(gossip.peer_status("s"), Some(NodeStatus::Suspect));
    gossip.check_failures(&mut ring, suspect, dead, 115 * SECOND + 1);
    assert_eq!(gossip.peer_status("s"), Some(NodeStatus::Dead));
    assert_eq!(ring_ids(&ring), ["me"]);
    gossip.check_failures(&mut ring, suspect, dead, 1);
    assert_eq!(gossip.peer_status("s"), Some(NodeStatus::Dead));
}

#[test]
fn one_check_takes_one_step() {
    let (mut gossip, mut ring) = start();
    gossip.add_seed(&mut ring, "s".to_string(), "s:1".to_string(), 0);
    gossip.check_failures(&mut ring, 5, 15, 100);
    assert_eq!(gossip.peer_status("s"), Some(NodeStatus::Suspect));
    assert!(gossip.alive_peers().is_empty());
    gossip.check_failures(&mut ring, 5, 15, 100);
    assert_eq!(gossip.peer_status("s"), Some(NodeStatus::Dead));
}

#[test]
fn a_round_without_peers_is_none() {
    let (mut gossip, _) = start();
    assert!(gossip.gossip_round().is_none());
    let own = gossip.build_gossip_message();
    assert_eq!(own.nodes.len(), 1);
    assert_eq!(own.nodes[0].heartbeat, 1);
}

#[test]
fn a_round_goes_to_as_many_peers_as_the_fanout() {
    let (mut gossip, mut ring) = start();
    for id in ["a", "b", "c", "d", "e"] {
        gossip.add_seed(&mut ring, id.to_string(), format!("{}:1", id), 0);
    }
    gossip.handle_gossip(&mut ring, &message(vec![report("a", STATUS_DEAD, 1, 1)]), 0);
    let round = gossip.gossip_round().unwrap();
    assert_eq!(round.targets.len(), 3);
    let mut ids: Vec<&str> = round.targets.iter().map(|p| p.node_id.as_str()).collect();
    ids.sort();
    ids.dedup();
    assert_eq!(ids.len(), 3);
    assert!(!ids.contains(&"a"));
    assert_eq!(round.message.sender_id, "me");
    assert_eq!(round.message.nodes.len(), 6);
    let own = &round.message.nodes[5];
    assert_eq!((own.node_id.as_str(), own.address.as_str()), ("me", ""));
    assert_eq!((own.status, own.heartbeat, own.generation), (STATUS_ALIVE, 1, 1));
}

#[test]
fn each_peer_is_told_of_once() {
    let (mut gossip, mut ring) = start();
    let news = message(vec![
        report("b", STATUS_ALIVE, 1, 1),
        report("me", STATUS_DEAD, 9, 9),
        report("a", STATUS_ALIVE, 1, 1),
        report("b", STATUS_ALIVE, 1, 2),
        report("b", STATUS_ALIVE, 1, 1),
    ]);
    let states = gossip.handle_gossip(&mut ring, &news, 0);
    let told: Vec<(&str, u64)> =
        states.iter().map(|s| (s.node_id.as_str(), s.heartbeat)).collect();
    assert_eq!(told, [("a", 1), ("b", 2)]);
}

#[test]
fn a_round_with_given_picks_goes_to_them() {
    let (mut gossip, mut ring) = start();
    for id in ["a", "b", "c"] {
        gossip.add_seed(&mut ring, id.to_string(), format!("{}:1", id), 0);
    }
    let peers = gossip.begin_round();
    assert_eq!(peers.len(), 3);
    let round = gossip.round_with(&peers, &vec![2, 0]);
    let ids: Vec<&str> = round.targets.iter().map(|p| p.node_id.as_str()).collect();
    assert_eq!(ids, ["c", "a"]);
}

#[test]
fn picks_are_different_places() {
    for n in 0..20 {
        for amount in [0, 1, 3, 25] {
            let mut picks = pick(n, amount);
            assert_eq!(picks.len(), n.min(amount));
            picks.sort();
            picks.dedup();
            assert_eq!(picks.len(), n.min(amount));
            assert!(picks.iter().all(|i| *i < n));
        }
    }
    let draws: Vec<Vec<usize>> = (0..50).map(|_| pick(30, 5)).collect();
    assert!(draws.iter().any(|d| *d != draws[0]));
}

#[test]
fn seeds_are_pairs_between_commas() {
    let pairs = |list: &str| -> Vec<(String, String)> { parse_seeds(list) };
    assert_eq!(
        pairs("node-0=127.0.0.1:50051,node-1=127.0.0.1:50052"),
        [
            ("node-0".to_string(), "127.0.0.1:50051".to_string()),
            ("node-1".to_string(), "127.0.0.1:50052".to_string())
        ]
    );
    assert_eq!(
        pairs(" a =\tb:1 ,c,d=e=f,,=x"),
        [
            ("a".to_string(), "b:1".to_string()),
            (String::new(), "x".to_string())
        ]
    );
    assert!(pairs("").is_empty());
}

#[test]
fn statuses_come_through_the_wire() {
    for status in [NodeStatus::Alive, NodeStatus::Suspect, NodeStatus::Dead] {
        assert_eq!(NodeStatus::from_wire(status.to_wire()), status);
    }
    assert_eq!(NodeStatus::from_wire(-1), NodeStatus::Alive);
}

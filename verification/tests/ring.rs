//! The hash ring.

use rkv::ring::consistent_hash::{has_id, position_of, Slots};
use rkv::ring::{HashRing, Node};

fn make_node(id: &str) -> Node {
    Node {
        id: id.to_string(),
        address: format!("127.0.0.1:{}", 50000 + id.len()),
    }
}

fn ids(nodes: &[Node]) -> Vec<&str> {
    nodes.iter().map(|n| n.id.as_str()).collect()
}

fn small_ring(replication_factor: u32) -> HashRing {
    let mut ring = HashRing::new(2, replication_factor);
    for id in ["a", "b", "c"] {
        ring.add_node(make_node(id));
    }
    ring
}

#[test]
fn test_add_and_get_node() {
    let mut ring = HashRing::new(150, 3);
    ring.add_node(make_node("node1"));
    ring.add_node(make_node("node2"));
    ring.add_node(make_node("node3"));

    let node = ring.get_node("my-key").unwrap();
    assert!(["node1", "node2", "node3"].contains(&node.id.as_str()));
}

#[test]
fn test_replication_returns_unique_nodes() {
    let mut ring = HashRing::new(150, 3);
    ring.add_node(make_node("node1"));
    ring.add_node(make_node("node2"));
    ring.add_node(make_node("node3"));

    let nodes = ring.get_nodes("some-key");
    assert_eq!(nodes.len(), 3);

    let ids: std::collections::HashSet<_> = nodes.iter().map(|n| &n.id).collect();
    assert_eq!(ids.len(), 3); // all unique
}

#[test]
fn test_replication_with_fewer_nodes() {
    let mut ring = HashRing::new(150, 3);
    ring.add_node(make_node("node1"));
    ring.add_node(make_node("node2"));

    let nodes = ring.get_nodes("key");
    assert_eq!(nodes.len(), 2); // only 2 nodes available
}

#[test]
fn test_remove_node() {
    let mut ring = HashRing::new(150, 3);
    ring.add_node(make_node("node1"));
    ring.add_node(make_node("node2"));
    ring.add_node(make_node("node3"));

    ring.remove_node("node2");
    assert_eq!(ring.node_count(), 2);

    let nodes = ring.get_all_nodes();
    assert!(nodes.iter().all(|n| n.id != "node2"));
}

#[test]
fn test_consistency() {
    let mut ring = HashRing::new(150, 3);
    ring.add_node(make_node("node1"));
    ring.add_node(make_node("node2"));
    ring.add_node(make_node("node3"));

    // Same key should always map to the same node
    let node1 = ring.get_node("consistent-key").unwrap();
    let node2 = ring.get_node("consistent-key").unwrap();
    assert_eq!(node1.id, node2.id);
}

#[test]
fn test_distribution() {
    let mut ring = HashRing::new(150, 3);
    ring.add_node(make_node("node1"));
    ring.add_node(make_node("node2"));
    ring.add_node(make_node("node3"));

    let mut counts = std::collections::HashMap::new();
    for i in 0..10000 {
        let key = format!("key-{}", i);
        let node = ring.get_node(&key).unwrap();
        *counts.entry(node.id).or_insert(0) += 1;
    }

    // Each node should have roughly 1/3 of keys (within 20% tolerance)
    for (id, count) in &counts {
        let ratio = *count as f64 / 10000.0;
        assert!(
            ratio > 0.2 && ratio < 0.47,
            "Node {} has {:.1}% of keys — distribution too skewed",
            id,
            ratio * 100.0
        );
    }
}

#[test]
fn test_empty_ring() {
    let ring = HashRing::new(150, 3);
    assert!(ring.get_node("key").is_none());
    assert!(ring.get_nodes("key").is_empty());
}

#[test]
fn test_minimal_disruption_on_add() {
    let mut ring = HashRing::new(150, 3);
    ring.add_node(make_node("node1"));
    ring.add_node(make_node("node2"));

    // Record primary for 1000 keys
    let mut before: Vec<String> = Vec::new();
    for i in 0..1000 {
        let key = format!("key-{}", i);
        before.push(ring.get_node(&key).unwrap().id);
    }

    // Add a third node
    ring.add_node(make_node("node3"));

    let mut moved = 0;
    for i in 0..1000 {
        let key = format!("key-{}", i);
        let after = ring.get_node(&key).unwrap().id;
        if after != before[i] {
            moved += 1;
        }
    }

    // With consistent hashing, roughly 1/3 of keys should move
    let move_ratio = moved as f64 / 1000.0;
    assert!(
        move_ratio < 0.5,
        "Too many keys moved: {:.1}%",
        move_ratio * 100.0
    );
}

#[test]
fn positions_are_the_first_bytes_of_the_digest() {
    assert_eq!(HashRing::get_hash_for_key(""), 0xe3b0_c442_98fc_1c14);
    assert_eq!(HashRing::get_hash_for_key("abc"), 0xba78_16bf_8f01_cfea);
    assert_eq!(HashRing::get_hash_for_key("\u{e9}"), 0x4a99_557e_4033_c353);
    assert_eq!(
        position_of(&[1, 2, 3, 4, 5, 6, 7, 8, 9]),
        0x0102_0304_0506_0708
    );
    assert_eq!(position_of(&[0xff; 8]), u64::MAX);
}

#[test]
fn positions_belong_to_the_last_node_that_took_them() {
    let mut slots = Slots::new();
    assert_eq!(slots.node_at(5), None);
    assert!(slots.nodes_at(5, 3).is_empty());
    slots.occupy(30, make_node("c"));
    slots.occupy(10, make_node("a"));
    slots.occupy(20, make_node("x"));
    slots.occupy(20, make_node("b"));
    slots.occupy(40, make_node("a"));
    for (hash, id) in [(0, "a"), (10, "a"), (11, "b"), (20, "b"), (21, "c"), (40, "a"), (41, "a")] {
        assert_eq!(slots.node_at(hash).unwrap().id, id);
    }
    assert_eq!(ids(&slots.nodes_at(11, 3)), ["b", "c", "a"]);
    assert_eq!(ids(&slots.nodes_at(31, 3)), ["a", "b", "c"]);
    assert_eq!(ids(&slots.nodes_at(31, 2)), ["a", "b"]);
    assert!(slots.nodes_at(31, 0).is_empty());
    assert_eq!(ids(&slots.all_nodes()), ["a", "b", "c"]);
    slots.vacate("a");
    assert_eq!(slots.node_at(31).unwrap().id, "b");
    assert_eq!(ids(&slots.all_nodes()), ["b", "c"]);
}

#[test]
fn virtual_nodes_stand_at_their_hashes() {
    let mut ring = HashRing::new(11, 1);
    let mut slots = Slots::new();
    for id in ["n", "m", "o"] {
        ring.add_node(make_node(id));
        for i in 0..11 {
            let hash = HashRing::get_hash_for_key(&format!("{}:vnode:{}", id, i));
            slots.occupy(hash, make_node(id));
        }
    }
    assert_eq!(HashRing::get_hash_for_key("n:vnode:0"), 0xa401_d9dd_676e_a9e2);
    assert_eq!(HashRing::get_hash_for_key("n:vnode:10"), 0x095a_cdd0_1051_2123);
    for id in ["n", "m", "o"] {
        for i in 0..11 {
            assert_eq!(ring.get_node(&format!("{}:vnode:{}", id, i)).unwrap().id, id);
        }
    }
    for i in 0..500 {
        let key = format!("key-{}", i);
        assert_eq!(ring.get_node(&key), slots.node_at(HashRing::get_hash_for_key(&key)));
    }
}

#[test]
fn lists_follow_the_walk() {
    let ring = small_ring(3);
    assert_eq!(ids(&ring.get_nodes("k1")), ["a", "c", "b"]);
    assert_eq!(ids(&ring.get_nodes("k2")), ["c", "a", "b"]);
    assert_eq!(ring.get_node("k1").unwrap(), make_node("a"));
    assert_eq!(ids(&ring.get_all_nodes()), ["c", "a", "b"]);
    assert_eq!(ring.node_count(), 3);
    assert_eq!(ring.replication_factor(), 3);
}

#[test]
fn lists_are_as_long_as_the_replication_factor() {
    assert_eq!(ids(&small_ring(2).get_nodes("k1")), ["a", "c"]);
    assert_eq!(ids(&small_ring(1).get_nodes("k1")), ["a"]);
    assert!(small_ring(0).get_nodes("k1").is_empty());
    assert_eq!(small_ring(9).get_nodes("k1").len(), 3);
}

#[test]
fn a_node_is_responsible_if_it_is_in_the_list() {
    let ring = small_ring(2);
    assert!(ring.is_responsible("a", "k1"));
    assert!(ring.is_responsible("c", "k1"));
    assert!(!ring.is_responsible("b", "k1"));
    assert!(!ring.is_responsible("z", "k1"));
    assert!(has_id(&ring.get_all_nodes(), "b"));
}

#[test]
fn removal_undoes_addition_and_keeps_the_order() {
    let mut ring = small_ring(3);
    ring.add_node(make_node("d"));
    ring.remove_node("d");
    let same = small_ring(3);
    for key in ["k1", "k2", "k3", "k4"] {
        assert_eq!(ring.get_nodes(key), same.get_nodes(key));
    }
    ring.remove_node("c");
    assert_eq!(ids(&ring.get_nodes("k1")), ["a", "b"]);
    assert_eq!(ids(&ring.get_nodes("k2")), ["a", "b"]);
    ring.remove_node("nobody");
    assert_eq!(ring.node_count(), 2);
}

#[test]
fn an_added_node_takes_keys_only_for_itself() {
    let mut ring = small_ring(3);
    let before: Vec<Node> = (0..200)
        .map(|i| ring.get_node(&format!("key-{}", i)).unwrap())
        .collect();
    ring.add_node(make_node("d"));
    for i in 0..200 {
        let after = ring.get_node(&format!("key-{}", i)).unwrap();
        assert!(after == before[i] || after.id == "d");
    }
}

#[test]
fn an_added_node_is_listed_with_its_address() {
    let mut ring = small_ring(3);
    ring.remove_node("b");
    for address in ["first", "second"] {
        ring.add_node(Node {
            id: "d".to_string(),
            address: address.to_string(),
        });
        let listed: Vec<Node> =
            ring.get_all_nodes().into_iter().filter(|n| n.id == "d").collect();
        assert_eq!(listed.len(), 1);
        assert_eq!(listed[0].address, address);
        let before: Vec<Vec<Node>> =
            (0..50).map(|i| ring.get_nodes(&format!("key-{}", i))).collect();
        ring.add_node(listed[0].clone());
        let after: Vec<Vec<Node>> =
            (0..50).map(|i| ring.get_nodes(&format!("key-{}", i))).collect();
        assert_eq!(before, after);
    }
    assert_eq!(ring.node_count(), 3);
}

#[test]
fn adding_again_changes_the_address_only() {
    let mut ring = small_ring(3);
    ring.add_node(Node {
        id: "a".to_string(),
        address: "elsewhere".to_string(),
    });
    assert_eq!(ring.node_count(), 3);
    assert_eq!(ring.get_node("k1").unwrap().address, "elsewhere");
    assert_eq!(make_node("a").display(), "a@127.0.0.1:50001");
    assert!(make_node("a") != ring.get_node("k1").unwrap());
}

#[test]
fn a_removed_node_gives_up_only_its_own_keys() {
    let mut ring = small_ring(3);
    let before: Vec<Node> = (0..200)
        .map(|i| ring.get_node(&format!("key-{}", i)).unwrap())
        .collect();
    ring.remove_node("c");
    for i in 0..200 {
        let after = ring.get_node(&format!("key-{}", i)).unwrap();
        assert!(after.id != "c");
        assert!(after == before[i] || before[i].id == "c");
    }
}

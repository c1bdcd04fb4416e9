//! Quorum configuration and results.

use rkv::replication::{QuorumConfig, QuorumResult};

#[test]
fn the_default_is_strongly_consistent() {
    let config = QuorumConfig::default_strong();
    assert_eq!(
        (
            config.replication_factor,
            config.read_quorum,
            config.write_quorum
        ),
        (3, 2, 2)
    );
    assert!(config.is_strongly_consistent());
}

#[test]
fn eventual_consistency_is_not_strong() {
    let config = QuorumConfig::eventual();
    assert_eq!(
        (
            config.replication_factor,
            config.read_quorum,
            config.write_quorum
        ),
        (3, 1, 1)
    );
    assert!(!config.is_strongly_consistent());
}

#[test]
fn strength_is_decided_without_overflow() {
    let config = QuorumConfig {
        replication_factor: 5,
        read_quorum: u32::MAX,
        write_quorum: u32::MAX,
    };
    assert!(config.is_strongly_consistent());
    let config = QuorumConfig {
        replication_factor: 4,
        read_quorum: 2,
        write_quorum: 2,
    };
    assert!(!config.is_strongly_consistent());
}

#[test]
fn a_request_can_ask_for_its_own_quorum() {
    let config = QuorumConfig {
        replication_factor: 5,
        read_quorum: 2,
        write_quorum: 4,
    };
    assert_eq!(config.effective_read_quorum(0), 2);
    assert_eq!(config.effective_read_quorum(1), 1);
    assert_eq!(config.effective_write_quorum(0), 4);
    assert_eq!(config.effective_write_quorum(9), 9);
}

#[test]
fn a_result_succeeds_with_the_required_number() {
    let result = |successes: u32, required: u32| QuorumResult {
        value: Some(()),
        successes,
        failures: 7,
        required,
    };
    assert!(result(2, 2).is_success());
    assert!(result(3, 2).is_success());
    assert!(!result(1, 2).is_success());
    assert!(result(0, 0).is_success());
}

#[test]
fn strong_quorums_share_a_replica() {
    let config = QuorumConfig::default_strong();
    let pairs = [[0, 1], [0, 2], [1, 2]];
    assert_eq!(pairs[0].len() as u32, config.read_quorum);
    for read in pairs {
        for written in pairs {
            assert!(read.iter().any(|replica| written.contains(replica)));
        }
    }
}

#[test]
fn weak_quorums_can_miss_each_other() {
    let config = QuorumConfig::eventual();
    let (read, written) = ([0], [1]);
    assert_eq!(read.len() as u32, config.read_quorum);
    assert_eq!(written.len() as u32, config.write_quorum);
    assert!(!config.is_strongly_consistent());
    assert!(!written.contains(&read[0]));
}

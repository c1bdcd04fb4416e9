//! How many replicas a read or a write needs.

use vstd::prelude::*;

verus! {

/// Quorum configuration for reads and writes.
#[derive(Clone, Copy, Debug, PartialEq, Eq, Structural)]
pub struct QuorumConfig {
    /// N
    pub replication_factor: u32,
    /// R
    pub read_quorum: u32,
    /// W
    pub write_quorum: u32,
}

/// The quorum for a request that may ask for its own (0 = use default).
pub open spec fn effective(default: u32, asked: u32) -> u32 {
    if asked > 0 {
        asked
    } else {
        default
    }
}

impl QuorumConfig {
    /// Whether every read quorum shares a replica with every write quorum.
    pub open spec fn strong(&self) -> bool {
        self.read_quorum + self.write_quorum > self.replication_factor
    }

    /// Default: N=3, R=2, W=2 (strong consistency since R+W > N)
    pub fn default_strong() -> (config: Self)
        ensures
            config == (QuorumConfig { replication_factor: 3, read_quorum: 2, write_quorum: 2 }),
            config.strong(),
    {
        QuorumConfig { replication_factor: 3, read_quorum: 2, write_quorum: 2 }
    }

    /// Eventual consistency: N=3, R=1, W=1
    pub fn eventual() -> (config: Self)
        ensures
            config == (QuorumConfig { replication_factor: 3, read_quorum: 1, write_quorum: 1 }),
            !config.strong(),
    {
        QuorumConfig { replication_factor: 3, read_quorum: 1, write_quorum: 1 }
    }

    /// Check if the config guarantees strong consistency.
    pub fn is_strongly_consistent(&self) -> (strong: bool)
        ensures
            strong == self.strong(),
    {
        self.read_quorum as u64 + self.write_quorum as u64 > self.replication_factor as u64
    }

    /// Override read quorum for a specific request (0 = use default).
    pub fn effective_read_quorum(&self, override_r: u32) -> (required: u32)
        ensures
            required == effective(self.read_quorum, override_r),
    {
        if override_r > 0 {
            override_r
        } else {
            self.read_quorum
        }
    }

    /// Override write quorum for a specific request (0 = use default).
    pub fn effective_write_quorum(&self, override_w: u32) -> (required: u32)
        ensures
            required == effective(self.write_quorum, override_w),
    {
        if override_w > 0 {
            override_w
        } else {
            self.write_quorum
        }
    }
}

/// Result of a quorum operation.
#[derive(Debug)]
pub struct QuorumResult<T> {
    pub value: Option<T>,
    pub successes: u32,
    pub failures: u32,
    pub required: u32,
}

impl<T> QuorumResult<T> {
    /// Whether as many replicas succeeded as were required.
    pub fn is_success(&self) -> (met: bool)
        ensures
            met == (self.successes >= self.required),
    {
        self.successes >= self.required
    }
}

/// Under a strongly consistent configuration the replicas that a read asked
/// and those that a write reached have one in common, so that a read sees the
/// last write.
pub proof fn law_strong_quorums_intersect<A>(
    config: QuorumConfig,
    replicas: Set<A>,
    read: Set<A>,
    written: Set<A>,
)
    requires
        config.strong(),
        replicas.finite(),
        replicas.len() <= config.replication_factor,
        read.subset_of(replicas),
        written.subset_of(replicas),
        read.len() >= config.read_quorum,
        written.len() >= config.write_quorum,
    ensures
        exists|replica: A| read.contains(replica) && written.contains(replica),
{
    vstd::set_lib::lemma_len_subset(read, replicas);
    vstd::set_lib::lemma_len_subset(written, replicas);
    if forall|replica: A| !(read.contains(replica) && written.contains(replica)) {
        assert(read.disjoint(written));
        vstd::set_lib::lemma_set_disjoint_lens(read, written);
        assert((read + written).subset_of(replicas));
        vstd::set_lib::lemma_len_subset(read + written, replicas);
    }
}

/// Under a configuration that is not strongly consistent a read and a write
/// can both meet their quorums without a replica in common.
pub proof fn law_weak_quorums_can_miss(config: QuorumConfig)
    requires
        !config.strong(),
    ensures
        exists|read: Set<int>, written: Set<int>|
            {
                &&& #[trigger] read.disjoint(written)
                &&& read.len() == config.read_quorum
                &&& written.len() == config.write_quorum
                &&& (read + written).len() <= config.replication_factor
            },
{
    let r = config.read_quorum as int;
    let w = config.write_quorum as int;
    let read = vstd::set_lib::set_int_range(0, r);
    let written = vstd::set_lib::set_int_range(r, r + w);
    vstd::set_lib::lemma_int_range(0, r);
    vstd::set_lib::lemma_int_range(r, r + w);
    vstd::set_lib::lemma_int_range(0, r + w);
    assert(read + written =~= vstd::set_lib::set_int_range(0, r + w));
    assert(read.disjoint(written));
}

} // verus!

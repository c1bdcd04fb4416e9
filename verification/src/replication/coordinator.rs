//! The coordination of reads and writes across the nodes that hold a key.
//!
//! An operation has a first step, which decides what to do on this node and
//! what to send to which peers, and a last step, which makes the result from
//! what came back.

use vstd::prelude::*;

use crate::grpc::proto;
use crate::grpc::proto::WireVersion;
use crate::replication::quorum::{effective, QuorumConfig, QuorumResult};
use crate::ring::consistent_hash::{
    has_id, lists, nodes_of, preference, ring_hash, HashRing, Member, Node,
};
use crate::seqs::{at_most, lemma_filter_nothing, lemma_filter_step};
use crate::storage::engine::{overwriting, PendingWrite, StorageEngine};
use crate::storage::memtable::{
    clock_after, clock_at, expired, stored, tomb, version_of, Version, VectorClock,
    VersionedValue,
};
use crate::storage::wal::record;
use crate::wall_clock::{clock_reading, now_ms};

verus! {

/// How long a replica has to answer, in nanoseconds.
pub const RPC_TIMEOUT_NS: u64 = 2_000_000_000;

/// The nodes that hold a key.
pub open spec fn replicas(ring: HashRing, key: Seq<char>) -> Seq<Member> {
    at_most(preference(ring.slots(), ring_hash(key)), ring.factor() as int)
}

/// The nodes other than the one with an id.
pub open spec fn others(nodes: Seq<Member>, own: Seq<char>) -> Seq<Member> {
    nodes.filter(|node: Member| node.id != own)
}

/// Which of two versions stands: the one whose clock is after the other's, or
/// else the one with the later timestamp, the first where there is none.
pub open spec fn winner(current: Version, next: Version) -> Version {
    if clock_after(next.clock, current.clock) {
        next
    } else if clock_after(current.clock, next.clock) {
        current
    } else if next.timestamp_ms > current.timestamp_ms {
        next
    } else {
        current
    }
}

/// The version that stands after all replies, taken one after the other, be it
/// a value or a tombstone; replies without an unexpired version do not count.
pub open spec fn standing(replies: Seq<Option<Version>>, now: i64) -> Option<Version>
    decreases replies.len(),
{
    if replies.len() == 0 {
        None
    } else {
        let before = standing(replies.drop_last(), now);
        match replies.last() {
            Some(next) if !expired(next, now) => match before {
                Some(current) => Some(winner(current, next)),
                None => Some(next),
            },
            _ => before,
        }
    }
}

/// What a read gives after all replies: the version that stands, unless that is
/// a tombstone.
pub open spec fn resolved(replies: Seq<Option<Version>>, now: i64) -> Option<Version> {
    match standing(replies, now) {
        Some(v) if !v.deleted => Some(v),
        _ => None,
    }
}

/// A version on the wire.
pub open spec fn sent(v: Version) -> WireVersion {
    WireVersion {
        value: v.value,
        clock: Some(v.clock),
        timestamp_ms: v.timestamp_ms,
        ttl_ms: v.ttl_ms,
    }
}

/// The version that a message on the wire stands for: never a tombstone, and
/// with an empty clock where the message has none.
pub open spec fn received(w: WireVersion) -> Version {
    Version {
        value: w.value,
        clock: match w.clock {
            Some(clock) => clock,
            None => Map::empty(),
        },
        timestamp_ms: w.timestamp_ms,
        ttl_ms: w.ttl_ms,
        deleted: false,
    }
}

/// The version in a replica's answer, where there is an answer, it says that
/// one was found, and it has one.
pub open spec fn answered(reply: Option<proto::GetInternalResponse>) -> Option<Version> {
    match reply {
        Some(reply) => if reply.found {
            match reply.value {
                Some(value) => Some(received(value@)),
                None => None,
            }
        } else {
            None
        },
        None => None,
    }
}

/// The versions in optional values.
pub open spec fn versions(values: Seq<Option<VersionedValue>>) -> Seq<Option<Version>> {
    values.map_values(|v: Option<VersionedValue>| version_of(v))
}

/// What this node answered to a read, where it holds the key.
pub open spec fn own_response(local: Option<Option<VersionedValue>>) -> Seq<Option<Version>> {
    match local {
        Some(value) => seq![version_of(value)],
        None => Seq::empty(),
    }
}

/// The versions in what this node and its peers answered to a read.
pub open spec fn responses(
    local: Option<Option<VersionedValue>>,
    replies: Seq<Option<proto::GetInternalResponse>>,
) -> Seq<Option<Version>> {
    own_response(local) + replies.map_values(
        |reply: Option<proto::GetInternalResponse>| answered(reply),
    )
}

/// Tells an outcome from the other.
pub open spec fn is_outcome(outcome: bool) -> spec_fn(bool) -> bool {
    |ok: bool| ok == outcome
}

/// How many replicas of a write gave a certain outcome.
pub open spec fn outcomes(local: Option<bool>, replies: Seq<bool>, outcome: bool) -> nat {
    replies.filter(is_outcome(outcome)).len() + if local == Some(outcome) {
        1nat
    } else {
        0
    }
}

/// A write that was decided on: what to write on this node, where it holds the
/// key, and what to send to which peers.
pub struct PutPlan {
    pub required: u32,
    pub versioned: VersionedValue,
    pub local: Option<PendingWrite>,
    pub peers: Vec<Node>,
    pub request: proto::ReplicateRequest,
}

/// A read that was decided on: what this node has, where it holds the key, and
/// what to send to which peers.
pub struct GetPlan {
    pub required: u32,
    pub local: Option<Option<VersionedValue>>,
    pub peers: Vec<Node>,
    pub request: proto::GetInternalRequest,
}

/// A deletion that was decided on: what to write on this node, where it holds
/// the key, and which peers are to delete it too.
pub struct DeletePlan {
    pub required: u32,
    pub local: Option<PendingWrite>,
    pub peers: Vec<Node>,
    pub key: String,
}

/// Coordinates reads/writes across the cluster with quorum semantics.
pub struct ReplicationCoordinator {
    quorum: QuorumConfig,
    rpc_timeout_ns: u64,
}

/// The nodes of a list other than the one with an id.
fn without_own(nodes: &Vec<Node>, own: &str) -> (peers: Vec<Node>)
    ensures
        nodes_of(peers@) == others(nodes_of(nodes@), own@),
{
    let id = own.to_string();
    let ghost all = nodes_of(nodes@);
    let ghost keep = |node: Member| node.id != own@;
    let mut peers: Vec<Node> = Vec::new();
    let mut i: usize = 0;
    proof {
        lemma_filter_nothing(all.take(0), keep);
        assert(nodes_of(peers@) =~= all.take(0).filter(keep));
    }
    while i < nodes.len()
        invariant
            i <= nodes@.len(),
            id@ == own@,
            all == nodes_of(nodes@),
            keep == (|node: Member| node.id != own@),
            nodes_of(peers@) == all.take(i as int).filter(keep),
        decreases nodes@.len() - i,
    {
        let ghost before = peers@;
        assert(all[i as int] == nodes@[i as int]@);
        proof {
            lemma_filter_step(all, i as int, keep);
        }
        if nodes[i].id != id {
            peers.push(nodes[i].clone());
            assert(nodes_of(peers@) =~= nodes_of(before).push(all[i as int]));
        }
        i = i + 1;
    }
    assert(all.take(all.len() as int) =~= all);
    peers
}

/// Counts the successes and the failures of a write.
pub(crate) fn tally(local: Option<bool>, replies: &Vec<bool>) -> (counts: (u32, u32))
    requires
        replies@.len() + 1 <= u32::MAX || (local is None && replies@.len() <= u32::MAX),
    ensures
        counts.0 == outcomes(local, replies@, true),
        counts.1 == outcomes(local, replies@, false),
{
    let ghost good = is_outcome(true);
    let ghost bad = is_outcome(false);
    let mut successes: u32 = 0;
    let mut failures: u32 = 0;
    match local {
        Some(true) => {
            successes = 1;
        },
        Some(false) => {
            failures = 1;
        },
        None => {},
    }
    let ghost first = (successes, failures);
    let mut i: usize = 0;
    proof {
        lemma_filter_nothing(replies@.take(0), good);
        lemma_filter_nothing(replies@.take(0), bad);
    }
    while i < replies.len()
        invariant
            i <= replies@.len(),
            first.0 + first.1 + replies@.len() <= u32::MAX,
            good == is_outcome(true),
            bad == is_outcome(false),
            successes == first.0 + replies@.take(i as int).filter(good).len(),
            failures == first.1 + replies@.take(i as int).filter(bad).len(),
            successes + failures == first.0 + first.1 + i,
        decreases replies@.len() - i,
    {
        proof {
            lemma_filter_step(replies@, i as int, good);
            lemma_filter_step(replies@, i as int, bad);
        }
        if replies[i] {
            successes = successes + 1;
        } else {
            failures = failures + 1;
        }
        i = i + 1;
    }
    assert(replies@.take(replies@.len() as int) =~= replies@);
    (successes, failures)
}

impl ReplicationCoordinator {
    /// The quorum configuration.
    pub closed spec fn config(&self) -> QuorumConfig {
        self.quorum
    }

    /// How long a replica has to answer.
    pub closed spec fn timeout(&self) -> u64 {
        self.rpc_timeout_ns
    }

    /// A coordinator with a quorum configuration. Replicas have two seconds to
    /// answer.
    pub fn new(quorum: QuorumConfig) -> (coordinator: Self)
        ensures
            coordinator.config() == quorum,
            coordinator.timeout() == RPC_TIMEOUT_NS,
    {
        ReplicationCoordinator { quorum, rpc_timeout_ns: RPC_TIMEOUT_NS }
    }

    /// Coordinated PUT, first step: write to local + replicate to peers with
    /// quorum.
    pub fn put(
        &self,
        engine: &mut StorageEngine,
        ring: &HashRing,
        key: String,
        value: Vec<u8>,
        ttl_ms: i64,
        write_quorum_override: u32,
    ) -> (plan: PutPlan)
        requires
            lists(replicas(*ring, key@), old(engine).settings().node_id@) ==> old(engine).last()
                < u64::MAX,
        ensures
            exists|now: i64|
                now >= 0 && clock_reading(now) && plan.versioned@ == #[trigger] overwriting(
                    old(engine)@,
                    key@,
                    value@,
                    old(engine).settings().node_id@,
                    ttl_ms,
                    now,
                ),
            self.put_decided(
                old(engine),
                final(engine),
                replicas(*ring, key@),
                key@,
                write_quorum_override,
                plan,
            ),
    {
        let now = now_ms();
        let nodes = ring.get_nodes(key.as_str());
        self.put_to(engine, &nodes, key, value, ttl_ms, write_quorum_override, now)
    }

    /// What the first step of a write of a version decides, where `nodes` hold
    /// the key.
    pub open spec fn put_decided(
        &self,
        before: &StorageEngine,
        after: &StorageEngine,
        nodes: Seq<Member>,
        key: Seq<char>,
        asked: u32,
        plan: PutPlan,
    ) -> bool {
        let own = before.settings().node_id@;
        &&& plan.required == effective(self.config().write_quorum, asked)
        &&& nodes_of(plan.peers@) == others(nodes, own)
        &&& plan.request.key@ == key
        &&& plan.request.value matches Some(value) && value@ == sent(plan.versioned@)
        &&& !plan.request.is_delete
        &&& after@ == before@
        &&& after.rows() == before.rows()
        &&& after.same_setup(before)
        &&& if lists(nodes, own) {
            &&& plan.local matches Some(write) && write.entry@ == record(
                (before.last() + 1) as u64,
                key,
                plan.versioned@,
            ) && write.may_flush
            &&& after.last() == before.last() + 1
        } else {
            &&& plan.local is None
            &&& after.last() == before.last()
        }
    }

    /// Coordinated PUT, first step, where `nodes` hold the key and the value is
    /// written at a given time.
    pub fn put_to(
        &self,
        engine: &mut StorageEngine,
        nodes: &Vec<Node>,
        key: String,
        value: Vec<u8>,
        ttl_ms: i64,
        write_quorum_override: u32,
        now: i64,
    ) -> (plan: PutPlan)
        requires
            lists(nodes_of(nodes@), old(engine).settings().node_id@) ==> old(engine).last()
                < u64::MAX,
        ensures
            plan.versioned@ == overwriting(
                old(engine)@,
                key@,
                value@,
                old(engine).settings().node_id@,
                ttl_ms,
                now,
            ),
            self.put_decided(
                old(engine),
                final(engine),
                nodes_of(nodes@),
                key@,
                write_quorum_override,
                plan,
            ),
    {
        let required = self.quorum.effective_write_quorum(write_quorum_override);
        let existing_clock = engine.memtable().clock(key.as_str());
        let mut versioned = VersionedValue::new_at(value, engine.node_id(), ttl_ms, now);
        versioned.vector_clock.merge(&existing_clock);
        let peers = without_own(nodes, engine.node_id());
        let request = proto::ReplicateRequest {
            key: key.clone(),
            value: Some(to_proto_versioned(&versioned)),
            is_delete: false,
        };
        let local = if has_id(nodes, engine.node_id()) {
            Some(engine.put(key, versioned.clone()))
        } else {
            None
        };
        PutPlan { required, versioned, local, peers, request }
    }

    /// Coordinated PUT, last step: the result, from how the write on this node
    /// went, if there was one, and what the peers answered. A peer that did
    /// not answer in time, or with an error, counts as a failure.
    pub fn finish_put(
        &self,
        plan: PutPlan,
        local: Option<bool>,
        replies: Vec<bool>,
    ) -> (result: QuorumResult<VectorClock>)
        requires
            replies@.len() + 1 <= u32::MAX || (local is None && replies@.len() <= u32::MAX),
        ensures
            result.value matches Some(clock) && clock@ == plan.versioned@.clock,
            result.successes == outcomes(local, replies@, true),
            result.failures == outcomes(local, replies@, false),
            result.required == plan.required,
    {
        let (successes, failures) = tally(local, &replies);
        QuorumResult {
            value: Some(plan.versioned.vector_clock),
            successes,
            failures,
            required: plan.required,
        }
    }

    /// Coordinated GET, first step: read from quorum nodes, resolve conflicts.
    pub fn get(
        &self,
        engine: &StorageEngine,
        ring: &HashRing,
        key: &str,
        read_quorum_override: u32,
    ) -> (plan: GetPlan)
        ensures
            self.get_decided(engine, replicas(*ring, key@), key@, read_quorum_override, plan),
    {
        let nodes = ring.get_nodes(key);
        self.get_from(engine, &nodes, key, read_quorum_override)
    }

    /// What the first step of a read decides, where `nodes` hold the key.
    pub open spec fn get_decided(
        &self,
        engine: &StorageEngine,
        nodes: Seq<Member>,
        key: Seq<char>,
        asked: u32,
        plan: GetPlan,
    ) -> bool {
        let own = engine.settings().node_id@;
        &&& plan.required == effective(self.config().read_quorum, asked)
        &&& nodes_of(plan.peers@) == others(nodes, own)
        &&& plan.request.key@ == key
        &&& plan.local is Some <==> lists(nodes, own)
        &&& plan.local matches Some(value) ==> version_of(value) == stored(engine@, key)
    }

    /// Coordinated GET, first step, where `nodes` hold the key.
    pub fn get_from(
        &self,
        engine: &StorageEngine,
        nodes: &Vec<Node>,
        key: &str,
        read_quorum_override: u32,
    ) -> (plan: GetPlan)
        ensures
            self.get_decided(engine, nodes_of(nodes@), key@, read_quorum_override, plan),
    {
        let required = self.quorum.effective_read_quorum(read_quorum_override);
        let local = if has_id(nodes, engine.node_id()) {
            Some(engine.get_raw(key))
        } else {
            None
        };
        let peers = without_own(nodes, engine.node_id());
        let request = proto::GetInternalRequest { key: key.to_string() };
        GetPlan { required, local, peers, request }
    }

    /// Coordinated GET, last step: the result, from what the peers answered. A
    /// peer that did not answer in time, or with an error, has no answer; it
    /// counts as a success all the same.
    pub fn finish_get(
        &self,
        plan: GetPlan,
        replies: Vec<Option<proto::GetInternalResponse>>,
    ) -> (result: QuorumResult<VersionedValue>)
        requires
            replies@.len() + 1 <= u32::MAX || (plan.local is None && replies@.len() <= u32::MAX),
        ensures
            exists|now: i64|
                now >= 0 && clock_reading(now) && version_of(result.value) == #[trigger] resolved(
                    responses(plan.local, replies@),
                    now,
                ),
            result.successes == responses(plan.local, replies@).len(),
            result.failures == 0,
            result.required == plan.required,
    {
        let now = now_ms();
        self.finish_get_at(plan, replies, now)
    }

    /// Coordinated GET, last step, at a given time.
    pub fn finish_get_at(
        &self,
        plan: GetPlan,
        replies: Vec<Option<proto::GetInternalResponse>>,
        now: i64,
    ) -> (result: QuorumResult<VersionedValue>)
        requires
            replies@.len() + 1 <= u32::MAX || (plan.local is None && replies@.len() <= u32::MAX),
        ensures
            version_of(result.value) == resolved(responses(plan.local, replies@), now),
            result.successes == responses(plan.local, replies@).len(),
            result.failures == 0,
            result.required == plan.required,
    {
        let ghost all = responses(plan.local, replies@);
        let ghost first = own_response(plan.local);
        let ghost from_peers = replies@.map_values(
            |reply: Option<proto::GetInternalResponse>| answered(reply),
        );
        let required = plan.required;
        let n = replies.len();
        let mut values: Vec<Option<VersionedValue>> = Vec::new();
        let mut successes: u32 = 0;
        if let Some(value) = plan.local {
            values.push(value);
            successes = 1;
        }
        assert(versions(values@) =~= first + from_peers.take(0));
        assert(all =~= first + from_peers);
        for reply in it: replies
            invariant
                it.seq() == replies@,
                n == replies@.len(),
                first.len() <= 1,
                first.len() + n <= u32::MAX,
                from_peers == replies@.map_values(
                    |reply: Option<proto::GetInternalResponse>| answered(reply),
                ),
                versions(values@) == first + from_peers.take(it.index()),
                successes == first.len() + it.index(),
        {
            let ghost i = it.index();
            let ghost before = values@;
            assert(from_peers[i] == answered(reply));
            successes = successes + 1;
            let value = match reply {
                Some(reply) => {
                    if reply.found {
                        match reply.value {
                            Some(value) => Some(from_proto_versioned(value)),
                            None => None,
                        }
                    } else {
                        None
                    }
                },
                None => None,
            };
            values.push(value);
            assert(versions(values@) =~= versions(before).push(version_of(value)));
            assert(versions(values@) =~= first + from_peers.take(i + 1));
        }
        assert(from_peers.take(n as int) =~= from_peers);
        assert(all.len() == first.len() + n);
        let value = self.resolve_conflicts_at(values, now);
        QuorumResult { value, successes, failures: 0, required }
    }

    /// Coordinated DELETE, first step.
    pub fn delete(
        &self,
        engine: &mut StorageEngine,
        ring: &HashRing,
        key: &str,
        write_quorum_override: u32,
    ) -> (plan: DeletePlan)
        requires
            lists(replicas(*ring, key@), old(engine).settings().node_id@) ==> old(engine).deletable(
                key@,
            ),
        ensures
            exists|now: i64|
                now >= 0 && clock_reading(now) && #[trigger] self.delete_decided(
                    old(engine),
                    final(engine),
                    replicas(*ring, key@),
                    key@,
                    write_quorum_override,
                    now,
                    plan,
                ),
    {
        let now = now_ms();
        let nodes = ring.get_nodes(key);
        assert(nodes_of(nodes@) == replicas(*ring, key@));
        self.delete_from(engine, &nodes, key, write_quorum_override, now)
    }

    /// What the first step of a deletion decides, where `nodes` hold the key.
    pub open spec fn delete_decided(
        &self,
        before: &StorageEngine,
        after: &StorageEngine,
        nodes: Seq<Member>,
        key: Seq<char>,
        asked: u32,
        now: i64,
        plan: DeletePlan,
    ) -> bool {
        let own = before.settings().node_id@;
        &&& plan.required == effective(self.config().write_quorum, asked)
        &&& nodes_of(plan.peers@) == others(nodes, own)
        &&& plan.key@ == key
        &&& after@ == before@
        &&& after.rows() == before.rows()
        &&& after.same_setup(before)
        &&& if lists(nodes, own) {
            &&& plan.local matches Some(write) && write.entry@ == record(
                (before.last() + 1) as u64,
                key,
                tomb(own, clock_at(before@, key), now),
            ) && !write.may_flush
            &&& after.last() == before.last() + 1
        } else {
            &&& plan.local is None
            &&& after.last() == before.last()
        }
    }

    /// Coordinated DELETE, first step, where `nodes` hold the key and the
    /// tombstone is written at a given time.
    pub fn delete_from(
        &self,
        engine: &mut StorageEngine,
        nodes: &Vec<Node>,
        key: &str,
        write_quorum_override: u32,
        now: i64,
    ) -> (plan: DeletePlan)
        requires
            lists(nodes_of(nodes@), old(engine).settings().node_id@) ==> old(engine).deletable(
                key@,
            ),
        ensures
            self.delete_decided(
                old(engine),
                final(engine),
                nodes_of(nodes@),
                key@,
                write_quorum_override,
                now,
                plan,
            ),
    {
        let required = self.quorum.effective_write_quorum(write_quorum_override);
        let peers = without_own(nodes, engine.node_id());
        let local = if has_id(nodes, engine.node_id()) {
            Some(engine.delete_at(key, now))
        } else {
            None
        };
        DeletePlan { required, local, peers, key: key.to_string() }
    }

    /// Coordinated DELETE, second step, once the deletion on this node is done:
    /// what to send to the peers.
    pub fn delete_request(
        &self,
        engine: &StorageEngine,
        key: &str,
    ) -> (request: proto::DeleteInternalRequest)
        ensures
            request.key@ == key@,
            request.vector_clock matches Some(clock) && clock@ == clock_at(engine@, key@),
    {
        let clock = engine.memtable().clock(key);
        proto::DeleteInternalRequest {
            key: key.to_string(),
            vector_clock: Some(to_proto_vector_clock(&clock)),
        }
    }

    /// Coordinated DELETE, last step: the result, from how the deletion on this
    /// node went, if there was one, and what the peers answered.
    pub fn finish_delete(
        &self,
        plan: DeletePlan,
        local: Option<bool>,
        replies: Vec<bool>,
    ) -> (result: QuorumResult<()>)
        requires
            replies@.len() + 1 <= u32::MAX || (local is None && replies@.len() <= u32::MAX),
        ensures
            result.value == Some(()),
            result.successes == outcomes(local, replies@, true),
            result.failures == outcomes(local, replies@, false),
            result.required == plan.required,
    {
        let (successes, failures) = tally(local, &replies);
        QuorumResult { value: Some(()), successes, failures, required: plan.required }
    }

    /// Resolve conflicts using vector clocks (last-writer-wins on concurrent).
    /// Where a tombstone stands in the end, there is no value.
    pub fn resolve_conflicts(
        &self,
        values: Vec<Option<VersionedValue>>,
    ) -> (best: Option<VersionedValue>)
        ensures
            exists|now: i64|
                now >= 0 && clock_reading(now)
                    && version_of(best) == #[trigger] resolved(versions(values@), now),
    {
        let now = now_ms();
        self.resolve_conflicts_at(values, now)
    }

    /// Resolve conflicts at a given time.
    pub fn resolve_conflicts_at(
        &self,
        values: Vec<Option<VersionedValue>>,
        now: i64,
    ) -> (best: Option<VersionedValue>)
        ensures
            version_of(best) == resolved(versions(values@), now),
    {
        let ghost all = versions(values@);
        let mut best: Option<VersionedValue> = None;
        assert(all.take(0) =~= Seq::empty());
        for value in it: values
            invariant
                it.seq() == values@,
                all == versions(values@),
                version_of(best) == standing(all.take(it.index()), now),
        {
            let ghost i = it.index();
            assert(all[i] == version_of(value));
            assert(all.take(i + 1).drop_last() =~= all.take(i));
            assert(all.take(i + 1).last() == all[i]);
            if let Some(val) = value {
                if !val.is_expired_at(now) {
                    best = Some(
                        match best {
                            None => val,
                            Some(current) => {
                                if val.vector_clock.dominates(&current.vector_clock) {
                                    val
                                } else if current.vector_clock.dominates(&val.vector_clock) {
                                    current
                                } else {
                                    // Concurrent: last-writer-wins by timestamp
                                    if val.timestamp_ms > current.timestamp_ms {
                                        val
                                    } else {
                                        current
                                    }
                                }
                            },
                        },
                    );
                }
            }
        }
        assert(all.take(all.len() as int) =~= all);
        match best {
            Some(val) => {
                if val.deleted {
                    None
                } else {
                    Some(val)
                }
            },
            None => None,
        }
    }

    /// The quorum configuration.
    pub fn quorum_config(&self) -> (config: &QuorumConfig)
        ensures
            *config == self.config(),
    {
        &self.quorum
    }

    /// How long a replica has to answer, in nanoseconds.
    pub fn rpc_timeout_ns(&self) -> (ns: u64)
        ensures
            ns == self.timeout(),
    {
        self.rpc_timeout_ns
    }
}

/// A version as it goes on the wire.
pub fn to_proto_versioned(v: &VersionedValue) -> (p: proto::VersionedValue)
    ensures
        p@ == sent(v@),
{
    let value = v.value.clone();
    assert(value@ =~= v.value@);
    proto::VersionedValue {
        value,
        vector_clock: Some(to_proto_vector_clock(&v.vector_clock)),
        timestamp_ms: v.timestamp_ms,
        ttl_ms: v.ttl_ms,
    }
}

/// A version as it comes from the wire.
pub fn from_proto_versioned(p: proto::VersionedValue) -> (v: VersionedValue)
    ensures
        v@ == received(p@),
{
    let vector_clock = match p.vector_clock {
        Some(clock) => from_proto_vector_clock(clock),
        None => VectorClock::new(),
    };
    VersionedValue {
        value: p.value,
        vector_clock,
        timestamp_ms: p.timestamp_ms,
        ttl_ms: p.ttl_ms,
        deleted: false,
    }
}

/// A clock as it goes on the wire.
pub fn to_proto_vector_clock(vc: &VectorClock) -> (p: proto::VectorClock)
    ensures
        p@ == vc@,
{
    let copy = vc.clone();
    proto::VectorClock { clocks: copy.clocks }
}

/// A clock as it comes from the wire.
pub fn from_proto_vector_clock(p: proto::VectorClock) -> (vc: VectorClock)
    ensures
        vc@ == p@,
{
    VectorClock { clocks: p.clocks }
}

/// A version as it goes on the wire.
pub fn value_to_proto(v: &VersionedValue) -> (p: proto::VersionedValue)
    ensures
        p@ == sent(v@),
{
    to_proto_versioned(v)
}

/// A version as it comes from the wire.
pub fn value_from_proto(p: proto::VersionedValue) -> (v: VersionedValue)
    ensures
        v@ == received(p@),
{
    from_proto_versioned(p)
}

/// A clock as it goes on the wire.
pub fn vc_to_proto(vc: &VectorClock) -> (p: proto::VectorClock)
    ensures
        p@ == vc@,
{
    to_proto_vector_clock(vc)
}

/// A clock as it comes from the wire.
pub fn vc_from_proto(p: proto::VectorClock) -> (vc: VectorClock)
    ensures
        vc@ == p@,
{
    from_proto_vector_clock(p)
}

} // verus!

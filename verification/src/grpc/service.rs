//! What the services answer: to clients, and to the other nodes.
//!
//! A request that writes has a first step, which makes the write, and a last
//! step, which answers once it is known how the write went.

use vstd::prelude::*;

use crate::gossip::detector::{heard, listed_by_id, ring_heard, told, GossipService};
use crate::grpc::proto;
use crate::grpc::proto::{clock_in, reports};
use crate::replication::coordinator::{
    outcomes, received, replicas, sent, tally, value_from_proto, value_to_proto, vc_from_proto,
    vc_to_proto, DeletePlan, GetPlan, PutPlan, ReplicationCoordinator,
};
use crate::replication::quorum::QuorumResult;
use crate::ring::consistent_hash::{lists, HashRing};
use crate::seqs::at_most;
use crate::storage::engine::{overwriting, PendingWrite, StorageEngine};
use crate::storage::memtable::{
    clock_at, rows_in, scanned, stored, tomb, Version, VectorClock, VersionedValue,
};
use crate::storage::wal::record;
use crate::text::{decimal, decimal_text, key_le};
use crate::wall_clock::{clock_reading, now_ms};

verus! {

/// Why a request fails, with the reason in words.
#[derive(Debug)]
pub enum Status {
    InvalidArgument(String),
    Internal(String),
    Unavailable(String),
}

/// What a failure says.
pub enum Failure {
    InvalidArgument(Seq<char>),
    Internal(Seq<char>),
    Unavailable(Seq<char>),
}

impl View for Status {
    type V = Failure;

    open spec fn view(&self) -> Failure {
        match self {
            Status::InvalidArgument(text) => Failure::InvalidArgument(text@),
            Status::Internal(text) => Failure::Internal(text@),
            Status::Unavailable(text) => Failure::Unavailable(text@),
        }
    }
}

/// How many pairs a scan gives where the request does not say.
pub const DEFAULT_SCAN_LIMIT: usize = 100;

/// What is said where a quorum was not met.
pub open spec fn not_met(kind: Seq<char>, successes: u32, required: u32) -> Seq<char> {
    kind + " quorum not met: got "@ + decimal(successes as nat) + "/"@ + decimal(required as nat)
        + " successes"@
}

/// Says that a quorum was not met.
fn not_met_text(kind: &str, successes: u32, required: u32) -> (text: String)
    ensures
        text@ == not_met(kind@, successes, required),
{
    let mut text = kind.to_string();
    text.append(" quorum not met: got ");
    text.append(decimal_text(successes as u64).as_str());
    text.append("/");
    text.append(decimal_text(required as u64).as_str());
    text.append(" successes");
    text
}

/// How many pairs a scan gives at most.
pub open spec fn scan_limit(asked: u32) -> int {
    if asked == 0 {
        DEFAULT_SCAN_LIMIT as int
    } else {
        asked as int
    }
}

/// What a pair on the wire holds.
#[verifier::ext_equal]
pub struct WirePair {
    pub key: Seq<char>,
    pub value: Seq<u8>,
    pub clock: Option<Map<Seq<char>, u64>>,
}

/// What pairs on the wire hold.
pub open spec fn wire_pairs(pairs: Seq<proto::KeyValue>) -> Seq<WirePair> {
    pairs.map_values(
        |kv: proto::KeyValue|
            WirePair { key: kv.key@, value: kv.value@, clock: clock_in(kv.vector_clock) },
    )
}

/// What rows of a table are on the wire.
pub open spec fn sent_pairs(rows: Seq<(Seq<char>, Version)>) -> Seq<WirePair> {
    rows.map_values(
        |row: (Seq<char>, Version)|
            WirePair { key: row.0, value: row.1.value, clock: Some(row.1.clock) },
    )
}

/// The version that is stored for a pair that another node hands over.
pub open spec fn handed_over(
    value: Seq<u8>,
    clock: Option<Map<Seq<char>, u64>>,
    now: i64,
) -> Version {
    Version {
        value,
        clock: match clock {
            Some(clock) => clock,
            None => Map::empty(),
        },
        timestamp_ms: now,
        ttl_ms: 0,
        deleted: false,
    }
}

/// The client-facing service.
pub struct KvServiceImpl {
    coordinator: ReplicationCoordinator,
}

impl KvServiceImpl {
    /// The coordinator of the service.
    pub closed spec fn coordinated(&self) -> ReplicationCoordinator {
        self.coordinator
    }

    /// A service that has its requests coordinated.
    pub fn new(coordinator: ReplicationCoordinator) -> (service: Self)
        ensures
            service.coordinated() == coordinator,
    {
        KvServiceImpl { coordinator }
    }

    /// The coordinator of the service.
    pub fn coordinator(&self) -> (coordinator: &ReplicationCoordinator)
        ensures
            *coordinator == self.coordinated(),
    {
        &self.coordinator
    }

    /// A read, first step.
    pub fn get(
        &self,
        engine: &StorageEngine,
        ring: &HashRing,
        request: &proto::GetRequest,
    ) -> (plan: GetPlan)
        ensures
            self.coordinated().get_decided(
                engine,
                replicas(*ring, request.key@),
                request.key@,
                request.read_quorum,
                plan,
            ),
    {
        self.coordinator.get(engine, ring, request.key.as_str(), request.read_quorum)
    }

    /// A read, last step: the answer to the client.
    pub fn get_reply(
        &self,
        result: QuorumResult<VersionedValue>,
    ) -> (reply: Result<proto::GetResponse, Status>)
        ensures
            match reply {
                Err(status) => result.successes < result.required && status@
                    == Failure::Unavailable(
                    not_met("Read"@, result.successes, result.required),
                ),
                Ok(response) => result.successes >= result.required && match result.value {
                    Some(v) => response.found && response.value@ == v@.value && clock_in(
                        response.vector_clock,
                    ) == Some(v@.clock),
                    None => !response.found && response.value@.len() == 0
                        && response.vector_clock is None,
                },
            },
    {
        if !result.is_success() {
            return Err(
                Status::Unavailable(not_met_text("Read", result.successes, result.required)),
            );
        }
        match result.value {
            Some(val) => {
                let clock = vc_to_proto(&val.vector_clock);
                Ok(
                    proto::GetResponse { found: true, value: val.value, vector_clock: Some(clock) },
                )
            },
            None => Ok(
                proto::GetResponse { found: false, value: Vec::new(), vector_clock: None },
            ),
        }
    }

    /// A write, first step.
    pub fn put(
        &self,
        engine: &mut StorageEngine,
        ring: &HashRing,
        request: proto::PutRequest,
    ) -> (plan: PutPlan)
        requires
            lists(replicas(*ring, request.key@), old(engine).settings().node_id@) ==> old(
                engine,
            ).last() < u64::MAX,
        ensures
            exists|now: i64|
                now >= 0 && clock_reading(now) && plan.versioned@ == #[trigger] overwriting(
                    old(engine)@,
                    request.key@,
                    request.value@,
                    old(engine).settings().node_id@,
                    request.ttl_ms,
                    now,
                ),
            self.coordinated().put_decided(
                old(engine),
                final(engine),
                replicas(*ring, request.key@),
                request.key@,
                request.write_quorum,
                plan,
            ),
    {
        self.coordinator.put(
            engine,
            ring,
            request.key,
            request.value,
            request.ttl_ms,
            request.write_quorum,
        )
    }

    /// A write, first step, unless this node holds the key and its log has no
    /// number left.
    pub fn try_put(
        &self,
        engine: &mut StorageEngine,
        ring: &HashRing,
        request: proto::PutRequest,
    ) -> (plan: Option<PutPlan>)
        ensures
            plan is None <==> lists(
                replicas(*ring, request.key@),
                old(engine).settings().node_id@,
            ) && old(engine).last() == u64::MAX,
            plan is None ==> *final(engine) == *old(engine),
            plan matches Some(plan) ==> exists|now: i64|
                now >= 0 && clock_reading(now) && plan.versioned@ == #[trigger] overwriting(
                    old(engine)@,
                    request.key@,
                    request.value@,
                    old(engine).settings().node_id@,
                    request.ttl_ms,
                    now,
                ),
            plan matches Some(plan) ==> self.coordinated().put_decided(
                old(engine),
                final(engine),
                replicas(*ring, request.key@),
                request.key@,
                request.write_quorum,
                plan,
            ),
    {
        if ring.is_responsible(engine.node_id(), request.key.as_str())
            && engine.wal().sequence() == u64::MAX {
            return None;
        }
        Some(self.put(engine, ring, request))
    }

    /// A write, last step: the answer to the client.
    pub fn put_reply(
        &self,
        result: QuorumResult<VectorClock>,
    ) -> (reply: Result<proto::PutResponse, Status>)
        ensures
            match reply {
                Err(status) => result.successes < result.required && status@
                    == Failure::Unavailable(
                    not_met("Write"@, result.successes, result.required),
                ),
                Ok(response) => result.successes >= result.required && response.success
                    && clock_in(response.vector_clock) == match result.value {
                    Some(clock) => Some(clock@),
                    None => None,
                },
            },
    {
        if !result.is_success() {
            return Err(
                Status::Unavailable(not_met_text("Write", result.successes, result.required)),
            );
        }
        let vector_clock = match result.value {
            Some(clock) => Some(vc_to_proto(&clock)),
            None => None,
        };
        Ok(proto::PutResponse { success: true, vector_clock })
    }

    /// A deletion, first step.
    pub fn delete(
        &self,
        engine: &mut StorageEngine,
        ring: &HashRing,
        request: &proto::DeleteRequest,
    ) -> (plan: DeletePlan)
        requires
            lists(replicas(*ring, request.key@), old(engine).settings().node_id@) ==> old(
                engine,
            ).deletable(request.key@),
        ensures
            exists|now: i64|
                now >= 0 && clock_reading(now) && #[trigger] self.coordinated().delete_decided(
                    old(engine),
                    final(engine),
                    replicas(*ring, request.key@),
                    request.key@,
                    request.write_quorum,
                    now,
                    plan,
                ),
    {
        let plan = self.coordinator.delete(
            engine,
            ring,
            request.key.as_str(),
            request.write_quorum,
        );
        proof {
            let now = choose|now: i64|
                now >= 0 && clock_reading(now) && #[trigger] self.coordinator.delete_decided(
                    old(engine),
                    engine,
                    replicas(*ring, request.key@),
                    request.key@,
                    request.write_quorum,
                    now,
                    plan,
                );
            assert(self.coordinated().delete_decided(
                old(engine),
                engine,
                replicas(*ring, request.key@),
                request.key@,
                request.write_quorum,
                now,
                plan,
            ));
        }
        plan
    }

    /// A deletion, first step, unless this node holds the key and its log has
    /// no number left or the key's clock no count.
    pub fn try_delete(
        &self,
        engine: &mut StorageEngine,
        ring: &HashRing,
        request: &proto::DeleteRequest,
    ) -> (plan: Option<DeletePlan>)
        ensures
            plan is None <==> lists(
                replicas(*ring, request.key@),
                old(engine).settings().node_id@,
            ) && !old(engine).deletable(request.key@),
            plan is None ==> *final(engine) == *old(engine),
            plan matches Some(plan) ==> exists|now: i64|
                now >= 0 && clock_reading(now) && #[trigger] self.coordinated().delete_decided(
                    old(engine),
                    final(engine),
                    replicas(*ring, request.key@),
                    request.key@,
                    request.write_quorum,
                    now,
                    plan,
                ),
    {
        let key = request.key.as_str();
        if ring.is_responsible(engine.node_id(), key) && !engine.can_delete(key) {
            return None;
        }
        Some(self.delete(engine, ring, request))
    }

    /// A deletion, last step: the answer to the client. It is no error where
    /// the quorum was not met.
    pub fn delete_reply(&self, result: QuorumResult<()>) -> (response: proto::DeleteResponse)
        ensures
            response.success == (result.successes >= result.required),
    {
        proto::DeleteResponse { success: result.is_success() }
    }

    /// A scan of this node's keys.
    pub fn scan(
        &self,
        engine: &StorageEngine,
        request: &proto::ScanRequest,
    ) -> (response: proto::ScanResponse)
        requires
            key_le(request.start_key@, request.end_key@),
        ensures
            exists|now: i64|
                now >= 0 && clock_reading(now) && wire_pairs(response.pairs@) == sent_pairs(
                    at_most(
                        #[trigger] scanned(
                            engine.rows(),
                            request.start_key@,
                            request.end_key@,
                            now,
                        ),
                        scan_limit(request.limit),
                    ),
                ),
    {
        let now = now_ms();
        self.scan_at(engine, request, now)
    }

    /// A scan of this node's keys at a given time.
    pub fn scan_at(
        &self,
        engine: &StorageEngine,
        request: &proto::ScanRequest,
        now: i64,
    ) -> (response: proto::ScanResponse)
        requires
            key_le(request.start_key@, request.end_key@),
        ensures
            wire_pairs(response.pairs@) == sent_pairs(
                at_most(
                    scanned(engine.rows(), request.start_key@, request.end_key@, now),
                    scan_limit(request.limit),
                ),
            ),
    {
        let limit = if request.limit == 0 {
            DEFAULT_SCAN_LIMIT
        } else {
            request.limit as usize
        };
        let results = engine.scan_at(
            request.start_key.as_str(),
            request.end_key.as_str(),
            limit,
            now,
        );
        let ghost rows = rows_in(results@);
        let mut pairs: Vec<proto::KeyValue> = Vec::new();
        for item in it: results
            invariant
                it.seq() == results@,
                rows == rows_in(results@),
                wire_pairs(pairs@) == sent_pairs(rows.take(it.index())),
        {
            let ghost i = it.index();
            let ghost before = pairs@;
            let (key, v) = item;
            assert(rows[i] == (key@, v@));
            let kv = proto::KeyValue {
                key,
                value: v.value,
                vector_clock: Some(vc_to_proto(&v.vector_clock)),
            };
            let ghost sent_row = WirePair {
                key: rows[i].0,
                value: rows[i].1.value,
                clock: Some(rows[i].1.clock),
            };
            pairs.push(kv);
            assert(wire_pairs(pairs@) =~= wire_pairs(before).push(sent_row));
            assert(rows.take(i + 1) =~= rows.take(i).push(rows[i]));
            assert(sent_pairs(rows.take(i + 1)) =~= sent_pairs(rows.take(i)).push(sent_row));
        }
        assert(rows.take(rows.len() as int) =~= rows);
        proto::ScanResponse { pairs }
    }
}

/// The service between the nodes.
pub struct InternalServiceImpl {}

/// Whether a write on this node is the deletion of a key at a time.
pub open spec fn is_deletion(
    before: &StorageEngine,
    key: Seq<char>,
    now: i64,
    write: PendingWrite,
) -> bool {
    &&& write.entry@ == record(
        (before.last() + 1) as u64,
        key,
        tomb(before.settings().node_id@, clock_at(before@, key), now),
    )
    &&& !write.may_flush
}

/// Whether a write on this node stores a version under a key.
pub open spec fn is_store(
    before: &StorageEngine,
    key: Seq<char>,
    value: Version,
    write: PendingWrite,
) -> bool {
    &&& write.entry@ == record((before.last() + 1) as u64, key, value)
    &&& write.may_flush
}

/// Whether an engine is as before but for a count of newly numbered entries.
pub open spec fn numbered(before: &StorageEngine, after: &StorageEngine, entries: nat) -> bool {
    &&& after.last() == before.last() + entries
    &&& after@ == before@
    &&& after.rows() == before.rows()
    &&& after.same_setup(before)
}

impl InternalServiceImpl {
    /// The service between the nodes.
    pub fn new() -> (service: Self)
        ensures
            service == (InternalServiceImpl {  }),
    {
        InternalServiceImpl {  }
    }

    /// A write for another node, first step: it is missing a value, or there is
    /// an entry to log and commit.
    pub fn replicate(
        &self,
        engine: &mut StorageEngine,
        request: proto::ReplicateRequest,
    ) -> (write: Result<PendingWrite, Status>)
        requires
            request.value is Some && !request.is_delete ==> old(engine).last() < u64::MAX,
            request.value is Some && request.is_delete ==> old(engine).deletable(request.key@),
        ensures
            exists|now: i64|
                now >= 0 && clock_reading(now) && #[trigger] replicate_decided(
                    old(engine),
                    final(engine),
                    request,
                    now,
                    write,
                ),
    {
        let now = now_ms();
        self.replicate_at(engine, request, now)
    }

    /// A write for another node, first step, at a given time.
    pub fn replicate_at(
        &self,
        engine: &mut StorageEngine,
        request: proto::ReplicateRequest,
        now: i64,
    ) -> (write: Result<PendingWrite, Status>)
        requires
            request.value is Some && !request.is_delete ==> old(engine).last() < u64::MAX,
            request.value is Some && request.is_delete ==> old(engine).deletable(request.key@),
        ensures
            replicate_decided(old(engine), final(engine), request, now, write),
    {
        match request.value {
            None => Err(Status::InvalidArgument("missing value".to_string())),
            Some(value) => {
                let versioned = value_from_proto(value);
                if request.is_delete {
                    Ok(engine.delete_at(request.key.as_str(), now))
                } else {
                    Ok(engine.put(request.key, versioned))
                }
            },
        }
    }

    /// A write for another node, last step: the answer, from how the write
    /// went.
    pub fn replicate_reply(
        &self,
        written: Result<(), String>,
    ) -> (reply: Result<proto::ReplicateResponse, Status>)
        ensures
            match written {
                Ok(_) => reply matches Ok(response) && response.success,
                Err(text) => reply matches Err(status) && status@ == Failure::Internal(text@),
            },
    {
        match written {
            Ok(_) => Ok(proto::ReplicateResponse { success: true }),
            Err(text) => Err(Status::Internal(text)),
        }
    }

    /// What this node has stored under a key.
    pub fn get_internal(
        &self,
        engine: &StorageEngine,
        request: &proto::GetInternalRequest,
    ) -> (response: proto::GetInternalResponse)
        ensures
            match stored(engine@, request.key@) {
                Some(v) => response.found && (response.value matches Some(p) && p@ == sent(v)),
                None => !response.found && response.value is None,
            },
    {
        match engine.get_raw(request.key.as_str()) {
            Some(val) => proto::GetInternalResponse {
                found: true,
                value: Some(value_to_proto(&val)),
            },
            None => proto::GetInternalResponse { found: false, value: None },
        }
    }

    /// A deletion for another node, first step.
    pub fn delete_internal(
        &self,
        engine: &mut StorageEngine,
        request: &proto::DeleteInternalRequest,
    ) -> (write: PendingWrite)
        requires
            old(engine).deletable(request.key@),
        ensures
            exists|now: i64|
                now >= 0 && clock_reading(now)
                    && #[trigger] is_deletion(old(engine), request.key@, now, write),
            numbered(old(engine), final(engine), 1),
    {
        let now = now_ms();
        self.delete_internal_at(engine, request, now)
    }

    /// A deletion for another node, first step, at a given time.
    pub fn delete_internal_at(
        &self,
        engine: &mut StorageEngine,
        request: &proto::DeleteInternalRequest,
        now: i64,
    ) -> (write: PendingWrite)
        requires
            old(engine).deletable(request.key@),
        ensures
            is_deletion(old(engine), request.key@, now, write),
            numbered(old(engine), final(engine), 1),
    {
        engine.delete_at(request.key.as_str(), now)
    }

    /// A deletion for another node, last step: the answer, from how the
    /// deletion went.
    pub fn delete_reply(
        &self,
        written: Result<(), String>,
    ) -> (reply: Result<proto::DeleteInternalResponse, Status>)
        ensures
            match written {
                Ok(_) => reply matches Ok(response) && response.success,
                Err(text) => reply matches Err(status) && status@ == Failure::Internal(text@),
            },
    {
        match written {
            Ok(_) => Ok(proto::DeleteInternalResponse { success: true }),
            Err(text) => Err(Status::Internal(text)),
        }
    }

    /// A gossip message: the answer is what this node then knows.
    pub fn gossip(
        &self,
        gossip: &mut GossipService,
        ring: &mut HashRing,
        message: &proto::GossipMessage,
        now_ns: u64,
    ) -> (ack: proto::GossipAck)
        ensures
            final(gossip)@ == heard(
                old(gossip)@,
                old(gossip).own_id(),
                reports(message.nodes@),
                now_ns,
            ),
            listed_by_id(final(gossip).rows()),
            final(gossip).same_node(old(gossip)),
            final(ring)@ == ring_heard(
                old(ring)@,
                old(ring).vnodes() as nat,
                old(gossip)@,
                old(gossip).own_id(),
                reports(message.nodes@),
                now_ns,
            ),
            final(ring).well_formed(),
            final(ring).vnodes() == old(ring).vnodes(),
            final(ring).factor() == old(ring).factor(),
            reports(ack.nodes@) == told(final(gossip).rows()),
    {
        let nodes = gossip.handle_gossip(ring, message, now_ns);
        proto::GossipAck { nodes }
    }

    /// One of the writes that this node missed, first step: it has no value and
    /// is passed over, or there is an entry to log and commit.
    pub fn hinted_handoff(
        &self,
        engine: &mut StorageEngine,
        hint: proto::Hint,
    ) -> (write: Option<PendingWrite>)
        requires
            hint.value is Some && !hint.is_delete ==> old(engine).last() < u64::MAX,
            hint.value is Some && hint.is_delete ==> old(engine).deletable(hint.key@),
        ensures
            exists|now: i64|
                now >= 0 && clock_reading(now) && #[trigger] hint_decided(
                    old(engine),
                    final(engine),
                    hint,
                    now,
                    write,
                ),
    {
        let now = now_ms();
        self.hinted_handoff_at(engine, hint, now)
    }

    /// One of the writes that this node missed, first step, at a given time.
    pub fn hinted_handoff_at(
        &self,
        engine: &mut StorageEngine,
        hint: proto::Hint,
        now: i64,
    ) -> (write: Option<PendingWrite>)
        requires
            hint.value is Some && !hint.is_delete ==> old(engine).last() < u64::MAX,
            hint.value is Some && hint.is_delete ==> old(engine).deletable(hint.key@),
        ensures
            hint_decided(old(engine), final(engine), hint, now, write),
    {
        match hint.value {
            None => None,
            Some(value) => {
                let versioned = value_from_proto(value);
                if hint.is_delete {
                    Some(engine.delete_at(hint.key.as_str(), now))
                } else {
                    Some(engine.put(hint.key, versioned))
                }
            },
        }
    }

    /// The writes that this node missed, last step: how many were taken over,
    /// from how the write of each went.
    pub fn handoff_reply(&self, written: &Vec<bool>) -> (response: proto::HandoffResponse)
        requires
            written@.len() <= u32::MAX,
        ensures
            response.accepted == outcomes(None, written@, true),
    {
        let (accepted, _) = tally(None, written);
        proto::HandoffResponse { accepted }
    }

    /// A pair that this node is to hold, first step: it is stored as of now and
    /// without a time to live.
    pub fn transfer_keys(
        &self,
        engine: &mut StorageEngine,
        pair: proto::KeyValue,
    ) -> (write: PendingWrite)
        requires
            old(engine).last() < u64::MAX,
        ensures
            exists|now: i64|
                now >= 0 && clock_reading(now) && is_store(
                    old(engine),
                    pair.key@,
                    #[trigger] handed_over(pair.value@, clock_in(pair.vector_clock), now),
                    write,
                ),
            numbered(old(engine), final(engine), 1),
    {
        let now = now_ms();
        self.transfer_keys_at(engine, pair, now)
    }

    /// A pair that this node is to hold, first step, at a given time.
    pub fn transfer_keys_at(
        &self,
        engine: &mut StorageEngine,
        pair: proto::KeyValue,
        now: i64,
    ) -> (write: PendingWrite)
        requires
            old(engine).last() < u64::MAX,
        ensures
            is_store(
                old(engine),
                pair.key@,
                handed_over(pair.value@, clock_in(pair.vector_clock), now),
                write,
            ),
            numbered(old(engine), final(engine), 1),
    {
        let vector_clock = match pair.vector_clock {
            Some(clock) => vc_from_proto(clock),
            None => VectorClock::new(),
        };
        let versioned = VersionedValue {
            value: pair.value,
            vector_clock,
            timestamp_ms: now,
            ttl_ms: 0,
            deleted: false,
        };
        engine.put(pair.key, versioned)
    }

    /// The pairs that this node is to hold, last step: how many were taken
    /// over, from how the write of each went.
    pub fn transfer_reply(&self, written: &Vec<bool>) -> (response: proto::TransferResponse)
        requires
            written@.len() <= u32::MAX,
        ensures
            response.accepted == outcomes(None, written@, true),
    {
        let (accepted, _) = tally(None, written);
        proto::TransferResponse { accepted }
    }
}

/// What the first step of a write for another node decides.
pub open spec fn replicate_decided(
    before: &StorageEngine,
    after: &StorageEngine,
    request: proto::ReplicateRequest,
    now: i64,
    write: Result<PendingWrite, Status>,
) -> bool {
    match request.value {
        None => {
            &&& write matches Err(status) && status@ == Failure::InvalidArgument("missing value"@)
            &&& numbered(before, after, 0)
        },
        Some(value) => {
            &&& write matches Ok(write) && if request.is_delete {
                is_deletion(before, request.key@, now, write)
            } else {
                is_store(before, request.key@, received(value@), write)
            }
            &&& numbered(before, after, 1)
        },
    }
}

/// What the first step of a write that this node missed decides.
pub open spec fn hint_decided(
    before: &StorageEngine,
    after: &StorageEngine,
    hint: proto::Hint,
    now: i64,
    write: Option<PendingWrite>,
) -> bool {
    match hint.value {
        None => {
            &&& write is None
            &&& numbered(before, after, 0)
        },
        Some(value) => {
            &&& write matches Some(write) && if hint.is_delete {
                is_deletion(before, hint.key@, now, write)
            } else {
                is_store(before, hint.key@, received(value@), write)
            }
            &&& numbered(before, after, 1)
        },
    }
}

} // verus!

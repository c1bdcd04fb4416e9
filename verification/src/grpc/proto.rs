//! The messages that clients and nodes exchange, as plain values.

use vstd::prelude::*;

use crate::str_map::StrMap;

verus! {

/// A vector clock on the wire.
#[derive(Debug)]
pub struct VectorClock {
    pub clocks: StrMap<u64>,
}

impl View for VectorClock {
    type V = Map<Seq<char>, u64>;

    open spec fn view(&self) -> Map<Seq<char>, u64> {
        self.clocks@
    }
}

/// What a value on the wire holds.
#[verifier::ext_equal]
pub struct WireVersion {
    pub value: Seq<u8>,
    pub clock: Option<Map<Seq<char>, u64>>,
    pub timestamp_ms: i64,
    pub ttl_ms: i64,
}

/// The clock of a message that may lack one.
pub open spec fn clock_in(clock: Option<VectorClock>) -> Option<Map<Seq<char>, u64>> {
    match clock {
        Some(clock) => Some(clock@),
        None => None,
    }
}

/// A versioned value on the wire. It does not tell a tombstone from a value.
#[derive(Debug)]
pub struct VersionedValue {
    pub value: Vec<u8>,
    pub vector_clock: Option<VectorClock>,
    pub timestamp_ms: i64,
    pub ttl_ms: i64,
}

impl View for VersionedValue {
    type V = WireVersion;

    open spec fn view(&self) -> WireVersion {
        WireVersion {
            value: self.value@,
            clock: clock_in(self.vector_clock),
            timestamp_ms: self.timestamp_ms,
            ttl_ms: self.ttl_ms,
        }
    }
}

/// Asks for the value of a key.
#[derive(Debug)]
pub struct GetRequest {
    pub key: String,
    /// 0 = the server's default
    pub read_quorum: u32,
}

/// The value of a key.
#[derive(Debug)]
pub struct GetResponse {
    pub found: bool,
    pub value: Vec<u8>,
    pub vector_clock: Option<VectorClock>,
}

/// Asks to set a key.
#[derive(Debug)]
pub struct PutRequest {
    pub key: String,
    pub value: Vec<u8>,
    pub ttl_ms: i64,
    /// 0 = the server's default
    pub write_quorum: u32,
    pub vector_clock: Option<VectorClock>,
}

/// Tells that a key was set, and with which clock.
#[derive(Debug)]
pub struct PutResponse {
    pub success: bool,
    pub vector_clock: Option<VectorClock>,
}

/// Asks to delete a key.
#[derive(Debug)]
pub struct DeleteRequest {
    pub key: String,
    /// 0 = the server's default
    pub write_quorum: u32,
}

/// Tells whether a key was deleted.
#[derive(Debug)]
pub struct DeleteResponse {
    pub success: bool,
}

/// Asks for the pairs of a range of keys.
#[derive(Debug)]
pub struct ScanRequest {
    pub start_key: String,
    pub end_key: String,
    /// 0 = the server's default
    pub limit: u32,
}

/// A key with its value.
#[derive(Debug)]
pub struct KeyValue {
    pub key: String,
    pub value: Vec<u8>,
    pub vector_clock: Option<VectorClock>,
}

/// The pairs of a range of keys.
#[derive(Debug)]
pub struct ScanResponse {
    pub pairs: Vec<KeyValue>,
}

/// Asks a replica to store a value or to delete it.
#[derive(Debug)]
pub struct ReplicateRequest {
    pub key: String,
    pub value: Option<VersionedValue>,
    pub is_delete: bool,
}

/// Tells that a replica did so.
#[derive(Debug)]
pub struct ReplicateResponse {
    pub success: bool,
}

/// Asks a replica for what it has stored under a key.
#[derive(Debug)]
pub struct GetInternalRequest {
    pub key: String,
}

/// What a replica has stored under a key.
#[derive(Debug)]
pub struct GetInternalResponse {
    pub found: bool,
    pub value: Option<VersionedValue>,
}

/// Asks a replica to delete a key.
#[derive(Debug)]
pub struct DeleteInternalRequest {
    pub key: String,
    pub vector_clock: Option<VectorClock>,
}

/// Tells that a replica did so.
#[derive(Debug)]
pub struct DeleteInternalResponse {
    pub success: bool,
}

/// The number of an alive node's status on the wire.
pub const STATUS_ALIVE: i32 = 0;

/// The number of a suspect node's status on the wire.
pub const STATUS_SUSPECT: i32 = 1;

/// The number of a dead node's status on the wire.
pub const STATUS_DEAD: i32 = 2;

/// What a state message says of a node.
#[verifier::ext_equal]
pub struct Report {
    pub node_id: Seq<char>,
    pub address: Seq<char>,
    pub status: i32,
    pub heartbeat: u64,
    pub generation: u64,
}

/// The state of a node as one node sees it.
#[derive(Debug)]
pub struct NodeState {
    pub node_id: String,
    pub address: String,
    pub status: i32,
    pub heartbeat: u64,
    pub generation: u64,
}

impl View for NodeState {
    type V = Report;

    open spec fn view(&self) -> Report {
        Report {
            node_id: self.node_id@,
            address: self.address@,
            status: self.status,
            heartbeat: self.heartbeat,
            generation: self.generation,
        }
    }
}

/// What state messages say, in order.
pub open spec fn reports(states: Seq<NodeState>) -> Seq<Report> {
    states.map_values(|state: NodeState| state@)
}

/// The states of all nodes as the sender sees them.
#[derive(Debug)]
pub struct GossipMessage {
    pub sender_id: String,
    pub nodes: Vec<NodeState>,
}

/// The states of all nodes as the receiver sees them.
#[derive(Debug)]
pub struct GossipAck {
    pub nodes: Vec<NodeState>,
}

/// A write that was meant for another node.
#[derive(Debug)]
pub struct Hint {
    pub key: String,
    pub value: Option<VersionedValue>,
    pub is_delete: bool,
}

/// Hands over the writes that a node missed.
#[derive(Debug)]
pub struct HandoffRequest {
    pub hints: Vec<Hint>,
}

/// How many of them were taken over.
#[derive(Debug)]
pub struct HandoffResponse {
    pub accepted: u32,
}

/// Hands over pairs to the node that is to hold them.
#[derive(Debug)]
pub struct TransferRequest {
    pub pairs: Vec<KeyValue>,
}

/// How many of them were taken over.
#[derive(Debug)]
pub struct TransferResponse {
    pub accepted: u32,
}

} // verus!

//! SWIM-style gossip: what a node knows of its peers, what it tells them, and
//! when it takes one for dead.
//!
//! Times are readings of a monotonic clock in nanoseconds.

use vstd::prelude::*;

use crate::gossip::chance::{lesser, pick, valid_picks};
use crate::grpc::proto;
use crate::grpc::proto::{reports, Report, STATUS_ALIVE, STATUS_DEAD, STATUS_SUSPECT};
use crate::ring::consistent_hash::{map_without, with_node, HashRing, Member, Node};
use crate::seqs::{lemma_filter_nothing, lemma_filter_step};
use crate::str_map::{
    as_map, is_position, keys_increase, lemma_as_map_at, lemma_as_map_take, lemma_views,
    lemma_views_with_pair, views, with_pair, StrMap,
};
use crate::text::{split, split_on, texts, trim, trimmed};

verus! {

/// Status of a node as seen by the gossip protocol.
#[derive(Clone, Copy, Debug, PartialEq, Eq, Structural)]
pub enum NodeStatus {
    Alive,
    Suspect,
    Dead,
}

/// The number of a status on the wire.
pub open spec fn wire_status(status: NodeStatus) -> i32 {
    match status {
        NodeStatus::Alive => STATUS_ALIVE,
        NodeStatus::Suspect => STATUS_SUSPECT,
        NodeStatus::Dead => STATUS_DEAD,
    }
}

/// The status that a number on the wire stands for; an unknown number stands
/// for an alive node.
pub open spec fn parsed_status(number: i32) -> NodeStatus {
    if number == STATUS_SUSPECT {
        NodeStatus::Suspect
    } else if number == STATUS_DEAD {
        NodeStatus::Dead
    } else {
        NodeStatus::Alive
    }
}

impl NodeStatus {
    /// The number of the status on the wire.
    pub fn to_wire(&self) -> (number: i32)
        ensures
            number == wire_status(*self),
    {
        match self {
            NodeStatus::Alive => STATUS_ALIVE,
            NodeStatus::Suspect => STATUS_SUSPECT,
            NodeStatus::Dead => STATUS_DEAD,
        }
    }

    /// The status that a number on the wire stands for.
    pub fn from_wire(number: i32) -> (status: NodeStatus)
        ensures
            status == parsed_status(number),
    {
        if number == STATUS_SUSPECT {
            NodeStatus::Suspect
        } else if number == STATUS_DEAD {
            NodeStatus::Dead
        } else {
            NodeStatus::Alive
        }
    }
}

/// What is known of a peer.
#[verifier::ext_equal]
pub struct Peer {
    pub node_id: Seq<char>,
    pub address: Seq<char>,
    pub status: NodeStatus,
    pub heartbeat: u64,
    pub generation: u64,
    pub last_seen_ns: u64,
}

/// State tracked for each peer node.
#[derive(Debug)]
pub struct PeerState {
    pub node_id: String,
    pub address: String,
    pub status: NodeStatus,
    pub heartbeat: u64,
    pub generation: u64,
    pub last_seen_ns: u64,
}

impl View for PeerState {
    type V = Peer;

    open spec fn view(&self) -> Peer {
        Peer {
            node_id: self.node_id@,
            address: self.address@,
            status: self.status,
            heartbeat: self.heartbeat,
            generation: self.generation,
            last_seen_ns: self.last_seen_ns,
        }
    }
}

impl Clone for PeerState {
    fn clone(&self) -> (copy: Self)
        ensures
            copy@ == self@,
    {
        PeerState {
            node_id: self.node_id.clone(),
            address: self.address.clone(),
            status: self.status,
            heartbeat: self.heartbeat,
            generation: self.generation,
            last_seen_ns: self.last_seen_ns,
        }
    }
}

/// What is known of the peers in a list.
pub open spec fn peers_of(list: Seq<PeerState>) -> Seq<Peer> {
    list.map_values(|peer: PeerState| peer@)
}

/// How often to gossip and how long to wait for peers, in nanoseconds.
#[derive(Clone, Copy, Debug, PartialEq, Eq, Structural)]
pub struct GossipConfig {
    pub gossip_interval_ns: u64,
    pub suspect_timeout_ns: u64,
    pub dead_timeout_ns: u64,
    /// number of peers to gossip with each round
    pub fanout: usize,
}

impl Default for GossipConfig {
    /// A round every second with three peers; a peer is suspect after five
    /// seconds and dead after fifteen.
    fn default() -> (config: Self)
        ensures
            config == (GossipConfig {
                gossip_interval_ns: 1_000_000_000,
                suspect_timeout_ns: 5_000_000_000,
                dead_timeout_ns: 15_000_000_000,
                fanout: 3,
            }),
    {
        GossipConfig {
            gossip_interval_ns: 1_000_000_000,
            suspect_timeout_ns: 5_000_000_000,
            dead_timeout_ns: 15_000_000_000,
            fanout: 3,
        }
    }
}

/// How often peers are checked for failures, in nanoseconds.
pub const FAILURE_CHECK_INTERVAL_NS: u64 = 1_000_000_000;

/// Whether a report is newer than what is known of the node.
pub open spec fn newer(report: Report, known: Peer) -> bool {
    report.generation > known.generation || (report.generation == known.generation
        && report.heartbeat > known.heartbeat)
}

/// Whether a node takes a report over: it is about another node, and that node
/// is unknown or the report is newer than what is known.
pub open spec fn accepts(peers: Map<Seq<char>, Peer>, own: Seq<char>, report: Report) -> bool {
    &&& report.node_id != own
    &&& peers.contains_key(report.node_id) ==> newer(report, peers[report.node_id])
}

/// What is known of a peer after a report on it was taken over.
pub open spec fn peer_from(report: Report, now_ns: u64) -> Peer {
    Peer {
        node_id: report.node_id,
        address: report.address,
        status: parsed_status(report.status),
        heartbeat: report.heartbeat,
        generation: report.generation,
        last_seen_ns: now_ns,
    }
}

/// What is known of the peers after reports, one after the other.
pub open spec fn heard(
    peers: Map<Seq<char>, Peer>,
    own: Seq<char>,
    news: Seq<Report>,
    now_ns: u64,
) -> Map<Seq<char>, Peer>
    decreases news.len(),
{
    if news.len() == 0 {
        peers
    } else {
        let before = heard(peers, own, news.drop_last(), now_ns);
        let report = news.last();
        if accepts(before, own, report) {
            before.insert(report.node_id, peer_from(report, now_ns))
        } else {
            before
        }
    }
}

/// The ring after reports, one after the other: a report that is taken over
/// adds an alive node to the ring and removes a dead one.
pub open spec fn ring_heard(
    ring: Map<u64, Member>,
    vnodes: nat,
    peers: Map<Seq<char>, Peer>,
    own: Seq<char>,
    news: Seq<Report>,
    now_ns: u64,
) -> Map<u64, Member>
    decreases news.len(),
{
    if news.len() == 0 {
        ring
    } else {
        let before = ring_heard(ring, vnodes, peers, own, news.drop_last(), now_ns);
        let report = news.last();
        if accepts(heard(peers, own, news.drop_last(), now_ns), own, report) {
            match parsed_status(report.status) {
                NodeStatus::Alive => with_node(
                    before,
                    Member { id: report.node_id, address: report.address },
                    vnodes,
                ),
                NodeStatus::Suspect => before,
                NodeStatus::Dead => map_without(before, report.node_id),
            }
        } else {
            before
        }
    }
}

/// What a node tells of a peer.
pub open spec fn report_of(peer: Peer) -> Report {
    Report {
        node_id: peer.node_id,
        address: peer.address,
        status: wire_status(peer.status),
        heartbeat: peer.heartbeat,
        generation: peer.generation,
    }
}

/// Whether each row is listed by the id of its peer.
pub open spec fn named_by_key(rows: Seq<(Seq<char>, Peer)>) -> bool {
    forall|i: int| 0 <= i < rows.len() ==> (#[trigger] rows[i]).1.node_id == rows[i].0
}

/// Whether peers are listed by their ids, in the order of these and each once.
pub open spec fn listed_by_id(rows: Seq<(Seq<char>, Peer)>) -> bool {
    keys_increase(rows) && named_by_key(rows)
}

/// What a node tells of its peers, in the order of their ids.
pub open spec fn told(rows: Seq<(Seq<char>, Peer)>) -> Seq<Report> {
    rows.map_values(|row: (Seq<char>, Peer)| report_of(row.1))
}

/// How much time has passed since a peer was last seen.
pub open spec fn unseen(peer: Peer, now_ns: u64) -> int {
    if now_ns > peer.last_seen_ns {
        now_ns - peer.last_seen_ns
    } else {
        0
    }
}

/// Whether a peer is taken for dead at a check.
pub open spec fn dies(peer: Peer, dead_timeout_ns: u64, now_ns: u64) -> bool {
    peer.status is Suspect && unseen(peer, now_ns) > dead_timeout_ns
}

/// What is known of a peer after a check: an alive one that was not seen for
/// too long is suspect, and a suspect one is dead.
pub open spec fn checked(
    peer: Peer,
    suspect_timeout_ns: u64,
    dead_timeout_ns: u64,
    now_ns: u64,
) -> Peer {
    if peer.status is Alive && unseen(peer, now_ns) > suspect_timeout_ns {
        Peer { status: NodeStatus::Suspect, ..peer }
    } else if dies(peer, dead_timeout_ns, now_ns) {
        Peer { status: NodeStatus::Dead, ..peer }
    } else {
        peer
    }
}

/// What is known of all peers after a check.
pub open spec fn all_checked(
    peers: Map<Seq<char>, Peer>,
    suspect_timeout_ns: u64,
    dead_timeout_ns: u64,
    now_ns: u64,
) -> Map<Seq<char>, Peer> {
    peers.map_values(|peer: Peer| checked(peer, suspect_timeout_ns, dead_timeout_ns, now_ns))
}

/// The ring without the peers that are taken for dead at a check.
pub open spec fn ring_checked(
    ring: Map<u64, Member>,
    peers: Map<Seq<char>, Peer>,
    dead_timeout_ns: u64,
    now_ns: u64,
) -> Map<u64, Member> {
    Map::new(
        |hash: u64|
            ring.contains_key(hash) && !(peers.contains_key(ring[hash].id) && dies(
                peers[ring[hash].id],
                dead_timeout_ns,
                now_ns,
            )),
        |hash: u64| ring[hash],
    )
}

/// The peers of a list of rows with a certain kind of status.
pub open spec fn peers_where(
    rows: Seq<(Seq<char>, Peer)>,
    keep: spec_fn(NodeStatus) -> bool,
) -> Seq<Peer> {
    rows.map_values(|row: (Seq<char>, Peer)| row.1).filter(|peer: Peer| keep(peer.status))
}

/// The peers that a node gossips with: those that it does not take for dead.
pub open spec fn candidates(rows: Seq<(Seq<char>, Peer)>) -> Seq<Peer> {
    peers_where(rows, |status: NodeStatus| !(status is Dead))
}

/// The elements of a list at given places.
pub open spec fn picked(list: Seq<Peer>, picks: Seq<usize>) -> Seq<Peer> {
    picks.map_values(|i: usize| list[i as int])
}

/// A gossip round: which peers get which message.
pub struct Round {
    pub targets: Vec<PeerState>,
    pub message: proto::GossipMessage,
}

/// SWIM-style gossip protocol for failure detection.
pub struct GossipService {
    node_id: String,
    peers: StrMap<PeerState>,
    heartbeat_counter: u64,
    generation: u64,
    config: GossipConfig,
}

impl View for GossipService {
    type V = Map<Seq<char>, Peer>;

    open spec fn view(&self) -> Map<Seq<char>, Peer> {
        as_map(self.rows())
    }
}

impl GossipService {
    /// What is known of the peers, in the order of their ids.
    pub closed spec fn rows(&self) -> Seq<(Seq<char>, Peer)> {
        views(self.peers.pairs())
    }

    /// The id of this node.
    pub closed spec fn own_id(&self) -> Seq<char> {
        self.node_id@
    }

    /// How many rounds this node has begun.
    pub closed spec fn beats(&self) -> u64 {
        self.heartbeat_counter
    }

    /// The generation of this node.
    pub closed spec fn own_generation(&self) -> u64 {
        self.generation
    }

    /// The configuration.
    pub closed spec fn settings(&self) -> GossipConfig {
        self.config
    }

    /// Whether nothing but what is known of the peers differs.
    pub open spec fn same_node(&self, other: &GossipService) -> bool {
        &&& self.own_id() == other.own_id()
        &&& self.beats() == other.beats()
        &&& self.own_generation() == other.own_generation()
        &&& self.settings() == other.settings()
    }

    /// What this node tells of itself.
    pub open spec fn own_report(&self) -> Report {
        Report {
            node_id: self.own_id(),
            address: Seq::empty(),
            status: STATUS_ALIVE,
            heartbeat: self.beats(),
            generation: self.own_generation(),
        }
    }

    #[verifier::type_invariant]
    closed spec fn named(&self) -> bool {
        named_by_key(self.rows())
    }

    /// Does nothing but recall that the peers are listed by their ids.
    fn recall_listing(&self)
        ensures
            listed_by_id(self.rows()),
    {
        self.peers.recall_order();
        proof {
            use_type_invariant(self);
            lemma_views(self.peers.pairs());
        }
    }

    /// A node that knows no peers yet. It puts itself on the ring.
    pub fn new(
        node_id: String,
        address: String,
        ring: &mut HashRing,
        config: GossipConfig,
    ) -> (gossip: Self)
        ensures
            gossip@ == Map::<Seq<char>, Peer>::empty(),
            gossip.rows() == Seq::<(Seq<char>, Peer)>::empty(),
            listed_by_id(gossip.rows()),
            gossip.own_id() == node_id@,
            gossip.beats() == 0,
            gossip.own_generation() == 1,
            gossip.settings() == config,
            final(ring)@ == with_node(
                old(ring)@,
                Member { id: node_id@, address: address@ },
                old(ring).vnodes() as nat,
            ),
            final(ring).well_formed(),
            final(ring).vnodes() == old(ring).vnodes(),
            final(ring).factor() == old(ring).factor(),
    {
        ring.add_node(Node { id: node_id.clone(), address });
        let peers: StrMap<PeerState> = StrMap::new();
        assert(views(peers.pairs()) =~= Seq::empty());
        let gossip = GossipService {
            node_id,
            peers,
            heartbeat_counter: 0,
            generation: 1,
            config,
        };
        assert(gossip@ =~= Map::empty());
        gossip
    }

    /// Remember what is known of a peer.
    fn remember(&mut self, peer: PeerState)
        ensures
            final(self)@ == old(self)@.insert(peer.node_id@, peer@),
            listed_by_id(final(self).rows()),
            final(self).same_node(old(self)),
    {
        proof {
            use_type_invariant(&*self);
        }
        let mut peers: StrMap<PeerState> = StrMap::new();
        std::mem::swap(&mut peers, &mut self.peers);
        let at = peers.position(peer.node_id.as_str());
        peers.recall_order();
        let ghost pairs = peers.pairs();
        let ghost key = peer.node_id@;
        proof {
            lemma_views_with_pair(pairs, at as int, key, peer);
            lemma_named_with_pair(views(pairs), at as int, key, peer@);
        }
        peers.insert(peer.node_id.clone(), peer);
        self.peers = peers;
    }

    /// Register a seed peer (used at startup to bootstrap).
    pub fn add_seed(&mut self, ring: &mut HashRing, node_id: String, address: String, now_ns: u64)
        ensures
            final(self)@ == old(self)@.insert(
                node_id@,
                Peer {
                    node_id: node_id@,
                    address: address@,
                    status: NodeStatus::Alive,
                    heartbeat: 0,
                    generation: 0,
                    last_seen_ns: now_ns,
                },
            ),
            listed_by_id(final(self).rows()),
            final(self).same_node(old(self)),
            final(ring)@ == with_node(
                old(ring)@,
                Member { id: node_id@, address: address@ },
                old(ring).vnodes() as nat,
            ),
            final(ring).well_formed(),
            final(ring).vnodes() == old(ring).vnodes(),
            final(ring).factor() == old(ring).factor(),
    {
        self.remember(
            PeerState {
                node_id: node_id.clone(),
                address: address.clone(),
                status: NodeStatus::Alive,
                heartbeat: 0,
                generation: 0,
                last_seen_ns: now_ns,
            },
        );
        ring.add_node(Node { id: node_id, address });
    }

    /// Process an incoming gossip message and return our state.
    pub fn handle_gossip(
        &mut self,
        ring: &mut HashRing,
        msg: &proto::GossipMessage,
        now_ns: u64,
    ) -> (states: Vec<proto::NodeState>)
        ensures
            final(self)@ == heard(old(self)@, old(self).own_id(), reports(msg.nodes@), now_ns),
            listed_by_id(final(self).rows()),
            final(self).same_node(old(self)),
            final(ring)@ == ring_heard(
                old(ring)@,
                old(ring).vnodes() as nat,
                old(self)@,
                old(self).own_id(),
                reports(msg.nodes@),
                now_ns,
            ),
            final(ring).well_formed(),
            final(ring).vnodes() == old(ring).vnodes(),
            final(ring).factor() == old(ring).factor(),
            reports(states@) == told(final(self).rows()),
    {
        let ghost news = reports(msg.nodes@);
        let ghost own = self.own_id();
        let ghost before = self@;
        let ghost first = ring@;
        let ghost vnodes = ring.vnodes();
        let mut i: usize = 0;
        self.recall_listing();
        ring.recall_order();
        assert(news.take(0) =~= Seq::empty());
        while i < msg.nodes.len()
            invariant
                i <= msg.nodes@.len(),
                news == reports(msg.nodes@),
                self@ == heard(before, own, news.take(i as int), now_ns),
                listed_by_id(self.rows()),
                self.same_node(old(self)),
                own == old(self).own_id(),
                ring@ == ring_heard(
                    first,
                    vnodes as nat,
                    before,
                    own,
                    news.take(i as int),
                    now_ns,
                ),
                ring.well_formed(),
                ring.vnodes() == vnodes,
                ring.factor() == old(ring).factor(),
            decreases msg.nodes@.len() - i,
        {
            let node_state = &msg.nodes[i];
            let ghost report = news[i as int];
            assert(report == node_state@);
            assert(news.take(i + 1).drop_last() =~= news.take(i as int));
            let should_update = self.should_update(node_state);
            if should_update && node_state.node_id != self.node_id {
                let status = NodeStatus::from_wire(node_state.status);
                match status {
                    NodeStatus::Dead => {
                        ring.remove_node(node_state.node_id.as_str());
                    },
                    NodeStatus::Alive => {
                        ring.add_node(
                            Node {
                                id: node_state.node_id.clone(),
                                address: node_state.address.clone(),
                            },
                        );
                    },
                    NodeStatus::Suspect => {},
                }
                self.remember(
                    PeerState {
                        node_id: node_state.node_id.clone(),
                        address: node_state.address.clone(),
                        status,
                        heartbeat: node_state.heartbeat,
                        generation: node_state.generation,
                        last_seen_ns: now_ns,
                    },
                );
            }
            i = i + 1;
        }
        assert(news.take(news.len() as int) =~= news);
        self.build_node_states()
    }

    /// Whether a report is on an unknown node or newer than what is known.
    fn should_update(&self, node_state: &proto::NodeState) -> (yes: bool)
        ensures
            yes == (self@.contains_key(node_state.node_id@) ==> newer(
                node_state@,
                self@[node_state.node_id@],
            )),
    {
        self.peers.recall_order();
        proof {
            lemma_views(self.peers.pairs());
        }
        match self.peers.get(node_state.node_id.as_str()) {
            None => true,
            Some(existing) => {
                node_state.generation > existing.generation || (node_state.generation
                    == existing.generation && node_state.heartbeat > existing.heartbeat)
            },
        }
    }

    /// Begin a gossip round: count a heartbeat, pick random peers and say what
    /// to send to them. There is no round where no peer is left.
    pub fn gossip_round(&mut self) -> (round: Option<Round>)
        ensures
            final(self)@ == old(self)@,
            final(self).rows() == old(self).rows(),
            listed_by_id(final(self).rows()),
            final(self).own_id() == old(self).own_id(),
            final(self).own_generation() == old(self).own_generation(),
            final(self).settings() == old(self).settings(),
            final(self).beats() == if old(self).beats() == u64::MAX {
                0
            } else {
                (old(self).beats() + 1) as u64
            },
            round is None <==> candidates(old(self).rows()).len() == 0,
            round matches Some(round) ==> final(self).sends(round.message) && exists|
                picks: Seq<usize>,
            | #[trigger]
                valid_picks(
                    picks,
                    candidates(old(self).rows()).len(),
                    lesser(
                        old(self).settings().fanout as nat,
                        candidates(old(self).rows()).len(),
                    ),
                ) && peers_of(round.targets@) == picked(candidates(old(self).rows()), picks),
    {
        let ghost before = *self;
        let peers = self.begin_round();
        let n = peers.len();
        assert(peers_of(peers@).len() == n);
        if n == 0 {
            return None;
        }
        let picks = pick(n, self.config.fanout);
        assert(n as nat == candidates(before.rows()).len());
        Some(self.round_with(&peers, &picks))
    }

    /// Begin a gossip round: count a heartbeat and list the peers to choose
    /// from.
    pub fn begin_round(&mut self) -> (peers: Vec<PeerState>)
        ensures
            final(self)@ == old(self)@,
            final(self).rows() == old(self).rows(),
            listed_by_id(final(self).rows()),
            final(self).own_id() == old(self).own_id(),
            final(self).own_generation() == old(self).own_generation(),
            final(self).settings() == old(self).settings(),
            final(self).beats() == if old(self).beats() == u64::MAX {
                0
            } else {
                (old(self).beats() + 1) as u64
            },
            peers_of(peers@) == candidates(old(self).rows()),
    {
        proof {
            use_type_invariant(&*self);
        }
        self.recall_listing();
        self.heartbeat_counter = self.heartbeat_counter.wrapping_add(1);
        self.select(false)
    }

    /// A gossip round with the peers at given places of a list.
    pub fn round_with(&self, peers: &Vec<PeerState>, picks: &Vec<usize>) -> (round: Round)
        requires
            forall|i: int| 0 <= i < picks@.len() ==> (#[trigger] picks@[i]) < peers@.len(),
        ensures
            peers_of(round.targets@) == picked(peers_of(peers@), picks@),
            self.sends(round.message),
    {
        let mut targets: Vec<PeerState> = Vec::new();
        let mut i: usize = 0;
        while i < picks.len()
            invariant
                i <= picks@.len(),
                targets@.len() == i,
                forall|j: int| 0 <= j < picks@.len() ==> (#[trigger] picks@[j]) < peers@.len(),
                forall|j: int|
                    0 <= j < i ==> (#[trigger] targets@[j])@ == peers@[picks@[j] as int]@,
            decreases picks@.len() - i,
        {
            targets.push(peers[picks[i]].clone());
            i = i + 1;
        }
        assert(peers_of(targets@) =~= picked(peers_of(peers@), picks@));
        Round { targets, message: self.build_gossip_message() }
    }

    /// The peers that are alive, or those that are not dead.
    fn select(&self, only_alive: bool) -> (list: Vec<PeerState>)
        ensures
            only_alive ==> peers_of(list@) == peers_where(
                self.rows(),
                |status: NodeStatus| status is Alive,
            ),
            !only_alive ==> peers_of(list@) == candidates(self.rows()),
    {
        let ghost wanted = if only_alive {
            |status: NodeStatus| status is Alive
        } else {
            |status: NodeStatus| !(status is Dead)
        };
        let ghost keep = |peer: Peer| wanted(peer.status);
        let ghost all = self.rows().map_values(|row: (Seq<char>, Peer)| row.1);
        let n = self.peers.len();
        let mut list: Vec<PeerState> = Vec::new();
        let mut i: usize = 0;
        proof {
            lemma_filter_nothing(all.take(0), keep);
            assert(peers_of(list@) =~= all.take(0).filter(keep));
        }
        while i < n
            invariant
                i <= n,
                n == self.peers.pairs().len(),
                all == views(self.peers.pairs()).map_values(|row: (Seq<char>, Peer)| row.1),
                wanted == if only_alive {
                    |status: NodeStatus| status is Alive
                } else {
                    |status: NodeStatus| !(status is Dead)
                },
                keep == (|peer: Peer| wanted(peer.status)),
                peers_of(list@) == all.take(i as int).filter(keep),
            decreases n - i,
        {
            let (_, peer) = self.peers.at(i);
            assert(all[i as int] == peer@);
            proof {
                lemma_filter_step(all, i as int, keep);
            }
            let ghost before = list@;
            let wanted_here = match peer.status {
                NodeStatus::Alive => true,
                NodeStatus::Suspect => !only_alive,
                NodeStatus::Dead => false,
            };
            if wanted_here {
                list.push(peer.clone());
                assert(peers_of(list@) =~= peers_of(before).push(peer@));
            }
            i = i + 1;
        }
        assert(all.take(n as int) =~= all);
        list
    }

    /// Check for peer failures based on timeouts.
    pub fn check_failures(
        &mut self,
        ring: &mut HashRing,
        suspect_timeout_ns: u64,
        dead_timeout_ns: u64,
        now_ns: u64,
    )
        ensures
            final(self)@ == all_checked(
                old(self)@,
                suspect_timeout_ns,
                dead_timeout_ns,
                now_ns,
            ),
            listed_by_id(final(self).rows()),
            final(self).same_node(old(self)),
            final(ring)@ == ring_checked(old(ring)@, old(self)@, dead_timeout_ns, now_ns),
            final(ring).well_formed(),
            final(ring).vnodes() == old(ring).vnodes(),
            final(ring).factor() == old(ring).factor(),
    {
        proof {
            use_type_invariant(&*self);
        }
        let ghost known = self@;
        let ghost first = ring@;
        let n = self.peers.len();
        let mut before: StrMap<PeerState> = StrMap::new();
        let mut after: StrMap<PeerState> = StrMap::new();
        std::mem::swap(&mut before, &mut self.peers);
        let ghost pairs = before.pairs();
        let ghost rows = views(pairs);
        proof {
            lemma_views(pairs);
            assert(rows.take(0) =~= Seq::empty());
            assert(as_map(rows.take(0)) =~= Map::empty());
            assert(views(after.pairs()) =~= Seq::empty());
            assert(as_map(views(after.pairs())) =~= all_checked(
                as_map(rows.take(0)),
                suspect_timeout_ns,
                dead_timeout_ns,
                now_ns,
            ));
            assert(first =~= ring_checked(first, as_map(rows.take(0)), dead_timeout_ns, now_ns));
        }
        ring.recall_order();
        let mut i: usize = 0;
        while i < n
            invariant
                i <= n,
                n == pairs.len(),
                pairs == before.pairs(),
                rows == views(pairs),
                keys_increase(rows),
                named_by_key(rows),
                named_by_key(views(after.pairs())),
                keys_increase(after.pairs()),
                as_map(views(after.pairs())) == all_checked(
                    as_map(rows.take(i as int)),
                    suspect_timeout_ns,
                    dead_timeout_ns,
                    now_ns,
                ),
                ring@ == ring_checked(
                    first,
                    as_map(rows.take(i as int)),
                    dead_timeout_ns,
                    now_ns,
                ),
                ring.well_formed(),
                ring.vnodes() == old(ring).vnodes(),
                ring.factor() == old(ring).factor(),
            decreases n - i,
        {
            let (key, found) = before.at(i);
            let mut peer = found.clone();
            let ghost row = rows[i as int];
            let ghost seen = as_map(rows.take(i as int));
            let ghost last = ring@;
            assert(row == (key@, found@));
            assert(row.1.node_id == row.0);
            proof {
                lemma_as_map_take(rows, i as int);
            }
            let elapsed: u64 = if now_ns > peer.last_seen_ns {
                now_ns - peer.last_seen_ns
            } else {
                0
            };
            match peer.status {
                NodeStatus::Alive => {
                    if elapsed > suspect_timeout_ns {
                        peer.status = NodeStatus::Suspect;
                    }
                },
                NodeStatus::Suspect => {
                    if elapsed > dead_timeout_ns {
                        peer.status = NodeStatus::Dead;
                        ring.remove_node(peer.node_id.as_str());
                    }
                },
                NodeStatus::Dead => {},
            }
            assert(peer@ == checked(row.1, suspect_timeout_ns, dead_timeout_ns, now_ns));
            let at = after.position(key.as_str());
            after.recall_order();
            let ghost done = after.pairs();
            proof {
                lemma_views_with_pair(done, at as int, key@, peer);
                lemma_named_with_pair(views(done), at as int, key@, peer@);
                lemma_as_map_at(rows, i as int);
                assert(ring@ =~= ring_checked(
                    first,
                    as_map(rows.take(i + 1)),
                    dead_timeout_ns,
                    now_ns,
                ));
            }
            after.insert(key.clone(), peer);
            assert(as_map(views(after.pairs())) =~= all_checked(
                as_map(rows.take(i + 1)),
                suspect_timeout_ns,
                dead_timeout_ns,
                now_ns,
            ));
            i = i + 1;
        }
        assert(rows.take(n as int) =~= rows);
        proof {
            lemma_views(after.pairs());
        }
        self.peers = after;
    }

    /// Whether a message is the one that this node sends: what it tells of its
    /// peers, then of itself.
    pub open spec fn sends(&self, message: proto::GossipMessage) -> bool {
        &&& message.sender_id@ == self.own_id()
        &&& reports(message.nodes@) == told(self.rows()).push(self.own_report())
    }

    /// The message that this node sends in a round.
    pub fn build_gossip_message(&self) -> (message: proto::GossipMessage)
        ensures
            self.sends(message),
            listed_by_id(self.rows()),
    {
        let mut nodes = self.build_node_states();
        let ghost before = nodes@;
        let own = proto::NodeState {
            node_id: self.node_id.clone(),
            address: String::new(),
            status: STATUS_ALIVE,
            heartbeat: self.heartbeat_counter,
            generation: self.generation,
        };
        nodes.push(own);
        assert(reports(nodes@) =~= reports(before).push(own@));
        proto::GossipMessage { sender_id: self.node_id.clone(), nodes }
    }

    /// What this node tells of its peers.
    pub fn build_node_states(&self) -> (states: Vec<proto::NodeState>)
        ensures
            reports(states@) == told(self.rows()),
            listed_by_id(self.rows()),
    {
        self.recall_listing();
        let n = self.peers.len();
        let mut states: Vec<proto::NodeState> = Vec::new();
        let mut i: usize = 0;
        while i < n
            invariant
                i <= n,
                n == self.peers.pairs().len(),
                states@.len() == i,
                forall|j: int|
                    0 <= j < i ==> (#[trigger] states@[j])@ == report_of(self.peers.pairs()[j].1@),
            decreases n - i,
        {
            let (_, peer) = self.peers.at(i);
            states.push(
                proto::NodeState {
                    node_id: peer.node_id.clone(),
                    address: peer.address.clone(),
                    status: peer.status.to_wire(),
                    heartbeat: peer.heartbeat,
                    generation: peer.generation,
                },
            );
            i = i + 1;
        }
        assert(reports(states@) =~= told(self.rows()));
        states
    }

    /// Get all alive peers.
    pub fn alive_peers(&self) -> (list: Vec<PeerState>)
        ensures
            peers_of(list@) == peers_where(self.rows(), |status: NodeStatus| status is Alive),
            listed_by_id(self.rows()),
    {
        self.recall_listing();
        self.select(true)
    }

    /// Get status of a specific peer.
    pub fn peer_status(&self, node_id: &str) -> (status: Option<NodeStatus>)
        ensures
            status == if self@.contains_key(node_id@) {
                Some(self@[node_id@].status)
            } else {
                None
            },
    {
        self.peers.recall_order();
        proof {
            lemma_views(self.peers.pairs());
        }
        match self.peers.get(node_id) {
            Some(peer) => Some(peer.status),
            None => None,
        }
    }

    /// The id of this node.
    pub fn node_id(&self) -> (id: &str)
        ensures
            id@ == self.own_id(),
    {
        self.node_id.as_str()
    }

    /// The configuration.
    pub fn config(&self) -> (config: GossipConfig)
        ensures
            config == self.settings(),
    {
        self.config
    }
}

/// Setting a row by the id of its peer keeps the rows listed by id.
proof fn lemma_named_with_pair(
    rows: Seq<(Seq<char>, Peer)>,
    at: int,
    key: Seq<char>,
    peer: Peer,
)
    requires
        named_by_key(rows),
        is_position(rows, key, at),
        peer.node_id == key,
    ensures
        named_by_key(with_pair(rows, at, key, peer)),
{
    let next = with_pair(rows, at, key, peer);
    let present = at < rows.len() && rows[at].0 == key;
    assert forall|i: int| 0 <= i < next.len() implies (#[trigger] next[i]).1.node_id
        == next[i].0 by {
        if i < at || (i > at && present) {
            assert(next[i] == rows[i]);
        } else if i > at {
            assert(next[i] == rows[i - 1]);
        }
    }
}

/// The seeds that a list names: each part between commas that has just one
/// equals sign names one, with the id before the sign and the address after
/// it, both without white space around them.
pub open spec fn seeds(list: Seq<char>) -> Seq<(Seq<char>, Seq<char>)> {
    named_seeds(split(list, ','))
}

/// The seeds that some parts name.
pub open spec fn named_seeds(parts: Seq<Seq<char>>) -> Seq<(Seq<char>, Seq<char>)>
    decreases parts.len(),
{
    if parts.len() == 0 {
        Seq::empty()
    } else {
        let before = named_seeds(parts.drop_last());
        let sides = split(parts.last(), '=');
        if sides.len() == 2 {
            before.push((trimmed(sides[0]), trimmed(sides[1])))
        } else {
            before
        }
    }
}

/// Pairs of strings by their texts.
pub open spec fn text_pairs(list: Seq<(String, String)>) -> Seq<(Seq<char>, Seq<char>)> {
    list.map_values(|pair: (String, String)| (pair.0@, pair.1@))
}

/// The seed nodes in a list such as `id=addr,id=addr`.
pub fn parse_seeds(list: &str) -> (found: Vec<(String, String)>)
    ensures
        text_pairs(found@) == seeds(list@),
{
    let parts = split_on(list, ',');
    let ghost all = texts(parts@);
    let mut found: Vec<(String, String)> = Vec::new();
    let mut i: usize = 0;
    assert(all.take(0) =~= Seq::empty());
    assert(text_pairs(found@) =~= named_seeds(all.take(0)));
    while i < parts.len()
        invariant
            i <= parts@.len(),
            all == texts(parts@),
            text_pairs(found@) == named_seeds(all.take(i as int)),
        decreases parts@.len() - i,
    {
        assert(all[i as int] == parts@[i as int]@);
        assert(all.take(i + 1).drop_last() =~= all.take(i as int));
        let sides = split_on(parts[i].as_str(), '=');
        assert(texts(sides@).len() == sides@.len());
        if sides.len() == 2 {
            let ghost before = found@;
            assert(texts(sides@)[0] == sides@[0]@ && texts(sides@)[1] == sides@[1]@);
            let pair = (trim(sides[0].as_str()).to_string(), trim(sides[1].as_str()).to_string());
            found.push(pair);
            assert(text_pairs(found@) =~= text_pairs(before).push((pair.0@, pair.1@)));
        }
        i = i + 1;
    }
    assert(all.take(all.len() as int) =~= all);
    found
}

} // verus!

//! What holds of gossip and failure detection across several operations.

use vstd::prelude::*;

use crate::gossip::chance::{lesser, valid_picks};
use crate::gossip::detector::{
    accepts, all_checked, candidates, checked, dies, heard, listed_by_id, named_by_key, named_seeds,
    newer, parsed_status, peer_from, peers_of, peers_where, picked, report_of, ring_checked,
    ring_heard, seeds, text_pairs, told, unseen, wire_status, GossipService, NodeStatus, Peer,
    PeerState, FAILURE_CHECK_INTERVAL_NS,
};
use crate::grpc::proto::{reports, GossipMessage, NodeState, Report};
use crate::ring::consistent_hash::{map_without, with_node, Member};
use crate::seqs::{lemma_filter_no_duplicates, lemma_filter_source};
use crate::str_map::{as_map, lemma_as_map_at};
use crate::text::{key_lt, lemma_key_lt_antisymmetric, split, trimmed};
use crate::text_laws::law_splitting_undoes_joining;

verus! {

/// A status comes through the wire as it was.
pub proof fn law_status_round_trip(status: NodeStatus)
    ensures
        parsed_status(wire_status(status)) == status,
{
}

/// Whether what is known of a node is at least as new as a report.
pub open spec fn up_to_date(peers: Map<Seq<char>, Peer>, report: Report) -> bool {
    peers.contains_key(report.node_id) && !newer(report, peers[report.node_id])
}

/// What a node knows of another never gets older: a peer stays known, and its
/// generation and heartbeat never go back.
pub proof fn law_knowledge_never_gets_older(
    peers: Map<Seq<char>, Peer>,
    own: Seq<char>,
    news: Seq<Report>,
    now_ns: u64,
    id: Seq<char>,
)
    requires
        peers.contains_key(id),
    ensures
        ({
            let after = heard(peers, own, news, now_ns);
            &&& after.contains_key(id)
            &&& after[id].generation > peers[id].generation || (after[id].generation
                == peers[id].generation && after[id].heartbeat >= peers[id].heartbeat)
        }),
    decreases news.len(),
{
    if news.len() > 0 {
        law_knowledge_never_gets_older(peers, own, news.drop_last(), now_ns, id);
    }
}

/// Reports on a node itself change nothing that it knows.
pub proof fn law_reports_on_itself_are_ignored(
    peers: Map<Seq<char>, Peer>,
    own: Seq<char>,
    news: Seq<Report>,
    now_ns: u64,
)
    ensures
        heard(peers, own, news, now_ns).contains_key(own) == peers.contains_key(own),
        peers.contains_key(own) ==> heard(peers, own, news, now_ns)[own] == peers[own],
    decreases news.len(),
{
    if news.len() > 0 {
        law_reports_on_itself_are_ignored(peers, own, news.drop_last(), now_ns);
    }
}

/// A report that is not newer than what is known changes nothing.
pub proof fn law_stale_report_changes_nothing(
    peers: Map<Seq<char>, Peer>,
    ring: Map<u64, Member>,
    vnodes: nat,
    own: Seq<char>,
    report: Report,
    now_ns: u64,
)
    requires
        up_to_date(peers, report),
    ensures
        heard(peers, own, seq![report], now_ns) == peers,
        ring_heard(ring, vnodes, peers, own, seq![report], now_ns) == ring,
{
    let news = seq![report];
    assert(news.drop_last() =~= Seq::empty());
    reveal_with_fuel(heard, 2);
    reveal_with_fuel(ring_heard, 2);
}

/// A report on an unknown node, or a newer one, is taken over as it is.
pub proof fn law_newer_report_is_taken_over(
    peers: Map<Seq<char>, Peer>,
    own: Seq<char>,
    report: Report,
    now_ns: u64,
)
    requires
        report.node_id != own,
        !up_to_date(peers, report),
    ensures
        heard(peers, own, seq![report], now_ns) == peers.insert(
            report.node_id,
            peer_from(report, now_ns),
        ),
        report_of(peer_from(report, now_ns)).heartbeat == report.heartbeat,
        report_of(peer_from(report, now_ns)).generation == report.generation,
        report_of(peer_from(report, now_ns)).address == report.address,
{
    let news = seq![report];
    assert(news.drop_last() =~= Seq::empty());
    reveal_with_fuel(heard, 2);
}

/// After a message, what is known is at least as new as every report in it on
/// another node.
pub proof fn law_message_is_heard(
    peers: Map<Seq<char>, Peer>,
    own: Seq<char>,
    news: Seq<Report>,
    now_ns: u64,
    i: int,
)
    requires
        0 <= i < news.len(),
        news[i].node_id != own,
    ensures
        up_to_date(heard(peers, own, news, now_ns), news[i]),
    decreases news.len(),
{
    let init = news.drop_last();
    if i < init.len() {
        law_message_is_heard(peers, own, init, now_ns, i);
        assert(init[i] == news[i]);
    }
}

/// Reports that are all known leave everything as it is.
proof fn lemma_known_news(
    peers: Map<Seq<char>, Peer>,
    ring: Map<u64, Member>,
    vnodes: nat,
    own: Seq<char>,
    news: Seq<Report>,
    now_ns: u64,
)
    requires
        forall|i: int|
            0 <= i < news.len() ==> (#[trigger] news[i]).node_id == own || up_to_date(
                peers,
                news[i],
            ),
    ensures
        heard(peers, own, news, now_ns) == peers,
        ring_heard(ring, vnodes, peers, own, news, now_ns) == ring,
    decreases news.len(),
{
    if news.len() > 0 {
        let init = news.drop_last();
        assert forall|i: int| 0 <= i < init.len() implies (#[trigger] init[i]).node_id == own
            || up_to_date(peers, init[i]) by {
            assert(init[i] == news[i]);
        }
        lemma_known_news(peers, ring, vnodes, own, init, now_ns);
        assert(news[news.len() - 1] == news.last());
    }
}

/// Hearing a message a second time changes nothing, neither what is known nor
/// the ring.
pub proof fn law_hearing_twice_is_hearing_once(
    peers: Map<Seq<char>, Peer>,
    ring: Map<u64, Member>,
    vnodes: nat,
    own: Seq<char>,
    news: Seq<Report>,
    now_ns: u64,
    later_ns: u64,
)
    ensures
        ({
            let known = heard(peers, own, news, now_ns);
            &&& heard(known, own, news, later_ns) == known
            &&& ring_heard(
                ring_heard(ring, vnodes, peers, own, news, now_ns),
                vnodes,
                known,
                own,
                news,
                later_ns,
            ) == ring_heard(ring, vnodes, peers, own, news, now_ns)
        }),
{
    let known = heard(peers, own, news, now_ns);
    assert forall|i: int| 0 <= i < news.len() implies (#[trigger] news[i]).node_id == own
        || up_to_date(known, news[i]) by {
        if news[i].node_id != own {
            law_message_is_heard(peers, own, news, now_ns, i);
        }
    }
    lemma_known_news(
        known,
        ring_heard(ring, vnodes, peers, own, news, now_ns),
        vnodes,
        own,
        news,
        later_ns,
    );
}

/// A report of an alive node puts it on the ring with the reported address; a
/// report of a dead one takes it off.
pub proof fn law_ring_follows_reports(
    peers: Map<Seq<char>, Peer>,
    ring: Map<u64, Member>,
    vnodes: nat,
    own: Seq<char>,
    report: Report,
    now_ns: u64,
)
    requires
        accepts(peers, own, report),
    ensures
        ({
            let after = ring_heard(ring, vnodes, peers, own, seq![report], now_ns);
            &&& parsed_status(report.status) is Alive ==> after == with_node(
                ring,
                Member { id: report.node_id, address: report.address },
                vnodes,
            )
            &&& parsed_status(report.status) is Suspect ==> after == ring
            &&& parsed_status(report.status) is Dead ==> after == map_without(ring, report.node_id)
        }),
{
    let news = seq![report];
    assert(news.drop_last() =~= Seq::empty());
    reveal_with_fuel(ring_heard, 2);
    reveal_with_fuel(heard, 2);
}

/// What a node tells of its peers has one state for each peer that it knows,
/// with what it knows of it, and none for others.
pub proof fn law_each_peer_is_told_of_once(rows: Seq<(Seq<char>, Peer)>, id: Seq<char>)
    requires
        listed_by_id(rows),
    ensures
        forall|i: int, j: int| #![trigger told(rows)[i], told(rows)[j]]
            0 <= i < j < told(rows).len() ==> told(rows)[i].node_id != told(rows)[j].node_id,
        forall|i: int|
            0 <= i < told(rows).len() ==> as_map(rows).contains_key(
                (#[trigger] told(rows)[i]).node_id,
            ) && told(rows)[i] == report_of(as_map(rows)[told(rows)[i].node_id]),
        as_map(rows).contains_key(id) <==> exists|i: int|
            0 <= i < told(rows).len() && (#[trigger] told(rows)[i]).node_id == id,
{
    let list = told(rows);
    assert forall|i: int, j: int| #![trigger list[i], list[j]]
        0 <= i < j < list.len() implies list[i].node_id != list[j].node_id by {
        assert(key_lt(rows[i].0, rows[j].0));
        lemma_key_lt_antisymmetric(rows[i].0, rows[j].0);
    }
    assert forall|i: int| 0 <= i < list.len() implies as_map(rows).contains_key(
        (#[trigger] list[i]).node_id,
    ) && list[i] == report_of(as_map(rows)[list[i].node_id]) by {
        lemma_as_map_at(rows, i);
        assert(rows[i].1.node_id == rows[i].0);
    }
    if as_map(rows).contains_key(id) {
        let i = choose|i: int| 0 <= i < rows.len() && #[trigger] rows[i].0 == id;
        assert(rows[i].1.node_id == rows[i].0);
        assert(list[i].node_id == id);
    }
}

/// The answer to a message tells nothing of the node that gives it, where that
/// is not among its own peers.
pub proof fn law_answer_is_silent_on_itself(
    peers: Map<Seq<char>, Peer>,
    own: Seq<char>,
    news: Seq<Report>,
    now_ns: u64,
    rows: Seq<(Seq<char>, Peer)>,
    i: int,
)
    requires
        !peers.contains_key(own),
        listed_by_id(rows),
        as_map(rows) == heard(peers, own, news, now_ns),
        0 <= i < told(rows).len(),
    ensures
        told(rows)[i].node_id != own,
{
    law_reports_on_itself_are_ignored(peers, own, news, now_ns);
    law_each_peer_is_told_of_once(rows, own);
    assert(as_map(rows).contains_key(told(rows)[i].node_id));
}

/// The candidates of a round are the known peers that are not dead, each once.
pub proof fn law_candidates_differ(rows: Seq<(Seq<char>, Peer)>)
    requires
        listed_by_id(rows),
    ensures
        forall|i: int, j: int| #![trigger candidates(rows)[i], candidates(rows)[j]]
            0 <= i < j < candidates(rows).len() ==> candidates(rows)[i].node_id != candidates(
                rows,
            )[j].node_id,
        forall|i: int|
            0 <= i < candidates(rows).len() ==> ({
                let peer = #[trigger] candidates(rows)[i];
                &&& as_map(rows).contains_key(peer.node_id)
                &&& as_map(rows)[peer.node_id] == peer
                &&& !(peer.status is Dead)
            }),
{
    let all = rows.map_values(|row: (Seq<char>, Peer)| row.1);
    let keep = |peer: Peer| (|status: NodeStatus| !(status is Dead))(peer.status);
    let list = candidates(rows);
    assert(list == all.filter(keep));
    assert forall|i: int| 0 <= i < list.len() implies ({
        let peer = #[trigger] list[i];
        &&& as_map(rows).contains_key(peer.node_id)
        &&& as_map(rows)[peer.node_id] == peer
        &&& !(peer.status is Dead)
    }) by {
        lemma_filter_source(all, keep, i);
        let k = choose|k: int| 0 <= k < all.len() && all[k] == list[i];
        lemma_as_map_at(rows, k);
        assert(rows[k].1.node_id == rows[k].0);
    }
    assert(all.no_duplicates()) by {
        assert forall|i: int, j: int| 0 <= i < all.len() && 0 <= j < all.len() && i
            != j implies all[i] != all[j] by {
            lemma_rows_differ(rows, i, j);
        }
    }
    lemma_filter_no_duplicates(all, keep);
    assert forall|i: int, j: int| #![trigger list[i], list[j]]
        0 <= i < j < list.len() implies list[i].node_id != list[j].node_id by {
        assert(as_map(rows)[list[i].node_id] == list[i]);
        assert(as_map(rows)[list[j].node_id] == list[j]);
        assert(list[i] != list[j]);
    }
}

/// Rows at different places are of different peers.
proof fn lemma_rows_differ(rows: Seq<(Seq<char>, Peer)>, i: int, j: int)
    requires
        listed_by_id(rows),
        0 <= i < rows.len(),
        0 <= j < rows.len(),
        i != j,
    ensures
        rows[i].1 != rows[j].1,
{
    assert(rows[i].1.node_id == rows[i].0);
    assert(rows[j].1.node_id == rows[j].0);
    if i < j {
        lemma_key_lt_antisymmetric(rows[i].0, rows[j].0);
    } else {
        lemma_key_lt_antisymmetric(rows[j].0, rows[i].0);
    }
}

/// The targets of a round are different peers, and none of them is dead.
pub proof fn law_targets_differ(rows: Seq<(Seq<char>, Peer)>, picks: Seq<usize>, amount: nat)
    requires
        listed_by_id(rows),
        valid_picks(picks, candidates(rows).len(), amount),
    ensures
        ({
            let targets = picked(candidates(rows), picks);
            &&& targets.len() == amount
            &&& forall|i: int, j: int| #![trigger targets[i], targets[j]]
                0 <= i < j < targets.len() ==> targets[i].node_id != targets[j].node_id
            &&& forall|i: int|
                0 <= i < targets.len() ==> !((#[trigger] targets[i]).status is Dead)
        }),
{
    let list = candidates(rows);
    let targets = picked(list, picks);
    law_candidates_differ(rows);
    assert forall|i: int, j: int| #![trigger targets[i], targets[j]]
        0 <= i < j < targets.len() implies targets[i].node_id != targets[j].node_id by {
        let (p, q) = (picks[i] as int, picks[j] as int);
        assert(p != q);
        if p < q {
            assert(list[p].node_id != list[q].node_id);
        } else {
            assert(list[q].node_id != list[p].node_id);
        }
    }
    assert forall|i: int| 0 <= i < targets.len() implies !((
    #[trigger] targets[i]).status is Dead) by {
        assert(targets[i] == list[picks[i] as int]);
    }
}

/// A check takes a peer one step at most from alive over suspect to dead, and
/// back in no case; it changes nothing else of it.
pub proof fn law_check_takes_one_step(
    peer: Peer,
    suspect_timeout_ns: u64,
    dead_timeout_ns: u64,
    now_ns: u64,
)
    ensures
        ({
            let after = checked(peer, suspect_timeout_ns, dead_timeout_ns, now_ns);
            &&& after == (Peer { status: after.status, ..peer })
            &&& peer.status is Alive ==> !(after.status is Dead)
            &&& peer.status is Suspect ==> !(after.status is Alive)
            &&& peer.status is Dead ==> after.status is Dead
            &&& peer.status is Alive && after.status is Suspect <==> peer.status is Alive
                && unseen(peer, now_ns) > suspect_timeout_ns
            &&& peer.status is Suspect && after.status is Dead <==> peer.status is Suspect
                && unseen(peer, now_ns) > dead_timeout_ns
        }),
{
}

/// A peer that was seen within both timeouts keeps its status and its place on
/// the ring.
pub proof fn law_recently_seen_peer_is_kept(
    ring: Map<u64, Member>,
    peers: Map<Seq<char>, Peer>,
    suspect_timeout_ns: u64,
    dead_timeout_ns: u64,
    now_ns: u64,
    id: Seq<char>,
    hash: u64,
)
    requires
        peers.contains_key(id),
        unseen(peers[id], now_ns) <= suspect_timeout_ns,
        unseen(peers[id], now_ns) <= dead_timeout_ns,
        ring.contains_key(hash),
        ring[hash].id == id,
    ensures
        all_checked(peers, suspect_timeout_ns, dead_timeout_ns, now_ns)[id] == peers[id],
        ring_checked(ring, peers, dead_timeout_ns, now_ns).contains_key(hash),
        ring_checked(ring, peers, dead_timeout_ns, now_ns)[hash] == ring[hash],
{
}

/// A peer that a check takes for dead is off the ring after it, and the nodes
/// that it does not take for dead keep their positions.
pub proof fn law_dead_peer_is_off_the_ring(
    ring: Map<u64, Member>,
    peers: Map<Seq<char>, Peer>,
    suspect_timeout_ns: u64,
    dead_timeout_ns: u64,
    now_ns: u64,
    id: Seq<char>,
    hash: u64,
)
    requires
        ring.contains_key(hash),
        ring[hash].id == id,
    ensures
        ({
            let died = peers.contains_key(id) && peers[id].status is Suspect && all_checked(
                peers,
                suspect_timeout_ns,
                dead_timeout_ns,
                now_ns,
            )[id].status is Dead;
            ring_checked(ring, peers, dead_timeout_ns, now_ns).contains_key(hash) <==> !died
        }),
{
    if peers.contains_key(id) {
        law_check_takes_one_step(peers[id], suspect_timeout_ns, dead_timeout_ns, now_ns);
    }
}

/// A silent peer is dead after two checks past the timeouts.
pub proof fn law_silent_peer_dies(
    peer: Peer,
    suspect_timeout_ns: u64,
    dead_timeout_ns: u64,
    first_ns: u64,
    second_ns: u64,
)
    requires
        unseen(peer, first_ns) > suspect_timeout_ns,
        unseen(peer, second_ns) > dead_timeout_ns,
    ensures
        checked(
            checked(peer, suspect_timeout_ns, dead_timeout_ns, first_ns),
            suspect_timeout_ns,
            dead_timeout_ns,
            second_ns,
        ).status is Dead,
        dies(peer, dead_timeout_ns, first_ns) ==> checked(
            peer,
            suspect_timeout_ns,
            dead_timeout_ns,
            first_ns,
        ).status is Dead,
{
}

/// On the wire an alive node is 0, a suspect one 1 and a dead one 2; every
/// other number stands for an alive one. Peers are checked every second.
pub proof fn law_statuses_are_numbered(status: NodeStatus, number: i32)
    ensures
        wire_status(status) == match status {
            NodeStatus::Alive => 0i32,
            NodeStatus::Suspect => 1i32,
            NodeStatus::Dead => 2i32,
        },
        parsed_status(number) is Suspect <==> number == 1,
        parsed_status(number) is Dead <==> number == 2,
        parsed_status(number) is Alive <==> number != 1 && number != 2,
        FAILURE_CHECK_INTERVAL_NS == 1000 * 1000 * 1000,
{
}

/// A report is newer than what is known just if its generation is higher, or
/// the same with a higher heartbeat; a node takes a report over just if it is
/// about another node and new to it.
pub proof fn law_newer_goes_by_generation_and_heartbeat(
    peers: Map<Seq<char>, Peer>,
    own: Seq<char>,
    report: Report,
    known: Peer,
)
    ensures
        newer(report, known) <==> report.generation > known.generation || (report.generation
            == known.generation && report.heartbeat > known.heartbeat),
        accepts(peers, own, report) <==> report.node_id != own && (!peers.contains_key(
            report.node_id,
        ) || report.generation > peers[report.node_id].generation || (report.generation
            == peers[report.node_id].generation && report.heartbeat
            > peers[report.node_id].heartbeat)),
        up_to_date(peers, report) <==> peers.contains_key(report.node_id) && (report.generation
            < peers[report.node_id].generation || (report.generation
            == peers[report.node_id].generation && report.heartbeat
            <= peers[report.node_id].heartbeat)),
{
}

/// What is taken over from a report is all that it says, and that its node was
/// seen just now; what is told of a peer is all that is known but for when it
/// was seen.
pub proof fn law_reports_are_taken_over_and_passed_on(report: Report, peer: Peer, now_ns: u64)
    ensures
        ({
            let p = peer_from(report, now_ns);
            &&& p.node_id == report.node_id
            &&& p.address == report.address
            &&& p.heartbeat == report.heartbeat
            &&& p.generation == report.generation
            &&& p.last_seen_ns == now_ns
            &&& p.status == parsed_status(report.status)
        }),
        ({
            let r = report_of(peer);
            &&& r.node_id == peer.node_id
            &&& r.address == peer.address
            &&& r.heartbeat == peer.heartbeat
            &&& r.generation == peer.generation
            &&& r.status == wire_status(peer.status)
        }),
{
}

/// Hearing one more report changes what is known just of its node, and only
/// where it is about another node and new: a higher generation, or the same
/// with a higher heartbeat. Hearing nothing changes nothing.
pub proof fn law_hearing_goes_report_by_report(
    peers: Map<Seq<char>, Peer>,
    own: Seq<char>,
    news: Seq<Report>,
    report: Report,
    now_ns: u64,
    id: Seq<char>,
)
    ensures
        heard(peers, own, Seq::empty(), now_ns) == peers,
        ({
            let before = heard(peers, own, news, now_ns);
            let after = heard(peers, own, news.push(report), now_ns);
            let new = report.node_id != own && (!before.contains_key(report.node_id)
                || report.generation > before[report.node_id].generation || (report.generation
                == before[report.node_id].generation && report.heartbeat
                > before[report.node_id].heartbeat));
            &&& !new ==> after == before
            &&& new ==> after.contains_key(report.node_id) && after[report.node_id]
                == peer_from(report, now_ns)
            &&& id != report.node_id ==> after.contains_key(id) == before.contains_key(id)
            &&& id != report.node_id && before.contains_key(id) ==> after[id] == before[id]
        }),
{
    assert(news.push(report).drop_last() =~= news);
}

/// Hearing one more report changes the ring only where the report is taken
/// over: an alive node then has the positions of its virtual nodes with the
/// reported address, a dead one has none, and a suspect one keeps what it has.
pub proof fn law_ring_goes_report_by_report(
    ring: Map<u64, Member>,
    vnodes: nat,
    peers: Map<Seq<char>, Peer>,
    own: Seq<char>,
    news: Seq<Report>,
    report: Report,
    now_ns: u64,
)
    ensures
        ring_heard(ring, vnodes, peers, own, Seq::empty(), now_ns) == ring,
        ({
            let known = heard(peers, own, news, now_ns);
            let before = ring_heard(ring, vnodes, peers, own, news, now_ns);
            let after = ring_heard(ring, vnodes, peers, own, news.push(report), now_ns);
            let new = report.node_id != own && (!known.contains_key(report.node_id)
                || report.generation > known[report.node_id].generation || (report.generation
                == known[report.node_id].generation && report.heartbeat
                > known[report.node_id].heartbeat));
            &&& !new || report.status == 1 ==> after == before
            &&& new && report.status == 2 ==> after == map_without(before, report.node_id)
            &&& new && report.status != 1 && report.status != 2 ==> after == with_node(
                before,
                Member { id: report.node_id, address: report.address },
                vnodes,
            )
        }),
{
    assert(news.push(report).drop_last() =~= news);
}

/// Peers are listed by their ids just if the ids increase and each row is named
/// by its peer.
pub proof fn law_peers_are_listed_by_their_ids(rows: Seq<(Seq<char>, Peer)>)
    ensures
        listed_by_id(rows) <==> {
            &&& forall|i: int, j: int| #![trigger rows[i], rows[j]]
                0 <= i < j < rows.len() ==> key_lt(rows[i].0, rows[j].0)
            &&& forall|i: int| 0 <= i < rows.len() ==> (#[trigger] rows[i]).1.node_id == rows[i].0
        },
        named_by_key(rows) <==> forall|i: int|
            0 <= i < rows.len() ==> (#[trigger] rows[i]).1.node_id == rows[i].0,
{
}

/// What a node tells of its peers is one state for each, in the order of their
/// ids, with the peer's id, address, status, heartbeat and generation.
pub proof fn law_each_peer_is_told_of_as_known(rows: Seq<(Seq<char>, Peer)>, i: int)
    ensures
        told(rows).len() == rows.len(),
        0 <= i < rows.len() ==> {
            &&& told(rows)[i].node_id == rows[i].1.node_id
            &&& told(rows)[i].address == rows[i].1.address
            &&& told(rows)[i].status == wire_status(rows[i].1.status)
            &&& told(rows)[i].heartbeat == rows[i].1.heartbeat
            &&& told(rows)[i].generation == rows[i].1.generation
        },
{
}

/// The time that a peer is unseen is the time between the reading at which it
/// was last seen and the present one, whatever else is known of it.
pub proof fn law_unseen_is_the_time_since_last_seen(peer: Peer, now_ns: u64)
    ensures
        now_ns >= peer.last_seen_ns ==> unseen(peer, now_ns) == now_ns - peer.last_seen_ns,
        now_ns < peer.last_seen_ns ==> unseen(peer, now_ns) == 0,
{
}

/// A check goes by the clock readings alone: an alive peer that was last seen
/// more than the suspect timeout ago is suspect after it, a suspect one that
/// was last seen more than the dead timeout ago is dead after it, and every
/// other peer is as it was.
pub proof fn law_check_goes_by_the_clock(
    peers: Map<Seq<char>, Peer>,
    suspect_timeout_ns: u64,
    dead_timeout_ns: u64,
    now_ns: u64,
    id: Seq<char>,
)
    ensures
        ({
            let after = all_checked(peers, suspect_timeout_ns, dead_timeout_ns, now_ns);
            &&& after.contains_key(id) == peers.contains_key(id)
            &&& peers.contains_key(id) ==> {
                let (p, q) = (peers[id], after[id]);
                &&& q.status == if p.status is Alive && now_ns - p.last_seen_ns
                    > suspect_timeout_ns {
                    NodeStatus::Suspect
                } else if p.status is Suspect && now_ns - p.last_seen_ns > dead_timeout_ns {
                    NodeStatus::Dead
                } else {
                    p.status
                }
                &&& q.node_id == p.node_id
                &&& q.address == p.address
                &&& q.heartbeat == p.heartbeat
                &&& q.generation == p.generation
                &&& q.last_seen_ns == p.last_seen_ns
                &&& q == checked(p, suspect_timeout_ns, dead_timeout_ns, now_ns)
                &&& dies(p, dead_timeout_ns, now_ns) <==> p.status is Suspect && now_ns
                    - p.last_seen_ns > dead_timeout_ns
            }
        }),
{
}

/// A check takes the positions of just those nodes off the ring that are
/// suspect peers and were last seen more than the dead timeout ago.
pub proof fn law_check_takes_dead_peers_off_the_ring(
    ring: Map<u64, Member>,
    peers: Map<Seq<char>, Peer>,
    dead_timeout_ns: u64,
    now_ns: u64,
    hash: u64,
)
    ensures
        ({
            let after = ring_checked(ring, peers, dead_timeout_ns, now_ns);
            let gone = peers.contains_key(ring[hash].id) && peers[ring[hash].id].status is Suspect
                && now_ns - peers[ring[hash].id].last_seen_ns > dead_timeout_ns;
            &&& after.contains_key(hash) <==> ring.contains_key(hash) && !gone
            &&& after.contains_key(hash) ==> after[hash] == ring[hash]
        }),
{
}

/// A peer that is heard of and then silent is suspect at the first check after
/// the suspect timeout and dead and off the ring at the next one after the dead
/// timeout, whatever was heard of it.
pub proof fn law_peer_that_falls_silent_dies(
    peers: Map<Seq<char>, Peer>,
    ring: Map<u64, Member>,
    own: Seq<char>,
    report: Report,
    suspect_timeout_ns: u64,
    dead_timeout_ns: u64,
    heard_ns: u64,
    first_ns: u64,
    second_ns: u64,
    hash: u64,
)
    requires
        report.node_id != own,
        !peers.contains_key(report.node_id),
        report.status == 0,
        first_ns - heard_ns > suspect_timeout_ns,
        second_ns - heard_ns > dead_timeout_ns,
        ring.contains_key(hash),
        ring[hash].id == report.node_id,
    ensures
        ({
            let known = heard(peers, own, seq![report], heard_ns);
            let once = all_checked(known, suspect_timeout_ns, dead_timeout_ns, first_ns);
            let twice = all_checked(once, suspect_timeout_ns, dead_timeout_ns, second_ns);
            &&& once[report.node_id].status is Suspect
            &&& twice[report.node_id].status is Dead
            &&& !ring_checked(ring, once, dead_timeout_ns, second_ns).contains_key(hash)
        }),
{
    let known = heard(peers, own, seq![report], heard_ns);
    law_hearing_goes_report_by_report(
        peers,
        own,
        Seq::empty(),
        report,
        heard_ns,
        report.node_id,
    );
    assert(Seq::<Report>::empty().push(report) =~= seq![report]);
    assert(known[report.node_id] == peer_from(report, heard_ns));
}

/// The candidates of a round are the peers that are not dead, and the alive
/// peers those that are alive, each in its place in the order of the ids.
pub proof fn law_peers_are_chosen_by_status(
    rows: Seq<(Seq<char>, Peer)>,
    row: (Seq<char>, Peer),
    keep: spec_fn(NodeStatus) -> bool,
)
    ensures
        candidates(Seq::empty()) == Seq::<Peer>::empty(),
        row.1.status is Dead ==> candidates(rows.push(row)) == candidates(rows),
        !(row.1.status is Dead) ==> candidates(rows.push(row)) == candidates(rows).push(row.1),
        peers_where(Seq::empty(), keep) == Seq::<Peer>::empty(),
        keep(row.1.status) ==> peers_where(rows.push(row), keep) == peers_where(rows, keep).push(
            row.1,
        ),
        !keep(row.1.status) ==> peers_where(rows.push(row), keep) == peers_where(rows, keep),
{
    lemma_chosen(rows, row, keep);
    lemma_chosen(rows, row, |status: NodeStatus| !(status is Dead));
}

/// One row more adds its peer where its status is wanted.
proof fn lemma_chosen(
    rows: Seq<(Seq<char>, Peer)>,
    row: (Seq<char>, Peer),
    keep: spec_fn(NodeStatus) -> bool,
)
    ensures
        peers_where(Seq::empty(), keep) == Seq::<Peer>::empty(),
        peers_where(rows.push(row), keep) == if keep(row.1.status) {
            peers_where(rows, keep).push(row.1)
        } else {
            peers_where(rows, keep)
        },
{
    reveal(Seq::filter);
    let name = |row: (Seq<char>, Peer)| row.1;
    let none = Seq::<(Seq<char>, Peer)>::empty();
    assert(none.map_values(name) =~= Seq::<Peer>::empty());
    assert(rows.push(row).map_values(name) =~= rows.map_values(name).push(row.1));
    assert(rows.map_values(name).push(row.1).drop_last() =~= rows.map_values(name));
}

/// What is picked from a list are the elements at the picked places; picks are
/// valid just if they are as many as asked for, all within the list, and no two
/// the same.
pub proof fn law_picks_are_places_of_the_list(
    list: Seq<Peer>,
    picks: Seq<usize>,
    n: nat,
    amount: nat,
    i: int,
)
    ensures
        picked(list, picks).len() == picks.len(),
        0 <= i < picks.len() ==> picked(list, picks)[i] == list[picks[i] as int],
        valid_picks(picks, n, amount) <==> {
            &&& picks.len() == amount
            &&& forall|k: int| 0 <= k < picks.len() ==> (#[trigger] picks[k]) < n
            &&& forall|k: int, l: int| #![trigger picks[k], picks[l]]
                0 <= k < l < picks.len() ==> picks[k] != picks[l]
        },
        lesser(n, amount) <= n,
        lesser(n, amount) <= amount,
        lesser(n, amount) == n || lesser(n, amount) == amount,
{
    if forall|k: int, l: int| #![trigger picks[k], picks[l]]
        0 <= k < l < picks.len() ==> picks[k] != picks[l] {
        assert(picks.no_duplicates());
    }
}

/// A node tells all that it knows of its peers and then of itself: its id, no
/// address, that it is alive, and its own heartbeat and generation. Two states
/// of a node are the same node if they agree in all that is its own.
pub proof fn law_message_tells_of_peers_and_self(
    gossip: GossipService,
    other: GossipService,
    message: GossipMessage,
)
    ensures
        gossip@ == as_map(gossip.rows()),
        gossip.sends(message) ==> {
            let n = gossip.rows().len();
            let own = message.nodes@[n as int];
            &&& message.sender_id@ == gossip.own_id()
            &&& message.nodes@.len() == n + 1
            &&& own.node_id@ == gossip.own_id()
            &&& own.address@.len() == 0
            &&& own.status == 0
            &&& own.heartbeat == gossip.beats()
            &&& own.generation == gossip.own_generation()
            &&& forall|i: int|
                0 <= i < n ==> {
                    &&& (#[trigger] message.nodes@[i]).node_id@ == gossip.rows()[i].1.node_id
                    &&& message.nodes@[i].address@ == gossip.rows()[i].1.address
                    &&& message.nodes@[i].status == wire_status(gossip.rows()[i].1.status)
                    &&& message.nodes@[i].heartbeat == gossip.rows()[i].1.heartbeat
                    &&& message.nodes@[i].generation == gossip.rows()[i].1.generation
                }
        },
        gossip.same_node(&other) <==> {
            &&& gossip.own_id() == other.own_id()
            &&& gossip.beats() == other.beats()
            &&& gossip.own_generation() == other.own_generation()
            &&& gossip.settings() == other.settings()
        },
{
    if gossip.sends(message) {
        let said = reports(message.nodes@);
        let n = gossip.rows().len();
        assert(said.len() == n + 1);
        assert(said[n as int] == gossip.own_report());
        assert(said[n as int] == message.nodes@[n as int]@);
        assert forall|i: int| 0 <= i < n implies {
            &&& (#[trigger] message.nodes@[i]).node_id@ == gossip.rows()[i].1.node_id
            &&& message.nodes@[i].address@ == gossip.rows()[i].1.address
            &&& message.nodes@[i].status == wire_status(gossip.rows()[i].1.status)
            &&& message.nodes@[i].heartbeat == gossip.rows()[i].1.heartbeat
            &&& message.nodes@[i].generation == gossip.rows()[i].1.generation
        } by {
            assert(said[i] == message.nodes@[i]@);
            assert(said[i] == told(gossip.rows())[i]);
        }
    }
}

/// States and peers are seen as they are, in order.
pub proof fn law_states_are_seen_as_they_are(
    state: NodeState,
    peer: PeerState,
    states: Seq<NodeState>,
    list: Seq<PeerState>,
    pairs: Seq<(String, String)>,
    i: int,
)
    ensures
        state@.node_id == state.node_id@,
        state@.address == state.address@,
        state@.status == state.status,
        state@.heartbeat == state.heartbeat,
        state@.generation == state.generation,
        peer@.node_id == peer.node_id@,
        peer@.address == peer.address@,
        peer@.status == peer.status,
        peer@.heartbeat == peer.heartbeat,
        peer@.generation == peer.generation,
        peer@.last_seen_ns == peer.last_seen_ns,
        reports(states).len() == states.len(),
        0 <= i < states.len() ==> reports(states)[i] == states[i]@,
        peers_of(list).len() == list.len(),
        0 <= i < list.len() ==> peers_of(list)[i] == list[i]@,
        text_pairs(pairs).len() == pairs.len(),
        0 <= i < pairs.len() ==> text_pairs(pairs)[i] == (pairs[i].0@, pairs[i].1@),
{
}

/// A seed list names the seeds of its parts between commas, in order: a part
/// that is an id, an equals sign and an address names that node, both without
/// white space around them; a part with no equals sign, or with several, names
/// none.
pub proof fn law_seed_list_names_its_parts(
    a: Seq<char>,
    b: Seq<char>,
    id: Seq<char>,
    address: Seq<char>,
    rest: Seq<char>,
)
    ensures
        seeds(a + seq![','] + b) == seeds(a) + seeds(b),
        !id.contains(',') && !id.contains('=') && !address.contains(',') && !address.contains('=')
            ==> seeds(id + seq!['='] + address) == seq![(trimmed(id), trimmed(address))],
        !id.contains(',') && !id.contains('=') ==> seeds(id).len() == 0,
        !id.contains(',') && !address.contains(',') && !rest.contains(',') ==> seeds(
            id + seq!['='] + address + seq!['='] + rest,
        ).len() == 0,
{
    law_splitting_undoes_joining(a, b, ',');
    lemma_named_joined(split(a, ','), split(b, ','));
    if !id.contains(',') && !id.contains('=') {
        law_splitting_undoes_joining(id, id, ',');
        law_splitting_undoes_joining(id, id, '=');
        lemma_named_one(id);
        if !address.contains(',') && !address.contains('=') {
            let part = id + seq!['='] + address;
            assert forall|i: int| 0 <= i < part.len() implies part[i] != ',' by {
                if i < id.len() {
                    assert(part[i] == id[i]);
                    assert(id.contains(id[i]));
                } else if i > id.len() {
                    assert(part[i] == address[i - id.len() - 1]);
                    assert(address.contains(address[i - id.len() - 1]));
                }
            }
            law_splitting_undoes_joining(part, part, ',');
            law_splitting_undoes_joining(id, address, '=');
            law_splitting_undoes_joining(address, address, '=');
            lemma_named_one(part);
            assert(split(part, '=') =~= seq![id, address]);
        }
    }
    if !id.contains(',') && !address.contains(',') && !rest.contains(',') {
        let part = id + seq!['='] + address + seq!['='] + rest;
        assert forall|i: int| 0 <= i < part.len() implies part[i] != ',' by {
            let n = id.len();
            let m = id.len() + 1 + address.len();
            if i < n {
                assert(part[i] == id[i]);
                assert(id.contains(id[i]));
            } else if n < i < m {
                assert(part[i] == address[i - n - 1]);
                assert(address.contains(address[i - n - 1]));
            } else if i > m {
                assert(part[i] == rest[i - m - 1]);
                assert(rest.contains(rest[i - m - 1]));
            }
        }
        law_splitting_undoes_joining(part, part, ',');
        law_splitting_undoes_joining(id + seq!['='] + address, rest, '=');
        law_splitting_undoes_joining(id, address, '=');
        law_splitting_undoes_joining(address, address, '=');
        law_splitting_undoes_joining(rest, rest, '=');
        lemma_named_one(part);
    }
}

/// The seeds of two lists of parts are those of the first and then of the second.
proof fn lemma_named_joined(a: Seq<Seq<char>>, b: Seq<Seq<char>>)
    ensures
        named_seeds(a + b) == named_seeds(a) + named_seeds(b),
    decreases b.len(),
{
    if b.len() == 0 {
        assert(a + b =~= a);
        assert(named_seeds(a) + named_seeds(b) =~= named_seeds(a));
    } else {
        assert((a + b).drop_last() =~= a + b.drop_last());
        lemma_named_joined(a, b.drop_last());
        assert(named_seeds(a + b) =~= named_seeds(a) + named_seeds(b));
    }
}

/// A part with one equals sign names a seed, and any other none.
proof fn lemma_named_one(part: Seq<char>)
    ensures
        named_seeds(seq![part]) == if split(part, '=').len() == 2 {
            seq![(trimmed(split(part, '=')[0]), trimmed(split(part, '=')[1]))]
        } else {
            Seq::empty()
        },
{
    assert(seq![part].drop_last() =~= Seq::<Seq<char>>::empty());
    reveal_with_fuel(named_seeds, 2);
    assert(named_seeds(seq![part]) =~= if split(part, '=').len() == 2 {
        seq![(trimmed(split(part, '=')[0]), trimmed(split(part, '=')[1]))]
    } else {
        Seq::empty()
    });
}

} // verus!

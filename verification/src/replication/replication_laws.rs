//! What holds of coordinated reads and writes across several operations.

use vstd::prelude::*;

use crate::grpc::proto;
use crate::grpc::proto::{clock_in, WireVersion};
use crate::replication::coordinator::{
    answered, is_outcome, others, outcomes, own_response, received, replicas, resolved, responses,
    sent, standing, versions, winner, DeletePlan, GetPlan, PutPlan, ReplicationCoordinator,
};
use crate::replication::quorum::{effective, law_strong_quorums_intersect, QuorumConfig};
use crate::ring::consistent_hash::{lists, nodes_of, preference, ring_hash, HashRing, Member};
use crate::ring::ring_laws::law_listed_nodes_have_the_id;
use crate::seqs::lemma_filter_source;
use crate::storage::engine::{overwriting, StorageEngine};
use crate::storage::memtable::{
    clock_after, clock_at, count, covers, expired, live, merged, stored, tomb, version_of, Version,
    VersionedValue,
};
use crate::storage::memtable_laws::{law_expiry_goes_by_the_clock, law_tombstone_is_after};
use crate::storage::wal::record;
use crate::wall_clock::clock_reading;

verus! {

/// A value that is not a tombstone comes through the wire as it was; a
/// tombstone comes through as a value of no bytes with its clock and times.
pub proof fn law_wire_round_trip(v: Version)
    ensures
        !v.deleted ==> received(sent(v)) == v,
        received(sent(v)) == (Version { deleted: false, ..v }),
{
}

/// A tombstone that another node sends counts, until it expires, as a value of
/// no bytes with the tombstone's clock and timestamp.
pub proof fn law_sent_tombstone_counts_as_an_empty_value(
    node: Seq<char>,
    clock: Map<Seq<char>, u64>,
    written: i64,
    now: i64,
)
    requires
        !expired(tomb(node, clock, written), now),
    ensures
        ({
            let arrived = received(sent(tomb(node, clock, written)));
            &&& arrived == (Version { deleted: false, ..tomb(node, clock, written) })
            &&& arrived.value.len() == 0
            &&& resolved(seq![Some(arrived)], now) == Some(arrived)
        }),
{
    let arrived = received(sent(tomb(node, clock, written)));
    assert(seq![Some(arrived)].drop_last() =~= Seq::empty());
    reveal_with_fuel(standing, 2);
}

/// The version that stands after all replies is one of those that have not
/// expired, and there is one just if there is an unexpired reply.
pub proof fn law_standing_version_is_a_reply(replies: Seq<Option<Version>>, now: i64)
    ensures
        standing(replies, now) matches Some(v) ==> !expired(v, now) && replies.contains(Some(v)),
        standing(replies, now) is None <==> forall|i: int|
            0 <= i < replies.len() ==> !((#[trigger] replies[i]) matches Some(v) && !expired(
                v,
                now,
            )),
    decreases replies.len(),
{
    if replies.len() > 0 {
        let init = replies.drop_last();
        law_standing_version_is_a_reply(init, now);
        let before = standing(init, now);
        if let Some(v) = before {
            let i = choose|i: int| 0 <= i < init.len() && init[i] == Some(v);
            assert(replies[i] == Some(v));
        }
        assert(replies[replies.len() - 1] == replies.last());
        if before is None {
            assert forall|i: int| 0 <= i < init.len() implies !((
            #[trigger] replies[i]) matches Some(v) && !expired(v, now)) by {
                assert(init[i] == replies[i]);
            }
        } else {
            let v = before->0;
            let i = choose|i: int| 0 <= i < init.len() && init[i] == Some(v);
            assert(replies[i] matches Some(w) && !expired(w, now));
        }
    }
}

/// The result of a read is one of the live replies; where no reply is live,
/// there is none.
pub proof fn law_result_is_a_live_reply(replies: Seq<Option<Version>>, now: i64)
    ensures
        resolved(replies, now) matches Some(v) ==> live(v, now) && replies.contains(Some(v)),
        (forall|i: int|
            0 <= i < replies.len() ==> !((#[trigger] replies[i]) matches Some(v) && live(v, now)))
            ==> resolved(replies, now) is None,
{
    law_standing_version_is_a_reply(replies, now);
    if let Some(v) = resolved(replies, now) {
        let i = choose|i: int| 0 <= i < replies.len() && replies[i] == Some(v);
        assert(replies[i] matches Some(w) && live(w, now));
    }
}

/// Without tombstones among the unexpired replies there is a result just if
/// there is a live reply.
pub proof fn law_live_replies_give_a_result(replies: Seq<Option<Version>>, now: i64)
    requires
        forall|i: int|
            0 <= i < replies.len() ==> ((#[trigger] replies[i]) matches Some(v) ==> !expired(v, now)
                ==> !v.deleted),
    ensures
        resolved(replies, now) == standing(replies, now),
        resolved(replies, now) is None <==> forall|i: int|
            0 <= i < replies.len() ==> !((#[trigger] replies[i]) matches Some(v) && live(v, now)),
{
    law_standing_version_is_a_reply(replies, now);
    if let Some(v) = standing(replies, now) {
        let i = choose|i: int| 0 <= i < replies.len() && replies[i] == Some(v);
        assert(replies[i] matches Some(w) && live(w, now));
    }
}

/// A node that alone holds a key reads back what was last stored under it, for
/// as long as that is live.
pub proof fn law_single_node_reads_its_write(
    table: Map<Seq<char>, Version>,
    key: Seq<char>,
    v: Version,
    now: i64,
)
    ensures
        resolved(seq![stored(table.insert(key, v), key)], now) == if live(v, now) {
            Some(v)
        } else {
            None
        },
{
    let replies = seq![stored(table.insert(key, v), key)];
    assert(replies.drop_last() =~= Seq::empty());
    reveal_with_fuel(standing, 2);
}

/// Whether a version stands against another in whatever order they come.
pub open spec fn beats(v: Version, u: Version) -> bool {
    winner(u, v) == v && winner(v, u) == v
}

/// A version stands against another just if its clock is after the other's, or
/// neither clock is after the other and its timestamp is later; or they are the
/// same.
pub proof fn law_what_stands_against_another(v: Version, u: Version)
    ensures
        clock_after(v.clock, u.clock) ==> beats(v, u),
        !clock_after(u.clock, v.clock) && v.timestamp_ms > u.timestamp_ms ==> beats(v, u),
        beats(v, u) ==> v == u || clock_after(v.clock, u.clock) || (!clock_after(u.clock, v.clock)
            && v.timestamp_ms > u.timestamp_ms),
{
    crate::storage::memtable_laws::law_after_is_a_strict_order(v.clock, u.clock, u.clock);
}

/// An unexpired reply that stands against all other unexpired replies is the
/// one that stands in the end, in whatever order the replies came: a value is
/// the result of the read, and a tombstone leaves it without one.
pub proof fn law_unbeaten_reply_wins(replies: Seq<Option<Version>>, now: i64, best: Version)
    requires
        !expired(best, now),
        replies.contains(Some(best)),
        forall|i: int|
            0 <= i < replies.len() ==> ((#[trigger] replies[i]) matches Some(u) ==> !expired(u, now)
                ==> u == best || beats(best, u)),
    ensures
        standing(replies, now) == Some(best),
        resolved(replies, now) == if best.deleted {
            None
        } else {
            Some(best)
        },
    decreases replies.len(),
{
    let init = replies.drop_last();
    let last = replies.last();
    assert(replies[replies.len() - 1] == last);
    assert forall|i: int| 0 <= i < init.len() implies ((#[trigger] init[i]) matches Some(u)
        ==> !expired(u, now) ==> u == best || beats(best, u)) by {
        assert(init[i] == replies[i]);
    }
    law_standing_version_is_a_reply(init, now);
    if init.contains(Some(best)) {
        law_unbeaten_reply_wins(init, now, best);
        assert(winner(best, best) == best);
    } else {
        let k = choose|k: int| 0 <= k < replies.len() && replies[k] == Some(best);
        if k < init.len() {
            assert(init[k] == Some(best));
            assert(false);
        }
        assert(last == Some(best));
        if let Some(u) = standing(init, now) {
            let i = choose|i: int| 0 <= i < init.len() && init[i] == Some(u);
            assert(init[i] == Some(u));
            assert(u != best);
        }
    }
}

/// A reply whose clock is after those of all other unexpired replies stands in
/// the end, in whatever order the replies came.
pub proof fn law_dominating_reply_wins(replies: Seq<Option<Version>>, now: i64, best: Version)
    requires
        !expired(best, now),
        replies.contains(Some(best)),
        forall|i: int|
            0 <= i < replies.len() ==> ((#[trigger] replies[i]) matches Some(u) ==> !expired(u, now)
                ==> u == best || clock_after(best.clock, u.clock)),
    ensures
        standing(replies, now) == Some(best),
        resolved(replies, now) == if best.deleted {
            None
        } else {
            Some(best)
        },
{
    assert forall|i: int| 0 <= i < replies.len() implies ((#[trigger] replies[i]) matches Some(u)
        ==> !expired(u, now) ==> u == best || beats(best, u)) by {
        if let Some(u) = replies[i] {
            law_what_stands_against_another(best, u);
        }
    }
    law_unbeaten_reply_wins(replies, now, best);
}

/// A deleted value does not come back: a read that hears of a value and of an
/// unexpired tombstone whose clock is after the value's gives nothing, in
/// whatever order it hears of them.
pub proof fn law_deleted_value_does_not_come_back(value: Version, tombstone: Version, now: i64)
    requires
        tombstone.deleted,
        !expired(tombstone, now),
        clock_after(tombstone.clock, value.clock),
    ensures
        resolved(seq![Some(value), Some(tombstone)], now) is None,
        resolved(seq![Some(tombstone), Some(value)], now) is None,
{
    let one = seq![Some(value), Some(tombstone)];
    let other = seq![Some(tombstone), Some(value)];
    assert(one[1] == Some(tombstone));
    assert(other[0] == Some(tombstone));
    law_dominating_reply_wins(one, now, tombstone);
    law_dominating_reply_wins(other, now, tombstone);
}

/// After a node deleted a key, a read that hears of the node's tombstone and,
/// from other replicas, of nothing but the version that was deleted gives
/// nothing until the tombstone expires.
pub proof fn law_read_after_delete_gives_nothing(
    table: Map<Seq<char>, Version>,
    key: Seq<char>,
    node: Seq<char>,
    deleted_at: i64,
    replies: Seq<Option<Version>>,
    now: i64,
)
    requires
        count(clock_at(table, key), node) < u64::MAX,
        !expired(tomb(node, clock_at(table, key), deleted_at), now),
        replies.contains(Some(tomb(node, clock_at(table, key), deleted_at))),
        forall|i: int|
            0 <= i < replies.len() ==> (#[trigger] replies[i]) is None || replies[i] == Some(
                tomb(node, clock_at(table, key), deleted_at),
            ) || replies[i] == stored(table, key),
    ensures
        resolved(replies, now) is None,
{
    let t = tomb(node, clock_at(table, key), deleted_at);
    law_tombstone_is_after(table, key, node, deleted_at);
    law_dominating_reply_wins(replies, now, t);
}

/// Where no unexpired reply's clock is after another's, the version that stands
/// has the latest timestamp.
pub proof fn law_last_writer_wins_among_concurrent(replies: Seq<Option<Version>>, now: i64)
    requires
        forall|i: int, j: int|
            #![trigger replies[i], replies[j]]
            0 <= i < replies.len() && 0 <= j < replies.len() ==> (replies[i] matches Some(a) ==> (
            replies[j] matches Some(b) ==> !expired(a, now) && !expired(b, now) ==> !clock_after(
                a.clock,
                b.clock,
            ))),
    ensures
        forall|i: int|
            0 <= i < replies.len() ==> ((#[trigger] replies[i]) matches Some(v) ==> !expired(v, now)
                ==> (standing(replies, now) matches Some(best) && best.timestamp_ms
                >= v.timestamp_ms)),
    decreases replies.len(),
{
    if replies.len() > 0 {
        let init = replies.drop_last();
        let n = replies.len() - 1;
        assert forall|i: int, j: int|
            #![trigger init[i], init[j]]
            0 <= i < init.len() && 0 <= j < init.len() implies (init[i] matches Some(a) ==> (
        init[j] matches Some(b) ==> !expired(a, now) && !expired(b, now) ==> !clock_after(
            a.clock,
            b.clock,
        ))) by {
            assert(init[i] == replies[i] && init[j] == replies[j]);
        }
        law_last_writer_wins_among_concurrent(init, now);
        law_standing_version_is_a_reply(init, now);
        assert(replies[n] == replies.last());
        if let Some(best) = standing(init, now) {
            let k = choose|k: int| 0 <= k < init.len() && init[k] == Some(best);
            assert(replies[k] == Some(best));
            assert(replies[n] matches Some(v) ==> !expired(v, now) ==> !clock_after(
                v.clock,
                best.clock,
            ) && !clock_after(best.clock, v.clock));
        }
        assert forall|i: int| 0 <= i < replies.len() implies ((#[trigger] replies[i]) matches Some(
            v,
        ) ==> !expired(v, now) ==> (standing(replies, now) matches Some(best) && best.timestamp_ms
            >= v.timestamp_ms)) by {
            if i < n {
                assert(init[i] == replies[i]);
            }
        }
    }
}

/// With a strongly consistent configuration a read sees the last write: where
/// a write reached its quorum of the replicas, a read that hears from its
/// quorum of them gives the written version, if that has not expired and stands
/// against all other unexpired versions that replicas have. A written tombstone
/// leaves the read without a value.
pub proof fn law_strong_read_sees_the_write(
    config: QuorumConfig,
    has: Seq<Option<Version>>,
    written: Set<int>,
    asked: Seq<int>,
    v: Version,
    now: i64,
)
    requires
        config.strong(),
        has.len() <= config.replication_factor,
        forall|r: int| #[trigger] written.contains(r) ==> 0 <= r < has.len() && has[r] == Some(v),
        written.len() >= config.write_quorum,
        asked.no_duplicates(),
        forall|i: int| 0 <= i < asked.len() ==> 0 <= #[trigger] asked[i] < has.len(),
        asked.len() >= config.read_quorum,
        !expired(v, now),
        forall|r: int|
            0 <= r < has.len() ==> ((#[trigger] has[r]) matches Some(u) ==> !expired(u, now) ==> u
                == v || (winner(u, v) == v && winner(v, u) == v)),
    ensures
        resolved(asked.map_values(|r: int| has[r]), now) == if v.deleted {
            None
        } else {
            Some(v)
        },
{
    let all = vstd::set_lib::set_int_range(0, has.len() as int);
    let read = asked.to_set();
    let replies = asked.map_values(|r: int| has[r]);
    vstd::set_lib::lemma_int_range(0, has.len() as int);
    asked.unique_seq_to_set();
    assert(read.subset_of(all)) by {
        assert forall|r: int| read.contains(r) implies all.contains(r) by {
            let i = choose|i: int| 0 <= i < asked.len() && asked[i] == r;
            assert(asked[i] == r);
        }
    }
    law_strong_quorums_intersect(config, all, read, written);
    let r = choose|r: int| read.contains(r) && written.contains(r);
    let i = choose|i: int| 0 <= i < asked.len() && asked[i] == r;
    assert(replies[i] == Some(v));
    assert forall|i: int| 0 <= i < replies.len() implies ((#[trigger] replies[i]) matches Some(u)
        ==> !expired(u, now) ==> u == v || beats(v, u)) by {
        assert(replies[i] == has[asked[i]]);
    }
    law_unbeaten_reply_wins(replies, now, v);
}

/// An ordinary overwrite is seen by a strong read: with a strongly consistent
/// configuration, where all replicas held a version or nothing, and a node that
/// held it wrote over it at a later time and reached its quorum, a read that
/// hears from its quorum gives the new value for as long as it is live.
pub proof fn law_strong_read_sees_the_overwrite(
    config: QuorumConfig,
    has: Seq<Option<Version>>,
    written: Set<int>,
    asked: Seq<int>,
    table: Map<Seq<char>, Version>,
    key: Seq<char>,
    value: Seq<u8>,
    node: Seq<char>,
    ttl_ms: i64,
    written_at: i64,
    now: i64,
)
    requires
        config.strong(),
        has.len() <= config.replication_factor,
        forall|r: int| #[trigger]
            written.contains(r) ==> 0 <= r < has.len() && has[r] == Some(
                overwriting(table, key, value, node, ttl_ms, written_at),
            ),
        written.len() >= config.write_quorum,
        asked.no_duplicates(),
        forall|i: int| 0 <= i < asked.len() ==> 0 <= #[trigger] asked[i] < has.len(),
        asked.len() >= config.read_quorum,
        !expired(overwriting(table, key, value, node, ttl_ms, written_at), now),
        table.contains_key(key) ==> written_at > table[key].timestamp_ms,
        forall|r: int|
            0 <= r < has.len() && !written.contains(r) ==> #[trigger] has[r] == stored(table, key)
                || has[r] is None,
    ensures
        resolved(asked.map_values(|r: int| has[r]), now) == Some(
            overwriting(table, key, value, node, ttl_ms, written_at),
        ),
{
    let v = overwriting(table, key, value, node, ttl_ms, written_at);
    assert forall|r: int| 0 <= r < has.len() implies ((#[trigger] has[r]) matches Some(u)
        ==> !expired(u, now) ==> u == v || (winner(u, v) == v && winner(v, u) == v)) by {
        if let Some(u) = has[r] {
            if !written.contains(r) {
                law_overwrite_covers_what_it_replaces(table, key, value, node, ttl_ms, written_at);
                assert(covers(v.clock, u.clock));
                if clock_after(u.clock, v.clock) {
                    let n = choose|n: Seq<char>| #[trigger] count(v.clock, n) < count(u.clock, n);
                    assert(count(u.clock, n) <= count(v.clock, n));
                }
                law_what_stands_against_another(v, u);
            }
        }
    }
    law_strong_read_sees_the_write(config, has, written, asked, v, now);
}

/// The clock of an overwriting version covers that of the version that it is
/// written over and counts an event of the writing node.
pub proof fn law_overwrite_covers_what_it_replaces(
    table: Map<Seq<char>, Version>,
    key: Seq<char>,
    value: Seq<u8>,
    node: Seq<char>,
    ttl_ms: i64,
    now: i64,
)
    ensures
        covers(overwriting(table, key, value, node, ttl_ms, now).clock, clock_at(table, key)),
        count(overwriting(table, key, value, node, ttl_ms, now).clock, node) >= 1,
{
    let fresh = crate::storage::memtable::incremented(Map::empty(), node);
    crate::storage::memtable_laws::law_merge_is_the_least_upper_bound(
        fresh,
        clock_at(table, key),
        Map::empty(),
    );
    assert(count(fresh, node) == 1);
    assert(count(merged(fresh, clock_at(table, key)), node) >= count(fresh, node));
}

/// A version that a node writes over one that already counts an event of it
/// has the same clock, so that between the two the later timestamp wins.
pub proof fn law_repeated_overwrite_keeps_the_clock(
    table: Map<Seq<char>, Version>,
    key: Seq<char>,
    value: Seq<u8>,
    node: Seq<char>,
    ttl_ms: i64,
    now: i64,
)
    requires
        count(clock_at(table, key), node) >= 1,
    ensures
        overwriting(table, key, value, node, ttl_ms, now).clock == clock_at(table, key),
        table.contains_key(key) && now > table[key].timestamp_ms ==> winner(
            table[key],
            overwriting(table, key, value, node, ttl_ms, now),
        ) == overwriting(table, key, value, node, ttl_ms, now),
{
    let old = clock_at(table, key);
    let new = overwriting(table, key, value, node, ttl_ms, now).clock;
    assert(new =~= old);
    crate::storage::memtable_laws::law_after_is_a_strict_order(old, old, old);
}

/// The peers and this node together are the nodes that hold the key: as many
/// attempts are made as nodes hold it.
pub proof fn law_every_replica_is_asked_once(nodes: Seq<Member>, own: Seq<char>)
    requires
        forall|i: int, j: int| #![trigger nodes[i], nodes[j]]
            0 <= i < j < nodes.len() ==> nodes[i].id != nodes[j].id,
    ensures
        others(nodes, own).len() + (if lists(nodes, own) {
            1nat
        } else {
            0
        }) == nodes.len(),
    decreases nodes.len(),
{
    reveal(Seq::filter);
    if nodes.len() > 0 {
        let init = nodes.drop_last();
        assert forall|i: int, j: int| #![trigger init[i], init[j]]
            0 <= i < j < init.len() implies init[i].id != init[j].id by {
            assert(nodes[i].id != nodes[j].id);
        }
        law_every_replica_is_asked_once(init, own);
        assert(nodes[nodes.len() - 1] == nodes.last());
        if lists(init, own) {
            let i = choose|i: int| 0 <= i < init.len() && (#[trigger] init[i]).id == own;
            assert(nodes[i].id == own);
        }
        if lists(nodes, own) && nodes.last().id != own {
            let i = choose|i: int| 0 <= i < nodes.len() && (#[trigger] nodes[i]).id == own;
            assert(init[i].id == own);
        }
    }
}

/// Every replica's outcome is counted once, as a success or as a failure.
pub proof fn law_outcomes_add_up(local: Option<bool>, replies: Seq<bool>)
    ensures
        outcomes(local, replies, true) + outcomes(local, replies, false) == replies.len() + (
        if local is Some {
            1nat
        } else {
            0
        }),
    decreases replies.len(),
{
    reveal(Seq::filter);
    if let Some(ok) = local {
        assert(local == Some(if ok {
            true
        } else {
            false
        }));
    }
    if replies.len() > 0 {
        law_outcomes_add_up(local, replies.drop_last());
        assert(is_outcome(true)(replies.last()) != is_outcome(false)(replies.last()));
    }
}

/// The peers of a request are just the nodes of the list whose id is not this
/// node's, in their order and each as often as in the list: with one node more
/// in the list there is one peer more, or none where that is this node.
pub proof fn law_peers_are_the_other_nodes(
    nodes: Seq<Member>,
    node: Member,
    own: Seq<char>,
    m: Member,
)
    ensures
        others(Seq::empty(), own) == Seq::<Member>::empty(),
        node.id == own ==> others(nodes.push(node), own) == others(nodes, own),
        node.id != own ==> others(nodes.push(node), own) == others(nodes, own).push(node),
        others(nodes, own).contains(m) <==> nodes.contains(m) && m.id != own,
{
    reveal(Seq::filter);
    assert(nodes.push(node).drop_last() =~= nodes);
    let keep = |node: Member| node.id != own;
    broadcast use vstd::seq_lib::group_filter_ensures;

    if others(nodes, own).contains(m) {
        let i = choose|i: int| 0 <= i < others(nodes, own).len() && others(nodes, own)[i] == m;
        lemma_filter_source(nodes, keep, i);
    }
}

/// Where no two of the nodes have the same id, no two of the peers have, and
/// every other node is asked.
pub proof fn law_peers_differ(nodes: Seq<Member>, own: Seq<char>, k: int)
    requires
        forall|i: int, j: int| #![trigger nodes[i], nodes[j]]
            0 <= i < j < nodes.len() ==> nodes[i].id != nodes[j].id,
    ensures
        forall|i: int, j: int| #![trigger others(nodes, own)[i], others(nodes, own)[j]]
            0 <= i < j < others(nodes, own).len() ==> others(nodes, own)[i].id != others(
                nodes,
                own,
            )[j].id,
        0 <= k < nodes.len() && nodes[k].id != own ==> others(nodes, own).contains(nodes[k]),
    decreases nodes.len(),
{
    if 0 <= k < nodes.len() {
        law_peers_are_the_other_nodes(nodes, nodes[k], own, nodes[k]);
    }
    if nodes.len() > 0 {
        let init = nodes.drop_last();
        let last = nodes.last();
        assert(init.push(last) =~= nodes);
        assert forall|i: int, j: int| #![trigger init[i], init[j]]
            0 <= i < j < init.len() implies init[i].id != init[j].id by {
            assert(nodes[i].id != nodes[j].id);
        }
        law_peers_differ(init, own, 0);
        law_peers_are_the_other_nodes(init, last, own, last);
        let before = others(init, own);
        let all = others(nodes, own);
        assert forall|i: int, j: int| #![trigger all[i], all[j]]
            0 <= i < j < all.len() implies all[i].id != all[j].id by {
            if j < before.len() {
                assert(before[i].id != before[j].id);
            } else {
                let m = before[i];
                assert(before.contains(m));
                law_peers_are_the_other_nodes(init, last, own, m);
                let h = choose|h: int| 0 <= h < init.len() && init[h] == m;
                assert(nodes[h].id != nodes[nodes.len() - 1].id);
            }
        }
    } else {
        law_peers_are_the_other_nodes(nodes, arbitrary(), own, arbitrary());
        assert(nodes =~= Seq::empty());
    }
}

/// The nodes that hold a key are the first of the ring's preference list for
/// the key's position, as many as the replication factor says or there are.
pub proof fn law_key_is_held_by_the_first_of_its_list(ring: HashRing, key: Seq<char>, i: int)
    ensures
        ({
            let list = preference(ring.slots(), ring_hash(key));
            &&& replicas(ring, key).len() <= ring.factor()
            &&& replicas(ring, key).len() == ring.factor() || replicas(ring, key).len()
                == list.len()
            &&& replicas(ring, key).len() <= list.len()
            &&& 0 <= i < replicas(ring, key).len() ==> replicas(ring, key)[i] == list[i]
        }),
{
}

/// Hearing of nothing, or of an expired version, leaves what stands as it is.
/// An unexpired version stands where nothing does; against another it stands
/// where its clock is after the other's, and where neither clock is after the
/// other, if its timestamp is later. A read gives what stands, unless that is a
/// tombstone.
pub proof fn law_replies_are_resolved_one_by_one(
    replies: Seq<Option<Version>>,
    next: Version,
    now: i64,
)
    ensures
        standing(Seq::empty(), now) is None,
        standing(replies.push(None), now) == standing(replies, now),
        next.ttl_ms > 0 && now - next.timestamp_ms > next.ttl_ms ==> standing(
            replies.push(Some(next)),
            now,
        ) == standing(replies, now),
        next.ttl_ms <= 0 || now - next.timestamp_ms <= next.ttl_ms ==> standing(
            replies.push(Some(next)),
            now,
        ) == match standing(replies, now) {
            None => Some(next),
            Some(current) => if clock_after(next.clock, current.clock) {
                Some(next)
            } else if clock_after(current.clock, next.clock) || next.timestamp_ms
                <= current.timestamp_ms {
                Some(current)
            } else {
                Some(next)
            },
        },
        standing(replies, now) matches Some(v) && !v.deleted ==> resolved(replies, now) == standing(
            replies,
            now,
        ),
        standing(replies, now) matches Some(v) && v.deleted ==> resolved(replies, now) is None,
        standing(replies, now) is None ==> resolved(replies, now) is None,
{
    assert(replies.push(None).drop_last() =~= replies);
    assert(replies.push(Some(next)).drop_last() =~= replies);
}

/// Of two versions the one stands whose clock is after the other's; where
/// neither is, the one with the later timestamp, and the first where there is
/// none.
pub proof fn law_winner_goes_by_clock_and_then_by_time(a: Version, b: Version)
    ensures
        winner(a, b) == a || winner(a, b) == b,
        clock_after(a.clock, b.clock) ==> winner(a, b) == a,
        clock_after(b.clock, a.clock) ==> winner(a, b) == b,
        !clock_after(a.clock, b.clock) && !clock_after(b.clock, a.clock) && b.timestamp_ms
            > a.timestamp_ms ==> winner(a, b) == b,
        !clock_after(a.clock, b.clock) && !clock_after(b.clock, a.clock) && b.timestamp_ms
            <= a.timestamp_ms ==> winner(a, b) == a,
{
    crate::storage::memtable_laws::law_after_is_a_strict_order(a.clock, b.clock, b.clock);
}

/// A read never gives a version whose timestamp and time to live lie before
/// the time that the wall clock tells when the replies are resolved, nor a
/// tombstone, nor one that no reply has; where all that the replies have is
/// past its time to live, it gives nothing.
pub proof fn law_read_never_gives_what_has_expired(
    local: Option<Option<VersionedValue>>,
    replies: Seq<Option<proto::GetInternalResponse>>,
    now: i64,
)
    requires
        clock_reading(now),
    ensures
        resolved(responses(local, replies), now) matches Some(v) ==> {
            &&& v.ttl_ms > 0 ==> v.timestamp_ms + v.ttl_ms >= now
            &&& !v.deleted
            &&& responses(local, replies).contains(Some(v))
        },
        (forall|i: int|
            0 <= i < responses(local, replies).len() ==> ((#[trigger] responses(local, replies)[i])
                matches Some(v) ==> v.ttl_ms > 0 && v.timestamp_ms + v.ttl_ms < now)) ==> resolved(
            responses(local, replies),
            now,
        ) is None,
{
    let all = responses(local, replies);
    law_standing_version_is_a_reply(all, now);
    if let Some(v) = standing(all, now) {
        law_expiry_goes_by_the_clock(v, now);
        let i = choose|i: int| 0 <= i < all.len() && all[i] == Some(v);
        assert(all[i] == Some(v));
    }
}

/// On the wire a version keeps its value, clock, timestamp and time to live,
/// and what arrives is a value with just these; without a clock it has an empty
/// one.
pub proof fn law_versions_are_sent_as_they_are(
    v: Version,
    w: WireVersion,
    p: proto::VersionedValue,
    clock: proto::VectorClock,
)
    ensures
        sent(v).value == v.value,
        sent(v).clock == Some(v.clock),
        sent(v).timestamp_ms == v.timestamp_ms,
        sent(v).ttl_ms == v.ttl_ms,
        received(w).value == w.value,
        w.clock matches Some(c) ==> received(w).clock == c,
        w.clock is None ==> received(w).clock == Map::<Seq<char>, u64>::empty(),
        received(w).timestamp_ms == w.timestamp_ms,
        received(w).ttl_ms == w.ttl_ms,
        !received(w).deleted,
        p@.value == p.value@,
        p@.clock == clock_in(p.vector_clock),
        p@.timestamp_ms == p.timestamp_ms,
        p@.ttl_ms == p.ttl_ms,
        clock_in(None) == None::<Map<Seq<char>, u64>>,
        clock_in(Some(clock)) == Some(clock.clocks@),
{
}

/// The answers to a read are this node's, where it holds the key, and then one
/// for each peer, in order: the version that the peer sent, where it says that
/// it found one, and none where it did not answer or found none.
pub proof fn law_every_answer_counts(
    local: Option<Option<VersionedValue>>,
    replies: Seq<Option<proto::GetInternalResponse>>,
    values: Seq<Option<VersionedValue>>,
    i: int,
)
    ensures
        ({
            let first: int = if local is Some {
                1
            } else {
                0
            };
            let all = responses(local, replies);
            &&& all.len() == replies.len() + first
            &&& local matches Some(value) ==> all[0] == version_of(value)
            &&& 0 <= i < replies.len() ==> all[first + i] == match replies[i] {
                None => None,
                Some(reply) => match reply.value {
                    Some(value) if reply.found => Some(received(value@)),
                    _ => None,
                },
            }
        }),
        versions(values).len() == values.len(),
        0 <= i < values.len() ==> versions(values)[i] == version_of(values[i]),
        own_response(local).len() == if local is Some {
            1nat
        } else {
            0
        },
        0 <= i < replies.len() ==> answered(replies[i]) == match replies[i] {
            None => None,
            Some(reply) => match reply.value {
                Some(value) if reply.found => Some(received(value@)),
                _ => None,
            },
        },
{
}

/// The count of an outcome is that of the replies with it, and one more where
/// the write on this node had it.
pub proof fn law_outcomes_are_counted_one_by_one(
    local: Option<bool>,
    replies: Seq<bool>,
    ok: bool,
    outcome: bool,
)
    ensures
        outcomes(local, Seq::empty(), outcome) == if local == Some(outcome) {
            1nat
        } else {
            0
        },
        ok == outcome ==> outcomes(local, replies.push(ok), outcome) == outcomes(
            local,
            replies,
            outcome,
        ) + 1,
        ok != outcome ==> outcomes(local, replies.push(ok), outcome) == outcomes(
            local,
            replies,
            outcome,
        ),
        is_outcome(outcome)(ok) == (ok == outcome),
{
    reveal(Seq::filter);
    assert(replies.push(ok).drop_last() =~= replies);
}

/// A request's own quorum counts where it asks for one, and the configured one
/// where it asks for none; a configuration is strong just if a read and a write
/// quorum together are more than all replicas.
pub proof fn law_quorums_are_those_asked_for(config: QuorumConfig, default: u32, asked: u32)
    ensures
        asked > 0 ==> effective(default, asked) == asked,
        asked == 0 ==> effective(default, asked) == default,
        config.strong() <==> config.read_quorum + config.write_quorum > config.replication_factor,
{
}

/// A write that is decided on needs the quorum asked for, or the configured
/// one. It is sent, with the key and the version, to every node of the list but
/// this one; and just where this node is in the list its log gets the next
/// number for it, with the same key and version. Nothing is stored yet.
pub proof fn law_decided_write_goes_to_every_replica(
    c: ReplicationCoordinator,
    before: StorageEngine,
    after: StorageEngine,
    nodes: Seq<Member>,
    key: Seq<char>,
    asked: u32,
    plan: PutPlan,
    m: Member,
)
    requires
        c.put_decided(&before, &after, nodes, key, asked, plan),
    ensures
        ({
            let own = before.settings().node_id@;
            let holds = exists|i: int| 0 <= i < nodes.len() && (#[trigger] nodes[i]).id == own;
            &&& plan.required == if asked > 0 {
                asked
            } else {
                c.config().write_quorum
            }
            &&& nodes_of(plan.peers@) == others(nodes, own)
            &&& nodes_of(plan.peers@).contains(m) <==> nodes.contains(m) && m.id != own
            &&& plan.request.key@ == key
            &&& !plan.request.is_delete
            &&& plan.request.value matches Some(value) && value.value@
                == plan.versioned.value@ && clock_in(value.vector_clock) == Some(
                plan.versioned@.clock,
            ) && value.timestamp_ms == plan.versioned.timestamp_ms && value.ttl_ms
                == plan.versioned.ttl_ms
            &&& plan.local is Some <==> holds
            &&& plan.local matches Some(write) ==> {
                &&& write.entry.sequence == before.last() + 1
                &&& write.entry.key@ == key
                &&& write.entry.value@ == plan.versioned@
                &&& write.entry@ == record(write.entry.sequence, key, plan.versioned@)
                &&& write.may_flush
                &&& after.last() == before.last() + 1
            }
            &&& plan.local is None ==> after.last() == before.last()
            &&& after@ == before@
            &&& after.rows() == before.rows()
            &&& after.settings() == before.settings()
            &&& after.max_size() == before.max_size()
            &&& after.log_file() == before.log_file()
            &&& after.snapshot_place() == before.snapshot_place()
        }),
{
    let own = before.settings().node_id@;
    law_peers_are_the_other_nodes(nodes, m, own, m);
    law_listed_nodes_have_the_id(nodes, own);
    if let Some(value) = plan.request.value {
        assert(value@ == sent(plan.versioned@));
    }
    if let Some(write) = plan.local {
        assert(lists(nodes, own));
        assert(before.last() + 1 <= u64::MAX);
        assert(write.entry@.sequence == (before.last() + 1) as u64);
    }
}

/// A read that is decided on needs the quorum asked for, or the configured
/// one. It asks every node of the list but this one for the key, and just where
/// this node is in the list it has what is stored there under the key.
pub proof fn law_decided_read_asks_every_replica(
    c: ReplicationCoordinator,
    engine: StorageEngine,
    nodes: Seq<Member>,
    key: Seq<char>,
    asked: u32,
    plan: GetPlan,
    m: Member,
)
    requires
        c.get_decided(&engine, nodes, key, asked, plan),
    ensures
        ({
            let own = engine.settings().node_id@;
            let holds = exists|i: int| 0 <= i < nodes.len() && (#[trigger] nodes[i]).id == own;
            &&& plan.required == if asked > 0 {
                asked
            } else {
                c.config().read_quorum
            }
            &&& nodes_of(plan.peers@) == others(nodes, own)
            &&& nodes_of(plan.peers@).contains(m) <==> nodes.contains(m) && m.id != own
            &&& plan.request.key@ == key
            &&& plan.local is Some <==> holds
            &&& plan.local matches Some(Some(v)) ==> engine@.contains_key(key) && engine@[key] == v@
            &&& plan.local matches Some(None) ==> !engine@.contains_key(key)
        }),
{
    law_peers_are_the_other_nodes(nodes, m, engine.settings().node_id@, m);
    law_listed_nodes_have_the_id(nodes, engine.settings().node_id@);
}

/// A deletion that is decided on needs the quorum asked for, or the configured
/// one, and goes to every node of the list but this one; and just where this
/// node is in the list its log gets the next number for a tombstone over what
/// is stored. Nothing is stored yet.
pub proof fn law_decided_deletion_goes_to_every_replica(
    c: ReplicationCoordinator,
    before: StorageEngine,
    after: StorageEngine,
    nodes: Seq<Member>,
    key: Seq<char>,
    asked: u32,
    now: i64,
    plan: DeletePlan,
    m: Member,
)
    requires
        c.delete_decided(&before, &after, nodes, key, asked, now, plan),
    ensures
        ({
            let own = before.settings().node_id@;
            let holds = exists|i: int| 0 <= i < nodes.len() && (#[trigger] nodes[i]).id == own;
            &&& plan.required == if asked > 0 {
                asked
            } else {
                c.config().write_quorum
            }
            &&& nodes_of(plan.peers@) == others(nodes, own)
            &&& nodes_of(plan.peers@).contains(m) <==> nodes.contains(m) && m.id != own
            &&& plan.key@ == key
            &&& plan.local is Some <==> holds
            &&& plan.local matches Some(write) ==> {
                &&& write.entry.sequence == before.last() + 1
                &&& write.entry.key@ == key
                &&& write.entry.value@ == tomb(own, clock_at(before@, key), now)
                &&& write.entry@ == record(write.entry.sequence, key, write.entry.value@)
                &&& !write.may_flush
                &&& after.last() == before.last() + 1
            }
            &&& plan.local is None ==> after.last() == before.last()
            &&& after@ == before@
            &&& after.rows() == before.rows()
            &&& after.settings() == before.settings()
            &&& after.max_size() == before.max_size()
            &&& after.log_file() == before.log_file()
            &&& after.snapshot_place() == before.snapshot_place()
        }),
{
    let own = before.settings().node_id@;
    law_peers_are_the_other_nodes(nodes, m, own, m);
    law_listed_nodes_have_the_id(nodes, own);
    if let Some(write) = plan.local {
        assert(lists(nodes, own));
        assert(before.last() + 1 <= u64::MAX);
        assert(write.entry@.sequence == (before.last() + 1) as u64);
    }
}

} // verus!

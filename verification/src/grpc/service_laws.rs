//! What holds of what the services answer.

use vstd::prelude::*;

use crate::grpc::proto;
use crate::grpc::proto::clock_in;
use crate::grpc::service::{
    handed_over, hint_decided, is_deletion, is_store, not_met, numbered, replicate_decided,
    scan_limit, sent_pairs, wire_pairs, Failure, Status, DEFAULT_SCAN_LIMIT,
};
use crate::replication::coordinator::RPC_TIMEOUT_NS;
use crate::seqs::at_most;
use crate::storage::engine::{PendingWrite, StorageEngine};
use crate::storage::memtable::{clock_at, lookup, scanned, tomb, Version, TOMBSTONE_TTL_MS};
use crate::storage::memtable_laws::law_scan_agrees_with_reads;
use crate::storage::wal::record;
use crate::str_map::{as_map, keys_increase};
use crate::text::{decimal, key_lt};

verus! {

/// A pair of a scan's answer is the row in its place: it has the key, the value
/// and the clock of that row and of no other, and there is one for each row.
pub proof fn law_each_pair_is_its_own_row(
    rows: Seq<(Seq<char>, Version)>,
    pairs: Seq<proto::KeyValue>,
    i: int,
)
    ensures
        sent_pairs(rows).len() == rows.len(),
        0 <= i < rows.len() ==> {
            &&& sent_pairs(rows)[i].key == rows[i].0
            &&& sent_pairs(rows)[i].value == rows[i].1.value
            &&& sent_pairs(rows)[i].clock == Some(rows[i].1.clock)
        },
        wire_pairs(pairs).len() == pairs.len(),
        0 <= i < pairs.len() ==> {
            &&& wire_pairs(pairs)[i].key == pairs[i].key@
            &&& wire_pairs(pairs)[i].value == pairs[i].value@
            &&& wire_pairs(pairs)[i].clock == clock_in(pairs[i].vector_clock)
        },
{
}

/// A scan that asks for no limit gives up to a hundred pairs, and every other
/// as many as it asks for.
pub proof fn law_scan_gives_as_many_as_asked(asked: u32)
    ensures
        asked == 0 ==> scan_limit(asked) == 100,
        asked > 0 ==> scan_limit(asked) == asked,
        DEFAULT_SCAN_LIMIT == 100,
        RPC_TIMEOUT_NS == 2 * 1000 * 1000 * 1000,
        TOMBSTONE_TTL_MS == 5 * 60 * 1000,
{
}

/// The answer to a scan agrees with reads: each of its pairs has a key in the
/// range, and the value and the clock that a read of that key at the same time
/// gives; the keys increase; and every key in the range that a read gives a
/// value for has its pair, unless the limit is reached.
pub proof fn law_scan_answer_agrees_with_reads(
    rows: Seq<(Seq<char>, Version)>,
    start: Seq<char>,
    end: Seq<char>,
    limit: u32,
    now: i64,
    pairs: Seq<proto::KeyValue>,
    key: Seq<char>,
)
    requires
        keys_increase(rows),
        wire_pairs(pairs) == sent_pairs(
            at_most(scanned(rows, start, end, now), scan_limit(limit)),
        ),
    ensures
        limit > 0 ==> pairs.len() <= limit,
        limit == 0 ==> pairs.len() <= 100,
        forall|i: int|
            0 <= i < pairs.len() ==> {
                let k = (#[trigger] pairs[i]).key@;
                &&& k == start || key_lt(start, k)
                &&& key_lt(k, end)
                &&& lookup(as_map(rows), k, now) matches Some(v) && pairs[i].value@ == v.value
                    && clock_in(pairs[i].vector_clock) == Some(v.clock)
            },
        forall|i: int, j: int| #![trigger pairs[i], pairs[j]]
            0 <= i < j < pairs.len() ==> key_lt(pairs[i].key@, pairs[j].key@),
        lookup(as_map(rows), key, now) is Some && (key == start || key_lt(start, key)) && key_lt(
            key,
            end,
        ) ==> pairs.len() == scan_limit(limit) || exists|i: int|
            0 <= i < pairs.len() && (#[trigger] pairs[i]).key@ == key,
{
    let found = scanned(rows, start, end, now);
    let kept = at_most(found, scan_limit(limit));
    let told = wire_pairs(pairs);
    assert(told.len() == pairs.len());
    assert(sent_pairs(kept).len() == kept.len());
    law_scan_agrees_with_reads(rows, start, end, now, key, arbitrary());
    assert forall|i: int| 0 <= i < pairs.len() implies {
        let k = (#[trigger] pairs[i]).key@;
        &&& k == start || key_lt(start, k)
        &&& key_lt(k, end)
        &&& lookup(as_map(rows), k, now) matches Some(v) && pairs[i].value@ == v.value && clock_in(
            pairs[i].vector_clock,
        ) == Some(v.clock)
    } by {
        assert(told[i].key == pairs[i].key@);
        assert(told[i] == sent_pairs(kept)[i]);
        assert(kept[i] == found[i]);
        let (k, v) = found[i];
        assert(found.contains((k, v)));
        law_scan_agrees_with_reads(rows, start, end, now, k, v);
    }
    assert forall|i: int, j: int| #![trigger pairs[i], pairs[j]]
        0 <= i < j < pairs.len() implies key_lt(pairs[i].key@, pairs[j].key@) by {
        assert(told[i] == sent_pairs(kept)[i] && told[j] == sent_pairs(kept)[j]);
        assert(key_lt(found[i].0, found[j].0));
    }
    if let Some(v) = lookup(as_map(rows), key, now) {
        if (key == start || key_lt(start, key)) && key_lt(key, end) {
            law_scan_agrees_with_reads(rows, start, end, now, key, v);
            let i = choose|i: int| 0 <= i < found.len() && found[i] == (key, v);
            if i < kept.len() {
                assert(kept[i] == found[i]);
                assert(told[i] == sent_pairs(kept)[i]);
                assert(pairs[i].key@ == key);
            }
        }
    }
}

/// A failure says what its status says, and that a quorum was not met with both
/// counts.
pub proof fn law_failures_say_what_failed(
    text: String,
    kind: Seq<char>,
    successes: u32,
    required: u32,
)
    ensures
        Status::InvalidArgument(text)@ == Failure::InvalidArgument(text@),
        Status::Internal(text)@ == Failure::Internal(text@),
        Status::Unavailable(text)@ == Failure::Unavailable(text@),
        not_met(kind, successes, required) == kind + " quorum not met: got "@ + decimal(
            successes as nat,
        ) + "/"@ + decimal(required as nat) + " successes"@,
{
}

/// A pair that is handed over is stored with its value and its clock, as of the
/// time that was given, without a time to live, and as no tombstone.
pub proof fn law_handed_over_pair_is_kept(
    value: Seq<u8>,
    clock: Option<Map<Seq<char>, u64>>,
    now: i64,
)
    ensures
        ({
            let v = handed_over(value, clock, now);
            &&& v.value == value
            &&& clock matches Some(c) ==> v.clock == c
            &&& clock is None ==> v.clock == Map::<Seq<char>, u64>::empty()
            &&& v.timestamp_ms == now
            &&& v.ttl_ms == 0
            &&& !v.deleted
        }),
{
}

/// A write for another node is the next entry of the log: a store has just the
/// key and the version that were given, and a deletion a tombstone of this node
/// over what is stored.
pub proof fn law_entries_are_for_their_key(
    before: StorageEngine,
    after: StorageEngine,
    key: Seq<char>,
    value: Version,
    now: i64,
    write: PendingWrite,
    entries: nat,
)
    ensures
        is_store(&before, key, value, write) ==> {
            &&& before.last() < u64::MAX ==> write.entry.sequence == before.last() + 1
            &&& write.entry.key@ == key
            &&& write.entry.value@ == value
            &&& write.entry@ == record(write.entry.sequence, key, value)
            &&& write.may_flush
        },
        is_deletion(&before, key, now, write) ==> {
            &&& before.last() < u64::MAX ==> write.entry.sequence == before.last() + 1
            &&& write.entry.key@ == key
            &&& write.entry.value@ == tomb(before.settings().node_id@, clock_at(before@, key), now)
            &&& write.entry@ == record(write.entry.sequence, key, write.entry.value@)
            &&& !write.may_flush
        },
        numbered(&before, &after, entries) <==> {
            &&& after.last() == before.last() + entries
            &&& after@ == before@
            &&& after.rows() == before.rows()
            &&& after.settings() == before.settings()
            &&& after.max_size() == before.max_size()
            &&& after.log_file() == before.log_file()
            &&& after.snapshot_place() == before.snapshot_place()
        },
{
    if is_store(&before, key, value, write) {
        assert(write.entry@.sequence == (before.last() + 1) as u64);
    }
    if is_deletion(&before, key, now, write) {
        assert(write.entry@.sequence == (before.last() + 1) as u64);
    }
}

/// A write from another node without a value is refused and numbers nothing.
/// With one it is the next entry of the log under its key: a tombstone of this
/// node where it is a deletion, and else the value, clock, timestamp and time to
/// live that were sent.
pub proof fn law_replicated_write_is_logged_as_sent(
    before: StorageEngine,
    after: StorageEngine,
    request: proto::ReplicateRequest,
    now: i64,
    write: Result<PendingWrite, Status>,
)
    requires
        replicate_decided(&before, &after, request, now, write),
    ensures
        request.value is None ==> {
            &&& write matches Err(status) && status@ == Failure::InvalidArgument("missing value"@)
            &&& after.last() == before.last()
        },
        request.value matches Some(value) ==> {
            &&& after.last() == before.last() + 1
            &&& write matches Ok(write) && write.entry.key@ == request.key@ && write.entry.sequence
                == before.last() + 1 && write.entry@ == record(
                write.entry.sequence,
                request.key@,
                write.entry.value@,
            ) && if request.is_delete {
                !write.may_flush && write.entry.value@ == tomb(
                    before.settings().node_id@,
                    clock_at(before@, request.key@),
                    now,
                )
            } else {
                write.may_flush && write.entry.value.value@ == value.value@
                    && write.entry.value.timestamp_ms == value.timestamp_ms
                    && write.entry.value.ttl_ms == value.ttl_ms && !write.entry.value.deleted && (
                clock_in(value.vector_clock) matches Some(c) ==> write.entry.value@.clock == c) && (
                value.vector_clock is None ==> write.entry.value@.clock == Map::<
                    Seq<char>,
                    u64,
                >::empty())
            }
        },
        after@ == before@,
        after.rows() == before.rows(),
        after.settings() == before.settings(),
        after.max_size() == before.max_size(),
        after.log_file() == before.log_file(),
        after.snapshot_place() == before.snapshot_place(),
{
    if let Some(value) = request.value {
        if let Ok(w) = write {
            assert(after.last() == before.last() + 1);
            assert(w.entry@.sequence == (before.last() + 1) as u64);
            assert(value@.value == value.value@);
        }
    }
}

/// A missed write without a value is passed over and numbers nothing. With one
/// it is the next entry of the log under its key, a tombstone or what was sent.
pub proof fn law_missed_write_is_logged_as_sent(
    before: StorageEngine,
    after: StorageEngine,
    hint: proto::Hint,
    now: i64,
    write: Option<PendingWrite>,
)
    requires
        hint_decided(&before, &after, hint, now, write),
    ensures
        hint.value is None ==> write is None && after.last() == before.last(),
        hint.value matches Some(value) ==> {
            &&& after.last() == before.last() + 1
            &&& write matches Some(write) && write.entry.key@ == hint.key@ && write.entry.sequence
                == before.last() + 1 && write.entry@ == record(
                write.entry.sequence,
                hint.key@,
                write.entry.value@,
            ) && if hint.is_delete {
                !write.may_flush && write.entry.value@ == tomb(
                    before.settings().node_id@,
                    clock_at(before@, hint.key@),
                    now,
                )
            } else {
                write.may_flush && write.entry.value.value@ == value.value@
                    && write.entry.value.timestamp_ms == value.timestamp_ms
                    && write.entry.value.ttl_ms == value.ttl_ms && !write.entry.value.deleted && (
                clock_in(value.vector_clock) matches Some(c) ==> write.entry.value@.clock == c) && (
                value.vector_clock is None ==> write.entry.value@.clock == Map::<
                    Seq<char>,
                    u64,
                >::empty())
            }
        },
        after@ == before@,
        after.rows() == before.rows(),
        after.settings() == before.settings(),
        after.max_size() == before.max_size(),
        after.log_file() == before.log_file(),
        after.snapshot_place() == before.snapshot_place(),
{
    if let Some(value) = hint.value {
        if let Some(w) = write {
            assert(after.last() == before.last() + 1);
            assert(w.entry@.sequence == (before.last() + 1) as u64);
            assert(value@.value == value.value@);
        }
    }
}

} // verus!

//! What holds of the log, the snapshots and recovery across several operations.

use vstd::bytes::{spec_u32_from_le_bytes, spec_u32_to_le_bytes, spec_u64_to_le_bytes};
use vstd::prelude::*;
use vstd::utf8::encode_utf8;

use crate::digest::crc32;
use crate::seqs::{lemma_filter_no_duplicates, lemma_filter_step};
use crate::storage::engine::{applied, joined, overwriting, snapshot_table, StorageEngine};
use crate::storage::memtable::{
    expired, lookup, stored, unexpired, MemTable, Version, VersionedValue,
};
use crate::storage::memtable_laws::{law_eviction_removes_the_expired, law_expiry_is_final};
use crate::storage::snapshot::{
    by_age, framed, is_snapshot, latest, lemma_by_age, lemma_equal_age, lemma_saved_name,
    lemma_snapshot_name, names_of, older, payload_of, snapshot_name, snapshots_in, stamp,
    stamp_rank, surplus, time_told, unframed, unframed_with, SnapshotError, SnapshotFile,
};
use crate::storage::wal::{
    checksum_of, corrupt, corrupt_lines, covered, highest, intact, lines_of, record, records_of,
    recovered, replayed, Line, LogLine, Record, WalEntry,
};
use crate::str_map::{as_map, keys_increase, lemma_views, StrMap};
use crate::text::{
    all_digits, blank, decimal, key_lt, lemma_digit_run, lemma_key_lt_antisymmetric,
    lemma_key_lt_at, number, white_space,
};

verus! {

/// A new log entry passes verification.
pub proof fn law_new_entry_is_intact(sequence: u64, key: Seq<char>, value: Version)
    ensures
        intact(record(sequence, key, value)),
{
}

/// Replaying one log after another gives the entries of both, in order, and
/// counts the corrupt lines of both.
pub proof fn law_replay_of_joined_logs(a: Seq<Line>, b: Seq<Line>)
    ensures
        replayed(a + b) == replayed(a) + replayed(b),
        corrupt_lines(a + b) == corrupt_lines(a) + corrupt_lines(b),
    decreases b.len(),
{
    Seq::filter_distributes_over_add(a, b, |line: Line| corrupt(line));
    if b.len() == 0 {
        assert(a + b =~= a);
        assert(replayed(a) + replayed(b) =~= replayed(a));
    } else {
        law_replay_of_joined_logs(a, b.drop_last());
        assert((a + b).drop_last() =~= a + b.drop_last());
        assert(replayed(a + b) =~= replayed(a) + replayed(b));
    }
}

/// A line that gives no entry leaves what the lines around it give.
pub proof fn law_bad_line_is_skipped(before: Seq<Line>, line: Line, after: Seq<Line>)
    requires
        recovered(line) is None,
    ensures
        replayed(before.push(line) + after) == replayed(before) + replayed(after),
{
    law_replay_of_joined_logs(before.push(line), after);
    assert(before.push(line).drop_last() =~= before);
}

/// A log of intact entries is replayed whole and in order, and no line of it
/// counts as corrupt.
pub proof fn law_intact_log_is_replayed(lines: Seq<Line>, entries: Seq<Record>)
    requires
        lines.len() == entries.len(),
        forall|i: int|
            0 <= i < lines.len() ==> recovered(#[trigger] lines[i]) == Some(entries[i]),
    ensures
        replayed(lines) == entries,
        corrupt_lines(lines) == 0,
    decreases lines.len(),
{
    crate::seqs::lemma_filter_nothing(lines, |line: Line| corrupt(line));
    if lines.len() > 0 {
        let n = lines.len() - 1;
        assert forall|i: int| 0 <= i < n implies recovered(#[trigger] lines.drop_last()[i]) == Some(
            entries.drop_last()[i],
        ) by {
            assert(lines.drop_last()[i] == lines[i]);
        }
        law_intact_log_is_replayed(lines.drop_last(), entries.drop_last());
        assert(recovered(lines[n]) == Some(entries[n]));
        assert(replayed(lines) =~= entries);
    }
}

/// The number that a reopened log goes on from is at least that of every entry
/// in the log, so that the next entry's number is above all of them.
pub proof fn law_numbers_go_on_above_the_log(lines: Seq<Line>, i: int)
    requires
        0 <= i < lines.len(),
    ensures
        lines[i] matches Line::Text { text, parsed: Some(r) } ==> r.sequence <= highest(lines),
    decreases lines.len(),
{
    if i < lines.len() - 1 {
        law_numbers_go_on_above_the_log(lines.drop_last(), i);
    }
}

/// Reopening a log that was appended to without a failure goes on from the
/// last number.
pub proof fn law_reopened_log_continues(lines: Seq<Line>, first: u64)
    requires
        first + lines.len() <= u64::MAX,
        forall|i: int|
            0 <= i < lines.len() ==> ((#[trigger] lines[i]) matches Line::Text {
                text,
                parsed: Some(r),
            } && r.sequence == first + i + 1),
    ensures
        lines.len() > 0 ==> highest(lines) == first + lines.len(),
        lines.len() == 0 ==> highest(lines) == 0,
    decreases lines.len(),
{
    if lines.len() > 0 {
        let init = lines.drop_last();
        assert forall|i: int| 0 <= i < init.len() implies ((#[trigger] init[i]) matches Line::Text {
            text,
            parsed: Some(r),
        } && r.sequence == first + i + 1) by {
            assert(init[i] == lines[i]);
        }
        law_reopened_log_continues(init, first);
        assert(lines.last() == lines[lines.len() - 1]);
    }
}

/// The value of the last write to a key.
pub open spec fn last_write(entries: Seq<Record>, key: Seq<char>) -> Option<Version>
    decreases entries.len(),
{
    if entries.len() == 0 {
        None
    } else if entries.last().key == key {
        Some(entries.last().value)
    } else {
        last_write(entries.drop_last(), key)
    }
}

/// After a replay a key holds what was last written to it in the log; a key
/// that the log does not write holds what it held.
pub proof fn law_last_write_wins(
    table: Map<Seq<char>, Version>,
    entries: Seq<Record>,
    key: Seq<char>,
)
    ensures
        stored(applied(table, entries), key) == match last_write(entries, key) {
            Some(v) => Some(v),
            None => stored(table, key),
        },
    decreases entries.len(),
{
    if entries.len() > 0 {
        law_last_write_wins(table, entries.drop_last(), key);
    }
}

/// A write whose entry reached the log is there after recovery, on top of
/// what was recovered without it.
pub proof fn law_logged_write_is_recovered(
    snapshot: Map<Seq<char>, Version>,
    lines: Seq<Line>,
    text: Seq<char>,
    sequence: u64,
    key: Seq<char>,
    value: Version,
)
    requires
        !blank(text),
    ensures
        ({
            let line = Line::Text { text, parsed: Some(record(sequence, key, value)) };
            applied(snapshot, replayed(lines.push(line))) == applied(
                snapshot,
                replayed(lines),
            ).insert(key, value)
        }),
{
    let r = record(sequence, key, value);
    let line = Line::Text { text, parsed: Some(r) };
    assert(lines.push(line).drop_last() =~= lines);
    assert(replayed(lines.push(line)) == replayed(lines).push(r));
    assert(replayed(lines).push(r).drop_last() =~= replayed(lines));
}

/// Writing entries one after the other is writing some and then the rest.
proof fn lemma_applied_joined(table: Map<Seq<char>, Version>, a: Seq<Record>, b: Seq<Record>)
    ensures
        applied(table, a + b) == applied(applied(table, a), b),
    decreases b.len(),
{
    if b.len() == 0 {
        assert(a + b =~= a);
    } else {
        assert((a + b).drop_last() =~= a + b.drop_last());
        lemma_applied_joined(table, a, b.drop_last());
    }
}

/// After any number of writes that were each logged and committed, recovery
/// gives back the table as it was: `lines` are those that the engine was opened
/// over, and `logged` the lines of the writes since.
pub proof fn law_recovery_gives_back_the_table(
    snapshot: Map<Seq<char>, Version>,
    lines: Seq<Line>,
    logged: Seq<Line>,
    writes: Seq<Record>,
)
    requires
        logged.len() == writes.len(),
        forall|i: int|
            0 <= i < logged.len() ==> recovered(#[trigger] logged[i]) == Some(writes[i]),
    ensures
        applied(snapshot, replayed(lines + logged)) == applied(
            applied(snapshot, replayed(lines)),
            writes,
        ),
{
    law_replay_of_joined_logs(lines, logged);
    law_intact_log_is_replayed(logged, writes);
    lemma_applied_joined(snapshot, replayed(lines), writes);
}

/// An appended entry is replayed: a log with the line of a new entry at its end
/// gives the entries that it gave before and then the new one, with no corrupt
/// line more, and goes on from the new number. The line's text starts with a
/// brace, as that of every JSON object does.
pub proof fn law_appended_entry_is_replayed(
    lines: Seq<Line>,
    text: Seq<char>,
    last: u64,
    key: Seq<char>,
    value: Version,
)
    requires
        last < u64::MAX,
        text.len() > 0,
        text[0] == '{',
    ensures
        ({
            let entry = record((last + 1) as u64, key, value);
            let after = lines.push(Line::Text { text, parsed: Some(entry) });
            &&& replayed(after) == replayed(lines).push(entry)
            &&& corrupt_lines(after) == corrupt_lines(lines)
            &&& highest(lines) <= last ==> highest(after) == last + 1
        }),
{
    let entry = record((last + 1) as u64, key, value);
    let line = Line::Text { text, parsed: Some(entry) };
    let after = lines.push(line);
    assert(!white_space(text[0]));
    assert(recovered(line) == Some(entry));
    assert(after.drop_last() =~= lines);
    lemma_filter_step(after, lines.len() as int, |line: Line| corrupt(line));
    assert(after.take(lines.len() as int) =~= lines);
    assert(after.take(lines.len() as int + 1) =~= after);
}

/// After a flush, when the log is empty, recovery gives back the table that
/// was flushed.
pub proof fn law_flushed_table_is_recovered(table: Map<Seq<char>, Version>)
    ensures
        applied(table, replayed(Seq::empty())) == table,
{
}

/// Where the log was not yet emptied after a flush, replaying it on top of the
/// flushed table gives that table again.
pub proof fn law_replay_over_flushed_table_changes_nothing(
    snapshot: Map<Seq<char>, Version>,
    entries: Seq<Record>,
)
    ensures
        applied(applied(snapshot, entries), entries) == applied(snapshot, entries),
{
    let once = applied(snapshot, entries);
    let twice = applied(once, entries);
    assert forall|key: Seq<char>| #[trigger] stored(twice, key) == stored(once, key) by {
        law_last_write_wins(snapshot, entries, key);
        law_last_write_wins(once, entries, key);
    }
    lemma_same_stored(twice, once);
}

/// Tables that store the same under every key are the same.
proof fn lemma_same_stored(a: Map<Seq<char>, Version>, b: Map<Seq<char>, Version>)
    requires
        forall|key: Seq<char>| #[trigger] stored(a, key) == stored(b, key),
    ensures
        a == b,
{
    assert forall|key: Seq<char>| #[trigger] a.dom().contains(key) == b.dom().contains(key) by {
        assert(stored(a, key) == stored(b, key));
    }
    assert forall|key: Seq<char>| #[trigger] a.dom().contains(key) implies a[key] == b[key] by {
        assert(stored(a, key) == stored(b, key));
    }
    assert(a =~= b);
}

/// Evicting what has expired, flushing the rest and replaying a log that was
/// not yet emptied changes no later read, though evicted entries come back.
pub proof fn law_recovery_after_eviction_keeps_reads(
    rows: Seq<(Seq<char>, Version)>,
    snapshot: Map<Seq<char>, Version>,
    entries: Seq<Record>,
    evicted_at: i64,
    key: Seq<char>,
    now: i64,
)
    requires
        keys_increase(rows),
        as_map(rows) == applied(snapshot, entries),
        evicted_at <= now,
    ensures
        lookup(applied(as_map(unexpired(rows, evicted_at)), entries), key, now) == lookup(
            as_map(rows),
            key,
            now,
        ),
{
    let flushed = as_map(unexpired(rows, evicted_at));
    let again = applied(flushed, entries);
    law_last_write_wins(snapshot, entries, key);
    law_last_write_wins(flushed, entries, key);
    law_eviction_removes_the_expired(rows, evicted_at, key);
    assert(lookup(again, key, now) == match stored(again, key) {
        Some(v) => if !expired(v, now) && !v.deleted {
            Some(v)
        } else {
            None
        },
        None => None,
    });
    if let Some(v) = stored(as_map(rows), key) {
        law_expiry_is_final(v, evicted_at, now);
    }
}

/// Loading a snapshot file gives back the payload that was saved in it.
pub proof fn law_saved_payload_is_loaded(payload: Seq<u8>)
    ensures
        unframed(framed(payload)) == Ok::<Seq<u8>, SnapshotError>(payload),
{
    vstd::bytes::lemma_auto_spec_u32_to_from_le_bytes();
    let sum = vstd::bytes::spec_u32_to_le_bytes(crate::digest::crc32(payload));
    assert(framed(payload).take(4) =~= sum);
    assert(framed(payload).skip(4) =~= payload);
}

/// Only what saving writes can be loaded: a file that gives a payload is the
/// file that saving that payload writes.
pub proof fn law_only_saved_files_are_loaded(bytes: Seq<u8>)
    ensures
        unframed(bytes) matches Ok(payload) ==> bytes == framed(payload),
        unframed(bytes) is Err <==> !exists|payload: Seq<u8>| bytes == #[trigger] framed(payload),
{
    vstd::bytes::lemma_auto_spec_u32_to_from_le_bytes();
    if let Ok(payload) = unframed(bytes) {
        let expected = vstd::bytes::spec_u32_from_le_bytes(bytes.take(4));
        assert(vstd::bytes::spec_u32_to_le_bytes(expected) == bytes.take(4));
        assert(bytes =~= framed(payload));
    }
    if exists|payload: Seq<u8>| bytes == #[trigger] framed(payload) {
        let payload = choose|payload: Seq<u8>| bytes == #[trigger] framed(payload);
        law_saved_payload_is_loaded(payload);
    }
}

/// The latest snapshot is one of the directory's snapshot files, and none of
/// them is newer; there is one as soon as there is a snapshot file.
pub proof fn law_latest_is_the_newest(names: Seq<Seq<char>>, other: Seq<char>)
    ensures
        latest(names) matches Some(name) ==> names.contains(name) && is_snapshot(name),
        names.contains(other) && is_snapshot(other) ==> (latest(names) matches Some(name)
            && !older(name, other)),
{
    lemma_by_age(names);
    let list = by_age(names);
    if list.len() > 0 {
        assert(list.contains(list.last()));
    }
    if names.contains(other) && is_snapshot(other) {
        assert(list.contains(other));
        let i = choose|i: int| 0 <= i < list.len() && list[i] == other;
        if i < list.len() - 1 {
            assert(!older(list[list.len() - 1], list[i]));
        } else {
            crate::text::lemma_key_lt_irreflexive(other);
        }
    }
}

/// Of two saved snapshots the one that was saved earlier is the older one.
pub proof fn law_saved_snapshots_go_by_time(a: u64, b: u64)
    ensures
        older(snapshot_name(a), snapshot_name(b)) <==> a < b,
{
    lemma_saved_name(a);
    lemma_saved_name(b);
    crate::text::lemma_key_lt_irreflexive(snapshot_name(a));
}

/// Snapshot files go by the byte order of their names, unless what follows the
/// prefix starts with a digit in both and the numbers there differ.
pub proof fn law_other_names_go_by_bytes(a: Seq<char>, b: Seq<char>)
    requires
        is_snapshot(a),
        is_snapshot(b),
        stamp_rank(a) == 1 && stamp_rank(b) == 1 ==> time_told(a) == time_told(b),
    ensures
        older(a, b) <==> key_lt(a, b),
{
    lemma_snapshot_name(a);
    lemma_snapshot_name(b);
    if stamp_rank(a) < stamp_rank(b) {
        lemma_key_lt_at("snapshot_"@, stamp(a), stamp(b));
    } else if stamp_rank(b) < stamp_rank(a) {
        lemma_key_lt_at("snapshot_"@, stamp(b), stamp(a));
        lemma_key_lt_antisymmetric(b, a);
    }
}

/// A snapshot that is saved at a time after those that all others in the
/// directory tell is the one that is loaded, where none of the others has a
/// name that comes after all that start with a digit behind the prefix.
pub proof fn law_last_saved_is_loaded(names: Seq<Seq<char>>, time_ms: u64)
    requires
        forall|name: Seq<char>|
            #![trigger names.contains(name)]
            names.contains(name) && is_snapshot(name) ==> stamp_rank(name) == 0 || (stamp_rank(name)
                == 1 && time_told(name) < time_ms),
    ensures
        latest(names.push(snapshot_name(time_ms))) == Some(snapshot_name(time_ms)),
{
    let own = snapshot_name(time_ms);
    let all = names.push(own);
    lemma_saved_name(time_ms);
    assert(all[names.len() as int] == own);
    assert(all.contains(own));
    law_latest_is_the_newest(all, own);
    let name = latest(all)->0;
    let i = choose|i: int| 0 <= i < all.len() && all[i] == name;
    if i < names.len() {
        assert(names[i] == name);
        assert(names.contains(name));
    }
}

/// A clean-up removes as many snapshots as are too many, keeps the rest, and
/// removes only snapshots that are older than every snapshot it keeps.
pub proof fn law_cleanup_removes_the_oldest(
    names: Seq<Seq<char>>,
    keep: nat,
    removed: Seq<char>,
    kept: Seq<char>,
)
    ensures
        surplus(names, keep).len() == if snapshots_in(names).len() > keep {
            (snapshots_in(names).len() - keep) as nat
        } else {
            0
        },
        surplus(names, keep).contains(removed) ==> names.contains(removed) && is_snapshot(removed),
        surplus(names, keep).contains(removed) && names.contains(kept) && is_snapshot(kept)
            && !surplus(names, keep).contains(kept) ==> older(removed, kept),
{
    broadcast use vstd::seq_lib::group_to_multiset_ensures;

    let list = by_age(names);
    let gone = surplus(names, keep);
    lemma_by_age(names);
    if gone.contains(removed) {
        let i = choose|i: int| 0 <= i < gone.len() && gone[i] == removed;
        assert(list[i] == removed);
        assert(list.contains(removed));
        if names.contains(kept) && is_snapshot(kept) && !gone.contains(kept) {
            assert(list.contains(kept));
            let j = choose|j: int| 0 <= j < list.len() && list[j] == kept;
            if j < gone.len() {
                assert(gone[j] == kept);
                assert(false);
            }
            assert(!older(list[j], list[i]));
            if !older(removed, kept) {
                lemma_equal_age(removed, kept);
                assert(gone.contains(kept));
            }
        }
    }
}

/// A clean-up that keeps at least one snapshot keeps the latest.
pub proof fn law_cleanup_keeps_the_latest(names: Seq<Seq<char>>, keep: nat)
    requires
        names.no_duplicates(),
        keep > 0,
    ensures
        latest(names) matches Some(name) ==> !surplus(names, keep).contains(name),
{
    let list = by_age(names);
    let gone = surplus(names, keep);
    lemma_by_age(names);
    if list.len() > 0 && gone.contains(list.last()) {
        let i = choose|i: int| 0 <= i < gone.len() && gone[i] == list.last();
        assert(list[i] == list[list.len() - 1]);
        lemma_by_age_distinct(names);
        assert(i == list.len() - 1);
        assert(false);
    }
}

/// The names of a list by age differ where those of the directory do.
proof fn lemma_by_age_distinct(names: Seq<Seq<char>>)
    requires
        names.no_duplicates(),
    ensures
        by_age(names).no_duplicates(),
{
    let snaps = snapshots_in(names);
    lemma_filter_no_duplicates(names, |name: Seq<char>| is_snapshot(name));
    snaps.lemma_multiset_has_no_duplicates();
    crate::storage::snapshot::lemma_by_age_multiset(names);
    by_age(names).lemma_multiset_has_no_duplicates_conv();
}

/// A log entry has the number, the key and the value that were given, and the
/// checksum over its number, the bytes of its key and of its value, and its
/// timestamp; it is intact just if its checksum is that one.
pub proof fn law_entry_carries_its_fields(sequence: u64, key: Seq<char>, value: Version, r: Record)
    ensures
        record(sequence, key, value).sequence == sequence,
        record(sequence, key, value).key == key,
        record(sequence, key, value).value == value,
        record(sequence, key, value).checksum == crc32(
            spec_u64_to_le_bytes(sequence) + encode_utf8(key) + value.value
                + spec_u64_to_le_bytes(value.timestamp_ms as u64),
        ),
        covered(sequence, key, value) == spec_u64_to_le_bytes(sequence) + encode_utf8(key)
            + value.value + spec_u64_to_le_bytes(value.timestamp_ms as u64),
        checksum_of(sequence, key, value) == record(sequence, key, value).checksum,
        intact(r) <==> r.checksum == record(r.sequence, r.key, r.value).checksum,
{
}

/// Log entries and lines are seen as they are, in order.
pub proof fn law_log_is_seen_as_it_is(
    entry: WalEntry,
    text: String,
    entries: Seq<WalEntry>,
    lines: Seq<LogLine>,
    i: int,
)
    ensures
        entry@.sequence == entry.sequence,
        entry@.key == entry.key@,
        entry@.value == entry.value@,
        entry@.checksum == entry.checksum,
        LogLine::Unreadable@ == Line::Unreadable,
        (LogLine::Text { text, parsed: None })@ == (Line::Text { text: text@, parsed: None }),
        (LogLine::Text { text, parsed: Some(entry) })@ == (Line::Text {
            text: text@,
            parsed: Some(entry@),
        }),
        (LogLine::Text { text, parsed: Some(entry) }).sum() == record(
            entry.sequence,
            entry.key@,
            entry.value@,
        ).checksum,
        records_of(entries).len() == entries.len(),
        0 <= i < entries.len() ==> records_of(entries)[i] == entries[i]@,
        lines_of(lines).len() == lines.len(),
        0 <= i < lines.len() ==> lines_of(lines)[i] == lines[i]@,
{
}

/// Recovery takes an entry from a line just if the line has a text that is not
/// blank and parses as that entry, and the entry carries the checksum of its
/// fields. A line with such a text that gives no entry is corrupt; one that
/// cannot be read or is blank is not.
pub proof fn law_line_gives_an_intact_entry(line: Line, r: Record)
    ensures
        recovered(line) == Some(r) <==> (line matches Line::Text { text, parsed }
            && (exists|i: int| 0 <= i < text.len() && !white_space(#[trigger] text[i])) && parsed
            == Some(r) && r.checksum == crc32(
            spec_u64_to_le_bytes(r.sequence) + encode_utf8(r.key) + r.value.value
                + spec_u64_to_le_bytes(r.value.timestamp_ms as u64),
        )),
        corrupt(line) <==> (line matches Line::Text { text, parsed } && (exists|i: int|
            0 <= i < text.len() && !white_space(#[trigger] text[i])) && match parsed {
            None => true,
            Some(e) => e.checksum != crc32(
                spec_u64_to_le_bytes(e.sequence) + encode_utf8(e.key) + e.value.value
                    + spec_u64_to_le_bytes(e.value.timestamp_ms as u64),
            ),
        }),
{
    if let Line::Text { text, parsed } = line {
        assert(blank(text) <==> !exists|i: int|
            0 <= i < text.len() && !white_space(#[trigger] text[i]));
    }
}

/// A replay gives the entry of each line that has one, in the order of the
/// lines, and counts each corrupt line.
pub proof fn law_replay_goes_line_by_line(lines: Seq<Line>, line: Line)
    ensures
        replayed(Seq::empty()) == Seq::<Record>::empty(),
        recovered(line) matches Some(r) ==> replayed(lines.push(line)) == replayed(lines).push(r),
        recovered(line) is None ==> replayed(lines.push(line)) == replayed(lines),
        corrupt_lines(Seq::empty()) == 0,
        corrupt(line) ==> corrupt_lines(lines.push(line)) == corrupt_lines(lines) + 1,
        !corrupt(line) ==> corrupt_lines(lines.push(line)) == corrupt_lines(lines),
{
    reveal(Seq::filter);
    assert(lines.push(line).drop_last() =~= lines);
}

/// The number that a log goes on from is that of one of its entries, or zero;
/// none of its entries has a higher one.
pub proof fn law_log_goes_on_from_its_highest_number(lines: Seq<Line>)
    ensures
        highest(lines) == 0 || exists|i: int|
            0 <= i < lines.len() && ((#[trigger] lines[i]) matches Line::Text {
                text,
                parsed: Some(r),
            } && r.sequence == highest(lines)),
        forall|i: int|
            0 <= i < lines.len() ==> ((#[trigger] lines[i]) matches Line::Text {
                text,
                parsed: Some(r),
            } ==> r.sequence <= highest(lines)),
    decreases lines.len(),
{
    assert forall|i: int| 0 <= i < lines.len() implies ((#[trigger] lines[i]) matches Line::Text {
        text,
        parsed: Some(r),
    } ==> r.sequence <= highest(lines)) by {
        law_numbers_go_on_above_the_log(lines, i);
    }
    if lines.len() > 0 {
        let init = lines.drop_last();
        law_log_goes_on_from_its_highest_number(init);
        assert(lines[lines.len() - 1] == lines.last());
        if highest(lines) == highest(init) && highest(lines) != 0 {
            let i = choose|i: int|
                0 <= i < init.len() && ((#[trigger] init[i]) matches Line::Text {
                    text,
                    parsed: Some(r),
                } && r.sequence == highest(init));
            assert(lines[i] == init[i]);
        }
    }
}

/// After a replay a key holds the value of the last entry that writes it; a key
/// that no entry writes holds what it held before.
pub proof fn law_replay_leaves_the_last_write(
    table: Map<Seq<char>, Version>,
    entries: Seq<Record>,
    key: Seq<char>,
    last: int,
)
    ensures
        0 <= last < entries.len() && entries[last].key == key && (forall|i: int|
            last < i < entries.len() ==> (#[trigger] entries[i]).key != key) ==> applied(
            table,
            entries,
        ).contains_key(key) && applied(table, entries)[key] == entries[last].value,
        (forall|i: int| 0 <= i < entries.len() ==> (#[trigger] entries[i]).key != key) ==> applied(
            table,
            entries,
        ).contains_key(key) == table.contains_key(key) && applied(table, entries)[key]
            == table[key],
    decreases entries.len(),
{
    if entries.len() > 0 {
        let init = entries.drop_last();
        let n = entries.len() - 1;
        law_replay_leaves_the_last_write(table, init, key, last);
        assert(entries[n] == entries.last());
        assert forall|i: int| 0 <= i < n implies (#[trigger] init[i]) == entries[i] by {}
    }
}

/// A snapshot file is the checksum of the payload in four bytes and then the
/// payload.
pub proof fn law_file_is_checksum_and_payload(payload: Seq<u8>)
    ensures
        framed(payload).len() == payload.len() + 4,
        framed(payload).take(4) == spec_u32_to_le_bytes(crc32(payload)),
        framed(payload).skip(4) == payload,
{
    vstd::bytes::lemma_auto_spec_u32_to_from_le_bytes();
    assert(framed(payload).take(4) =~= spec_u32_to_le_bytes(crc32(payload)));
    assert(framed(payload).skip(4) =~= payload);
}

/// A snapshot file is loaded just if its first four bytes are the checksum of
/// the rest, which is then the payload. One of fewer bytes is too short, and
/// every other is refused with both checksums.
pub proof fn law_file_is_loaded_by_its_checksum(bytes: Seq<u8>, actual: u32)
    ensures
        ({
            let expected = spec_u32_from_le_bytes(bytes.take(4));
            &&& bytes.len() < 4 ==> unframed_with(bytes, actual) == Err::<Seq<u8>, SnapshotError>(
                SnapshotError::TooShort,
            )
            &&& bytes.len() >= 4 && expected == actual ==> unframed_with(bytes, actual) == Ok::<
                Seq<u8>,
                SnapshotError,
            >(bytes.skip(4))
            &&& bytes.len() >= 4 && expected != actual ==> unframed_with(bytes, actual) == Err::<
                Seq<u8>,
                SnapshotError,
            >(SnapshotError::ChecksumMismatch { expected, actual })
            &&& unframed(bytes) == unframed_with(bytes, crc32(bytes.skip(4)))
        }),
{
}

/// What is loaded is seen as it is, and so are the names of files.
pub proof fn law_files_are_seen_as_they_are(
    payload: Vec<u8>,
    error: SnapshotError,
    files: Seq<SnapshotFile>,
    i: int,
)
    ensures
        payload_of(Ok(payload)) == Ok::<Seq<u8>, SnapshotError>(payload@),
        payload_of(Err(error)) == Err::<Seq<u8>, SnapshotError>(error),
        names_of(files).len() == files.len(),
        0 <= i < files.len() ==> names_of(files)[i] == files[i].name@,
{
}

/// An error names both checksums.
pub proof fn law_error_tells_both_checksums(expected: u32, actual: u32)
    ensures
        SnapshotError::TooShort.words() == "failed to fill whole buffer"@,
        (SnapshotError::ChecksumMismatch { expected, actual }).words()
            == "Snapshot checksum mismatch: expected "@ + decimal(expected as nat) + ", got "@
            + decimal(actual as nat),
{
}

/// Snapshot files are those whose name is the prefix, anything, and the
/// extension; a saved one has the time between them.
pub proof fn law_snapshot_files_go_by_prefix_and_extension(name: Seq<char>, time_ms: u64)
    ensures
        is_snapshot(name) <==> exists|middle: Seq<char>|
            name == #[trigger] ("snapshot_"@ + middle + ".dat"@),
        snapshot_name(time_ms) == "snapshot_"@ + decimal(time_ms as nat) + ".dat"@,
{
    reveal_strlit("snapshot_");
    reveal_strlit(".dat");
    if is_snapshot(name) {
        lemma_snapshot_name(name);
        let middle = name.subrange(9, name.len() - 4);
        assert(name =~= "snapshot_"@ + middle + ".dat"@);
    }
    if exists|middle: Seq<char>| name == #[trigger] ("snapshot_"@ + middle + ".dat"@) {
        let middle = choose|middle: Seq<char>|
            name == #[trigger] ("snapshot_"@ + middle + ".dat"@);
        assert("snapshot_"@ =~= name.subrange(0, 9));
        assert(".dat"@ =~= name.subrange(name.len() - 4, name.len() as int));
    }
}

/// Where digits follow the prefix in both names, the file with the smaller
/// number is the older one, whatever follows the digits.
pub proof fn law_numbered_files_go_by_number(
    a: Seq<char>,
    b: Seq<char>,
    behind_a: Seq<char>,
    behind_b: Seq<char>,
)
    requires
        all_digits(a),
        all_digits(b),
        a.len() > 0,
        b.len() > 0,
        behind_a.len() > 0 ==> !('0' <= behind_a[0] <= '9'),
        behind_b.len() > 0 ==> !('0' <= behind_b[0] <= '9'),
        number(a) < number(b),
    ensures
        older("snapshot_"@ + a + behind_a, "snapshot_"@ + b + behind_b),
        !older("snapshot_"@ + b + behind_b, "snapshot_"@ + a + behind_a),
{
    lemma_numbered(a, behind_a);
    lemma_numbered(b, behind_b);
}

/// A name with digits behind the prefix tells their number.
proof fn lemma_numbered(digits: Seq<char>, behind: Seq<char>)
    requires
        all_digits(digits),
        digits.len() > 0,
        behind.len() > 0 ==> !('0' <= behind[0] <= '9'),
    ensures
        stamp_rank("snapshot_"@ + digits + behind) == 1,
        time_told("snapshot_"@ + digits + behind) == number(digits),
{
    reveal_strlit("snapshot_");
    let name = "snapshot_"@ + digits + behind;
    let rest = stamp(name);
    let n = digits.len() as int;
    assert(rest =~= digits + behind);
    assert(rest.take(n) =~= digits);
    assert(rest[0] == digits[0]);
    if n < rest.len() {
        assert(rest[n] == behind[0]);
    }
    lemma_digit_run(rest, n);
}

/// Snapshot files of which at least one has no digit behind the prefix go by
/// the byte order of their names.
pub proof fn law_unnumbered_files_go_by_bytes(a: Seq<char>, b: Seq<char>)
    requires
        is_snapshot(a),
        is_snapshot(b),
        !('0' <= a[9] <= '9') || !('0' <= b[9] <= '9'),
    ensures
        older(a, b) <==> key_lt(a, b),
{
    lemma_snapshot_name(a);
    lemma_snapshot_name(b);
    reveal_strlit("snapshot_");
    assert(stamp(a)[0] == a[9]);
    assert(stamp(b)[0] == b[9]);
    law_other_names_go_by_bytes(a, b);
}

/// Files of the same number go by the byte order of their names.
pub proof fn law_files_of_one_number_go_by_bytes(
    a: Seq<char>,
    b: Seq<char>,
    behind_a: Seq<char>,
    behind_b: Seq<char>,
)
    requires
        all_digits(a),
        all_digits(b),
        a.len() > 0,
        b.len() > 0,
        behind_a.len() > 0 ==> !('0' <= behind_a[0] <= '9'),
        behind_b.len() > 0 ==> !('0' <= behind_b[0] <= '9'),
        number(a) == number(b),
    ensures
        older("snapshot_"@ + a + behind_a, "snapshot_"@ + b + behind_b) <==> key_lt(
            "snapshot_"@ + a + behind_a,
            "snapshot_"@ + b + behind_b,
        ),
{
    lemma_numbered(a, behind_a);
    lemma_numbered(b, behind_b);
}

/// The list by age holds each snapshot file of the directory as often as the
/// directory does, and no other, with none before an older one. The latest is
/// its last, and what a clean-up removes is its beginning.
pub proof fn law_files_are_listed_by_age(names: Seq<Seq<char>>, keep: nat, i: int, j: int)
    ensures
        ({
            let list = by_age(names);
            let gone = surplus(names, keep);
            &&& list.to_multiset() == names.filter(
                |name: Seq<char>| is_snapshot(name),
            ).to_multiset()
            &&& list.len() == names.filter(|name: Seq<char>| is_snapshot(name)).len()
            &&& 0 <= i < j < list.len() ==> !older(list[j], list[i])
            &&& latest(names) is None <==> list.len() == 0
            &&& list.len() > 0 ==> latest(names) == Some(list[list.len() - 1])
            &&& gone.len() == if list.len() > keep {
                (list.len() - keep) as nat
            } else {
                0
            }
            &&& 0 <= i < gone.len() ==> gone[i] == list[i]
        }),
{
    lemma_by_age(names);
    crate::storage::snapshot::lemma_by_age_multiset(names);
    if 0 <= i < j < by_age(names).len() {
        assert(!older(by_age(names)[j], by_age(names)[i]));
    }
}

/// A path in a directory is the directory and the name, with one slash between
/// them unless the directory ends with one or is empty.
pub proof fn law_paths_join_with_one_slash(dir: Seq<char>, name: Seq<char>)
    ensures
        dir.len() == 0 ==> joined(dir, name) == name,
        dir.len() > 0 && dir[dir.len() - 1] == '/' ==> joined(dir, name) == dir + name,
        dir.len() > 0 && dir[dir.len() - 1] != '/' ==> joined(dir, name) == dir + seq!['/'] + name,
{
    reveal_strlit("/");
    assert("/"@ =~= seq!['/']);
    assert(Seq::<char>::empty() + name =~= name);
    if dir.len() == 0 {
        assert(dir + name =~= name);
    }
}

/// Recovery starts from what the snapshot holds under each key, or from
/// nothing.
pub proof fn law_recovery_starts_from_the_snapshot(data: StrMap<VersionedValue>, key: Seq<char>)
    requires
        keys_increase(data.pairs()),
    ensures
        snapshot_table(None) == Map::<Seq<char>, Version>::empty(),
        snapshot_table(Some(data)).contains_key(key) == data@.contains_key(key),
        data@.contains_key(key) ==> snapshot_table(Some(data))[key] == data@[key]@,
{
    lemma_views(data.pairs());
}

/// The version that a put writes holds just the value, the time to live and
/// the time that were given, and is no tombstone. Its clock counts at least one
/// event of the node, and of every node as many as the version that it
/// replaces.
pub proof fn law_put_writes_what_was_given(
    table: Map<Seq<char>, Version>,
    key: Seq<char>,
    value: Seq<u8>,
    node: Seq<char>,
    ttl_ms: i64,
    now: i64,
    other: Seq<char>,
)
    ensures
        ({
            let v = overwriting(table, key, value, node, ttl_ms, now);
            &&& v.value == value
            &&& v.ttl_ms == ttl_ms
            &&& v.timestamp_ms == now
            &&& !v.deleted
            &&& v.clock.contains_key(node)
            &&& table.contains_key(key) && table[key].clock.contains_key(node)
                && table[key].clock[node] > 1 ==> v.clock[node] == table[key].clock[node]
            &&& !(table.contains_key(key) && table[key].clock.contains_key(node)
                && table[key].clock[node] > 1) ==> v.clock[node] == 1
            &&& other != node ==> v.clock.contains_key(other) == (table.contains_key(key)
                && table[key].clock.contains_key(other))
            &&& other != node && v.clock.contains_key(other) ==> v.clock[other]
                == table[key].clock[other]
        }),
{
}

/// A read after a put gives back the bytes that were put, until the time to
/// live has passed since the put, and from then on nothing; other keys read as
/// before.
pub proof fn law_put_is_read_back(
    table: Map<Seq<char>, Version>,
    key: Seq<char>,
    value: Seq<u8>,
    node: Seq<char>,
    ttl_ms: i64,
    put_at: i64,
    read_at: i64,
    other: Seq<char>,
)
    ensures
        ({
            let v = overwriting(table, key, value, node, ttl_ms, put_at);
            let after = table.insert(key, v);
            &&& ttl_ms <= 0 || read_at - put_at <= ttl_ms ==> (lookup(after, key, read_at)
                matches Some(found) && found.value == value)
            &&& ttl_ms > 0 && read_at - put_at > ttl_ms ==> lookup(after, key, read_at) is None
            &&& other != key ==> lookup(after, other, read_at) == lookup(table, other, read_at)
        }),
{
}

/// A deletion can be written just where the log has a number left and the
/// key's clock an event of this node.
pub proof fn law_deletion_needs_a_number_and_a_count(engine: StorageEngine, key: Seq<char>)
    ensures
        engine.deletable(key) <==> engine.last() < u64::MAX && !(engine@.contains_key(key)
            && engine@[key].clock.contains_key(engine.settings().node_id@)
            && engine@[key].clock[engine.settings().node_id@] == u64::MAX),
{
}

/// A table and an engine hold what their rows list, and engines of the same
/// setup agree in all but their rows and their last number.
pub proof fn law_engine_holds_its_rows(
    table: MemTable,
    engine: StorageEngine,
    other: StorageEngine,
)
    ensures
        table@ == as_map(table.rows()),
        engine@ == as_map(engine.rows()),
        engine.same_setup(&other) <==> {
            &&& engine.settings() == other.settings()
            &&& engine.max_size() == other.max_size()
            &&& engine.log_file() == other.log_file()
            &&& engine.snapshot_place() == other.snapshot_place()
        },
{
}

} // verus!

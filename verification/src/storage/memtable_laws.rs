//! What holds of vector clocks and tables across several operations.

use vstd::prelude::*;
use vstd::std_specs::cmp::PartialEqSpec;
use vstd::utf8::encode_utf8;

use crate::storage::memtable::{
    clock_after, clock_at, count, counter, covers, expired, fresh, incremented, live, lookup,
    merged, row_size, rows_in, rows_of, scanned, stored, tomb, total_size, unexpired, version_of,
    Version, VersionedValue,
};
use crate::str_map::{as_map, keys_increase, lemma_as_map_at, lemma_filter_keys_increase};
use crate::text::{key_le, key_lt};

verus! {

/// "Causally after" is a strict partial order: no clock is after itself, two
/// clocks are not after each other, and what is after a later clock is after
/// an earlier one.
pub proof fn law_after_is_a_strict_order(
    a: Map<Seq<char>, u64>,
    b: Map<Seq<char>, u64>,
    c: Map<Seq<char>, u64>,
)
    ensures
        !clock_after(a, a),
        clock_after(a, b) ==> !clock_after(b, a),
        clock_after(a, b) && clock_after(b, c) ==> clock_after(a, c),
{
    if clock_after(a, b) {
        let node = choose|node: Seq<char>| #[trigger] count(b, node) < count(a, node);
        if clock_after(b, a) {
            assert(count(a, node) <= count(b, node));
        }
        if clock_after(b, c) {
            assert(count(c, node) <= count(b, node));
            assert(count(c, node) < count(a, node));
            assert forall|n: Seq<char>| #[trigger] count(c, n) <= count(a, n) by {
                assert(count(c, n) <= count(b, n));
                assert(count(b, n) <= count(a, n));
            }
        }
    }
}

/// Of two clocks, at most one of these holds: the first is after the second,
/// the second is after the first, they are the same.
pub proof fn law_clocks_compare_one_way(a: Map<Seq<char>, u64>, b: Map<Seq<char>, u64>)
    ensures
        !(clock_after(a, b) && clock_after(b, a)),
        a == b ==> !clock_after(a, b) && !clock_after(b, a),
{
    law_after_is_a_strict_order(a, b, a);
}

/// A clock that counts one more event is after the clock that it was.
pub proof fn law_increment_is_after(clock: Map<Seq<char>, u64>, node: Seq<char>)
    requires
        count(clock, node) < u64::MAX,
    ensures
        clock_after(incremented(clock, node), clock),
        forall|other: Seq<char>|
            other != node ==> #[trigger] count(incremented(clock, node), other) == count(
                clock,
                other,
            ),
{
    let next = incremented(clock, node);
    assert(count(clock, node) < count(next, node));
    assert forall|n: Seq<char>| #[trigger] count(clock, n) <= count(next, n) by {
        if n == node {
            assert(next[n] == (count(clock, node) + 1) as u64);
        }
    }
}

/// A merged clock covers both clocks, and every clock that covers both covers
/// it: it is their least upper bound.
pub proof fn law_merge_is_the_least_upper_bound(
    a: Map<Seq<char>, u64>,
    b: Map<Seq<char>, u64>,
    c: Map<Seq<char>, u64>,
)
    ensures
        covers(merged(a, b), a),
        covers(merged(a, b), b),
        covers(c, a) && covers(c, b) ==> covers(c, merged(a, b)),
{
    let m = merged(a, b);
    assert forall|n: Seq<char>| #[trigger] count(m, n) == if count(a, n) < count(b, n) {
        count(b, n)
    } else {
        count(a, n)
    } by {}
    assert forall|n: Seq<char>| #[trigger] count(a, n) <= count(m, n) by {
        assert(count(m, n) >= count(a, n));
    }
    assert forall|n: Seq<char>| #[trigger] count(b, n) <= count(m, n) by {
        assert(count(m, n) >= count(b, n));
    }
    if covers(c, a) && covers(c, b) {
        assert forall|n: Seq<char>| #[trigger] count(m, n) <= count(c, n) by {
            assert(count(a, n) <= count(c, n));
            assert(count(b, n) <= count(c, n));
        }
    }
}

/// Merging does not depend on order or grouping, and merging a clock into
/// itself changes nothing.
pub proof fn law_merge_is_order_free(
    a: Map<Seq<char>, u64>,
    b: Map<Seq<char>, u64>,
    c: Map<Seq<char>, u64>,
)
    ensures
        merged(a, b) == merged(b, a),
        merged(merged(a, b), c) == merged(a, merged(b, c)),
        merged(a, a) == a,
{
    assert(merged(a, b) =~= merged(b, a));
    assert(merged(merged(a, b), c) =~= merged(a, merged(b, c)));
    assert(merged(a, a) =~= a);
}

/// The tombstone over a stored version is causally after it.
pub proof fn law_tombstone_is_after(
    table: Map<Seq<char>, Version>,
    key: Seq<char>,
    node: Seq<char>,
    now: i64,
)
    requires
        count(clock_at(table, key), node) < u64::MAX,
    ensures
        clock_after(tomb(node, clock_at(table, key), now).clock, clock_at(table, key)),
{
    law_increment_is_after(clock_at(table, key), node);
}

/// A value without a time to live never expires; one that has expired stays
/// expired.
pub proof fn law_expiry_is_final(v: Version, now: i64, later: i64)
    requires
        now <= later,
    ensures
        v.ttl_ms <= 0 ==> !expired(v, now),
        expired(v, now) ==> expired(v, later),
        live(v, later) ==> live(v, now),
{
}

/// A read gives back what was written under the key for as long as that is
/// live, and other keys read as before.
pub proof fn law_read_sees_write(
    table: Map<Seq<char>, Version>,
    key: Seq<char>,
    v: Version,
    other: Seq<char>,
    now: i64,
)
    ensures
        lookup(table.insert(key, v), key, now) == if live(v, now) {
            Some(v)
        } else {
            None
        },
        stored(table.insert(key, v), key) == Some(v),
        other != key ==> lookup(table.insert(key, v), other, now) == lookup(table, other, now),
{
}

/// A value written without a time to live is read back at every time.
pub proof fn law_value_without_ttl_is_read_back(
    table: Map<Seq<char>, Version>,
    key: Seq<char>,
    value: Seq<u8>,
    node: Seq<char>,
    written: i64,
    now: i64,
)
    ensures
        lookup(table.insert(key, fresh(value, node, 0, written)), key, now) == Some(
            fresh(value, node, 0, written),
        ),
{
}

/// A deleted key reads as absent at every time, and other keys as before.
pub proof fn law_deleted_key_is_absent(
    table: Map<Seq<char>, Version>,
    key: Seq<char>,
    node: Seq<char>,
    deleted_at: i64,
    other: Seq<char>,
    now: i64,
)
    ensures
        ({
            let after = table.insert(key, tomb(node, clock_at(table, key), deleted_at));
            &&& lookup(after, key, now) is None
            &&& other != key ==> lookup(after, other, now) == lookup(table, other, now)
        }),
{
}

/// What is kept of rows is a row that was there and is kept, and every such
/// row is kept.
proof fn lemma_filtered_map(
    rows: Seq<(Seq<char>, Version)>,
    keep: spec_fn((Seq<char>, Version)) -> bool,
    key: Seq<char>,
)
    requires
        keys_increase(rows),
    ensures
        keys_increase(rows.filter(keep)),
        stored(as_map(rows.filter(keep)), key) == match stored(as_map(rows), key) {
            Some(v) => if keep((key, v)) {
                Some(v)
            } else {
                None
            },
            None => None,
        },
{
    broadcast use vstd::seq_lib::group_filter_ensures;

    let kept = rows.filter(keep);
    lemma_filter_keys_increase(rows, keep);
    if as_map(kept).contains_key(key) {
        let i = choose|i: int| 0 <= i < kept.len() && #[trigger] kept[i].0 == key;
        lemma_as_map_at(kept, i);
        let j = choose|j: int| 0 <= j < rows.len() && rows[j] == kept[i];
        lemma_as_map_at(rows, j);
        assert(keep(kept[i]));
    }
    if as_map(rows).contains_key(key) {
        let j = choose|j: int| 0 <= j < rows.len() && #[trigger] rows[j].0 == key;
        lemma_as_map_at(rows, j);
        if keep(rows[j]) {
            assert(kept.contains(rows[j]));
            let i = choose|i: int| 0 <= i < kept.len() && kept[i] == rows[j];
            assert(kept[i].0 == key);
            lemma_as_map_at(kept, i);
        }
    }
}

/// Evicting what has expired changes no later read.
pub proof fn law_eviction_keeps_reads(
    rows: Seq<(Seq<char>, Version)>,
    evicted_at: i64,
    key: Seq<char>,
    now: i64,
)
    requires
        keys_increase(rows),
        evicted_at <= now,
    ensures
        lookup(as_map(unexpired(rows, evicted_at)), key, now) == lookup(as_map(rows), key, now),
{
    let keep = |row: (Seq<char>, Version)| !expired(row.1, evicted_at);
    lemma_filtered_map(rows, keep, key);
    if as_map(rows).contains_key(key) {
        law_expiry_is_final(as_map(rows)[key], evicted_at, now);
    }
}

/// After an eviction nothing is stored that had expired by then, and what had
/// not is stored as before.
pub proof fn law_eviction_removes_the_expired(
    rows: Seq<(Seq<char>, Version)>,
    now: i64,
    key: Seq<char>,
)
    requires
        keys_increase(rows),
    ensures
        stored(as_map(unexpired(rows, now)), key) == match stored(as_map(rows), key) {
            Some(v) => if expired(v, now) {
                None
            } else {
                Some(v)
            },
            None => None,
        },
{
    lemma_filtered_map(rows, |row: (Seq<char>, Version)| !expired(row.1, now), key);
}

/// A scan and a read agree: a row is scanned just if its key is in the range
/// and a read of the key at that time gives its value. The scanned keys
/// increase.
pub proof fn law_scan_agrees_with_reads(
    rows: Seq<(Seq<char>, Version)>,
    start: Seq<char>,
    end: Seq<char>,
    now: i64,
    key: Seq<char>,
    v: Version,
)
    requires
        keys_increase(rows),
    ensures
        keys_increase(scanned(rows, start, end, now)),
        scanned(rows, start, end, now).contains((key, v)) <==> key_le(start, key) && key_lt(key, end)
            && lookup(as_map(rows), key, now) == Some(v),
{
    let keep = |row: (Seq<char>, Version)|
        key_le(start, row.0) && key_lt(row.0, end) && live(row.1, now);
    lemma_filtered_map(rows, keep, key);
    let found = rows.filter(keep);
    if found.contains((key, v)) {
        let i = choose|i: int| 0 <= i < found.len() && found[i] == (key, v);
        lemma_as_map_at(found, i);
    }
    if as_map(found).contains_key(key) {
        let i = choose|i: int| 0 <= i < found.len() && #[trigger] found[i].0 == key;
        lemma_as_map_at(found, i);
        assert(found[i] == (key, as_map(found)[key]));
    }
}

/// The count of a node in a clock is the one beside it, or none.
pub proof fn law_count_is_listed(clock: Map<Seq<char>, u64>, node: Seq<char>)
    ensures
        clock.contains_key(node) ==> count(clock, node) == clock[node],
        !clock.contains_key(node) ==> count(clock, node) == 0,
{
}

/// A clock is after another just if every event that the other counts is
/// counted in it, and it counts an event that the other does not.
pub proof fn law_later_clock_has_seen_more(a: Map<Seq<char>, u64>, b: Map<Seq<char>, u64>)
    ensures
        clock_after(a, b) <==> {
            &&& forall|n: Seq<char>| #[trigger]
                b.contains_key(n) ==> b[n] == 0 || (a.contains_key(n) && b[n] <= a[n])
            &&& exists|n: Seq<char>| #[trigger]
                a.contains_key(n) && a[n] > 0 && (!b.contains_key(n) || b[n] < a[n])
        },
        covers(a, b) <==> forall|n: Seq<char>| #[trigger]
            b.contains_key(n) ==> b[n] == 0 || (a.contains_key(n) && b[n] <= a[n]),
{
    let seen = forall|n: Seq<char>| #[trigger]
        b.contains_key(n) ==> b[n] == 0 || (a.contains_key(n) && b[n] <= a[n]);
    if covers(a, b) {
        assert forall|n: Seq<char>| #[trigger] b.contains_key(n) implies b[n] == 0 || (
        a.contains_key(n) && b[n] <= a[n]) by {
            assert(count(b, n) <= count(a, n));
        }
    }
    if seen {
        assert forall|n: Seq<char>| #[trigger] count(b, n) <= count(a, n) by {
            if b.contains_key(n) {
                assert(b[n] == 0 || (a.contains_key(n) && b[n] <= a[n]));
            }
        }
        if exists|n: Seq<char>| #[trigger]
            a.contains_key(n) && a[n] > 0 && (!b.contains_key(n) || b[n] < a[n]) {
            let n = choose|n: Seq<char>| #[trigger]
                a.contains_key(n) && a[n] > 0 && (!b.contains_key(n) || b[n] < a[n]);
            assert(count(b, n) < count(a, n));
        }
    }
    if clock_after(a, b) {
        let n = choose|n: Seq<char>| #[trigger] count(b, n) < count(a, n);
        assert(a.contains_key(n) && a[n] > 0 && (!b.contains_key(n) || b[n] < a[n]));
    }
}

/// Counting an event of a node adds one to that node's count, lists the node,
/// and leaves all other nodes as they were.
pub proof fn law_increment_counts_one_event(
    clock: Map<Seq<char>, u64>,
    node: Seq<char>,
    other: Seq<char>,
)
    ensures
        incremented(clock, node).contains_key(node),
        clock.contains_key(node) && clock[node] < u64::MAX ==> incremented(clock, node)[node]
            == clock[node] + 1,
        !clock.contains_key(node) ==> incremented(clock, node)[node] == 1,
        other != node ==> incremented(clock, node).contains_key(other) == clock.contains_key(other),
        other != node && clock.contains_key(other) ==> incremented(clock, node)[other]
            == clock[other],
{
}

/// A merged clock lists the nodes of both clocks, each with the larger of the
/// counts that it has in them.
pub proof fn law_merge_takes_the_larger_count(
    a: Map<Seq<char>, u64>,
    b: Map<Seq<char>, u64>,
    node: Seq<char>,
)
    ensures
        merged(a, b).contains_key(node) == (a.contains_key(node) || b.contains_key(node)),
        a.contains_key(node) ==> merged(a, b)[node] >= a[node],
        b.contains_key(node) ==> merged(a, b)[node] >= b[node],
        merged(a, b).contains_key(node) ==> (a.contains_key(node) && merged(a, b)[node] == a[node])
            || (b.contains_key(node) && merged(a, b)[node] == b[node]),
{
}

/// A new version holds the value, the time to live and the time that were
/// given, counts one event of its node, and is no tombstone.
pub proof fn law_new_version_holds_what_was_given(
    value: Seq<u8>,
    node: Seq<char>,
    ttl_ms: i64,
    now: i64,
    other: Seq<char>,
)
    ensures
        ({
            let v = fresh(value, node, ttl_ms, now);
            &&& v.value == value
            &&& v.ttl_ms == ttl_ms
            &&& v.timestamp_ms == now
            &&& !v.deleted
            &&& v.clock.contains_key(node) && v.clock[node] == 1
            &&& v.clock.contains_key(other) ==> other == node
        }),
{
}

/// A tombstone is marked as one, has no value, is of the time that was given
/// and lives for five minutes; its clock is the given one with one more event
/// of its node.
pub proof fn law_tombstone_marks_a_deletion(
    node: Seq<char>,
    clock: Map<Seq<char>, u64>,
    now: i64,
    other: Seq<char>,
)
    ensures
        ({
            let v = tomb(node, clock, now);
            &&& v.deleted
            &&& v.value.len() == 0
            &&& v.timestamp_ms == now
            &&& v.ttl_ms == 5 * 60 * 1000
            &&& v.clock.contains_key(node)
            &&& clock.contains_key(node) && clock[node] < u64::MAX ==> v.clock[node] == clock[node]
                + 1
            &&& !clock.contains_key(node) ==> v.clock[node] == 1
            &&& other != node ==> v.clock.contains_key(other) == clock.contains_key(other)
            &&& other != node && clock.contains_key(other) ==> v.clock[other] == clock[other]
        }),
{
}

/// A version has expired once more time than its time to live has passed since
/// its timestamp, where it has one, and not before; it is live unless it has
/// expired or marks a deletion.
pub proof fn law_expiry_goes_by_the_clock(v: Version, now: i64)
    ensures
        v.ttl_ms <= 0 ==> !expired(v, now),
        v.ttl_ms > 0 ==> (expired(v, now) <==> now - v.timestamp_ms > v.ttl_ms),
        live(v, now) <==> !v.deleted && (v.ttl_ms <= 0 || now - v.timestamp_ms <= v.ttl_ms),
{
}

/// A read gives just what is stored under the key, where that is no tombstone
/// and its time to live has not passed; a raw read gives it in any case.
pub proof fn law_read_gives_what_is_stored(
    table: Map<Seq<char>, Version>,
    key: Seq<char>,
    now: i64,
    v: Version,
)
    ensures
        lookup(table, key, now) == Some(v) <==> table.contains_key(key) && table[key] == v
            && !v.deleted && (v.ttl_ms <= 0 || now - v.timestamp_ms <= v.ttl_ms),
        stored(table, key) == Some(v) <==> table.contains_key(key) && table[key] == v,
        stored(table, key) is None <==> !table.contains_key(key),
        table.contains_key(key) ==> clock_at(table, key) == table[key].clock,
        !table.contains_key(key) ==> clock_at(table, key) == Map::<Seq<char>, u64>::empty(),
{
    law_expiry_goes_by_the_clock(table[key], now);
}

/// A versioned value is seen with all of its fields as they are.
pub proof fn law_value_is_seen_as_it_is(v: VersionedValue)
    ensures
        v@.value == v.value@,
        v@.clock == v.vector_clock.clocks@,
        v@.timestamp_ms == v.timestamp_ms,
        v@.ttl_ms == v.ttl_ms,
        v@.deleted == v.deleted,
        version_of(Some(v)) == Some(v@),
        version_of(None) == None::<Version>,
{
}

/// Two values are equal just if all of their fields are, and two clocks just
/// if they count the same of the same nodes.
pub proof fn law_equal_values_agree_in_everything(a: VersionedValue, b: VersionedValue)
    ensures
        a.eq_spec(&b) <==> {
            &&& a.value@ == b.value@
            &&& a.vector_clock.clocks@ == b.vector_clock.clocks@
            &&& a.timestamp_ms == b.timestamp_ms
            &&& a.ttl_ms == b.ttl_ms
            &&& a.deleted == b.deleted
        },
        a.vector_clock.eq_spec(&b.vector_clock) <==> a.vector_clock.clocks@
            == b.vector_clock.clocks@,
{
}

/// Rows are listed in the order of the pairs, each with its key and with what
/// its value holds.
pub proof fn law_rows_are_the_pairs(
    pairs: Seq<(Seq<char>, VersionedValue)>,
    found: Seq<(String, VersionedValue)>,
    i: int,
)
    ensures
        rows_of(pairs).len() == pairs.len(),
        0 <= i < pairs.len() ==> rows_of(pairs)[i] == (pairs[i].0, pairs[i].1@),
        rows_in(found).len() == found.len(),
        0 <= i < found.len() ==> rows_in(found)[i] == (found[i].0@, found[i].1@),
{
}

/// The size of rows is, for each row, the bytes of its key and of its value and
/// 128 more; a counter shows it as it is while that fits.
pub proof fn law_size_counts_bytes(
    rows: Seq<(Seq<char>, Version)>,
    key: Seq<char>,
    v: Version,
    size: int,
)
    ensures
        total_size(Seq::empty()) == 0,
        total_size(rows.push((key, v))) == total_size(rows) + encode_utf8(key).len()
            + v.value.len() + 128,
        row_size((key, v)) == encode_utf8(key).len() + v.value.len() + 128,
        0 <= size <= u64::MAX ==> counter(size) == size,
        counter(size + u64::MAX + 1) == counter(size),
{
    assert(rows.push((key, v)).drop_last() =~= rows);
    vstd::arithmetic::div_mod::lemma_mod_add_multiples_vanish(size, 0x1_0000_0000_0000_0000);
}

/// Evicting removes just the rows whose time to live has passed and leaves the
/// others in their order.
pub proof fn law_eviction_goes_by_the_clock(
    a: Seq<(Seq<char>, Version)>,
    row: (Seq<char>, Version),
    now: i64,
)
    ensures
        unexpired(Seq::empty(), now) == Seq::<(Seq<char>, Version)>::empty(),
        unexpired(a.push(row), now) == if row.1.ttl_ms > 0 && now - row.1.timestamp_ms
            > row.1.ttl_ms {
            unexpired(a, now)
        } else {
            unexpired(a, now).push(row)
        },
{
    reveal(Seq::filter);
    assert(a.push(row).drop_last() =~= a);
}

/// A scan gives just the rows whose key is at least the start and before the
/// end and that a read gives at that time, in their order.
pub proof fn law_scan_takes_live_rows_in_range(
    a: Seq<(Seq<char>, Version)>,
    row: (Seq<char>, Version),
    start: Seq<char>,
    end: Seq<char>,
    now: i64,
)
    ensures
        scanned(Seq::empty(), start, end, now) == Seq::<(Seq<char>, Version)>::empty(),
        scanned(a.push(row), start, end, now) == if (row.0 == start || key_lt(start, row.0))
            && key_lt(row.0, end) && !row.1.deleted && (row.1.ttl_ms <= 0 || now
            - row.1.timestamp_ms <= row.1.ttl_ms) {
            scanned(a, start, end, now).push(row)
        } else {
            scanned(a, start, end, now)
        },
{
    reveal(Seq::filter);
    assert(a.push(row).drop_last() =~= a);
}

} // verus!

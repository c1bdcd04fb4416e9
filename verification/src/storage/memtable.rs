//! Versioned values and the sorted in-memory table that holds them.

use vstd::prelude::*;

use crate::seqs::{
    at_most, lemma_filter_map, lemma_filter_nothing, lemma_filter_split, lemma_filter_step,
};
use crate::str_map::{
    as_map, is_position, keys_increase, lemma_as_map_at, lemma_as_map_has, lemma_as_map_take,
    lemma_views, lemma_views_with_pair, views, with_pair, StrMap,
};
use crate::text::{
    compare_keys, key_le, key_lt, lemma_key_lt_antisymmetric, lemma_key_lt_transitive, Side,
};
use crate::wall_clock::{clock_reading, now_ms};
use vstd::utf8::encode_utf8;

verus! {

/// How many events of `node` a clock has counted; a node that the clock does
/// not list has none.
pub open spec fn count(clock: Map<Seq<char>, u64>, node: Seq<char>) -> u64 {
    if clock.contains_key(node) {
        clock[node]
    } else {
        0
    }
}

/// Whether `a` has counted at least what `b` has, of every node.
pub open spec fn covers(a: Map<Seq<char>, u64>, b: Map<Seq<char>, u64>) -> bool {
    forall|node: Seq<char>| #[trigger] count(b, node) <= count(a, node)
}

/// Whether `a` is causally after `b`: it covers `b` and has counted more of
/// some node.
pub open spec fn clock_after(a: Map<Seq<char>, u64>, b: Map<Seq<char>, u64>) -> bool {
    &&& covers(a, b)
    &&& exists|node: Seq<char>| #[trigger] count(b, node) < count(a, node)
}

/// The clock with one more event of `node`.
pub open spec fn incremented(clock: Map<Seq<char>, u64>, node: Seq<char>) -> Map<Seq<char>, u64> {
    clock.insert(node, (count(clock, node) + 1) as u64)
}

/// The clock that lists the nodes of both with the larger count of each.
pub open spec fn merged(a: Map<Seq<char>, u64>, b: Map<Seq<char>, u64>) -> Map<Seq<char>, u64> {
    Map::new(
        |node: Seq<char>| a.contains_key(node) || b.contains_key(node),
        |node: Seq<char>|
            if count(a, node) < count(b, node) {
                count(b, node)
            } else {
                count(a, node)
            },
    )
}

/// Vector clock for conflict resolution in a leaderless system.
#[derive(Debug)]
pub struct VectorClock {
    pub clocks: StrMap<u64>,
}

impl View for VectorClock {
    type V = Map<Seq<char>, u64>;

    open spec fn view(&self) -> Map<Seq<char>, u64> {
        self.clocks@
    }
}

impl Clone for VectorClock {
    fn clone(&self) -> (copy: Self)
        ensures
            copy@ == self@,
    {
        let clocks = self.clocks.clone();
        assert(clocks.pairs() =~= self.clocks.pairs());
        VectorClock { clocks }
    }
}

impl Default for VectorClock {
    fn default() -> (clock: Self)
        ensures
            clock@ == Map::<Seq<char>, u64>::empty(),
    {
        VectorClock::new()
    }
}

impl VectorClock {
    /// A clock that has counted nothing.
    pub fn new() -> (clock: Self)
        ensures
            clock@ == Map::<Seq<char>, u64>::empty(),
    {
        VectorClock { clocks: StrMap::new() }
    }

    /// How many events of a node the clock has counted.
    pub fn get(&self, node_id: &str) -> (n: u64)
        ensures
            n == count(self@, node_id@),
    {
        match self.clocks.get(node_id) {
            Some(n) => *n,
            None => 0,
        }
    }

    /// Increment the clock for a given node.
    pub fn increment(&mut self, node_id: &str)
        requires
            count(old(self)@, node_id@) < u64::MAX,
        ensures
            final(self)@ == incremented(old(self)@, node_id@),
    {
        let n = self.get(node_id);
        self.clocks.insert(node_id.to_string(), n + 1);
    }

    /// Merge another clock into this one (take max of each entry).
    pub fn merge(&mut self, other: &VectorClock)
        ensures
            final(self)@ == merged(old(self)@, other@),
    {
        let ghost before = self@;
        let ghost pairs = other.clocks.pairs();
        let n = other.clocks.len();
        let mut i: usize = 0;
        assert(as_map(pairs.take(0)) =~= Map::empty());
        assert(self@ =~= merged(before, as_map(pairs.take(0))));
        while i < n
            invariant
                i <= n,
                n == pairs.len(),
                pairs == other.clocks.pairs(),
                keys_increase(pairs),
                self@ == merged(before, as_map(pairs.take(i as int))),
            decreases n - i,
        {
            let (node, theirs) = other.clocks.at(i);
            proof {
                lemma_as_map_take(pairs, i as int);
            }
            let mine = self.get(node.as_str());
            let larger = if mine < *theirs {
                *theirs
            } else {
                mine
            };
            self.clocks.insert(node.clone(), larger);
            assert(self@ =~= merged(before, as_map(pairs.take(i + 1))));
            i = i + 1;
        }
        assert(pairs.take(n as int) =~= pairs);
    }

    /// Returns true if self dominates (is causally after) other.
    pub fn dominates(&self, other: &VectorClock) -> (after: bool)
        ensures
            after == clock_after(self@, other@),
    {
        let mut ahead = false;
        let theirs = other.clocks.len();
        let ghost pairs = other.clocks.pairs();
        let mut i: usize = 0;
        while i < theirs
            invariant
                i <= theirs,
                theirs == pairs.len(),
                pairs == other.clocks.pairs(),
                keys_increase(pairs),
                forall|j: int|
                    0 <= j < i ==> count(other@, (#[trigger] pairs[j]).0) <= count(self@, pairs[j].0),
                ahead <==> exists|j: int|
                    0 <= j < i && count(other@, (#[trigger] pairs[j]).0) < count(self@, pairs[j].0),
            decreases theirs - i,
        {
            let (node, n) = other.clocks.at(i);
            proof {
                lemma_as_map_at(pairs, i as int);
            }
            let mine = self.get(node.as_str());
            if mine < *n {
                assert(count(other@, node@) > count(self@, node@));
                return false;
            }
            if mine > *n {
                ahead = true;
            }
            i = i + 1;
        }
        proof {
            assert forall|node: Seq<char>| #[trigger] count(other@, node) <= count(self@, node) by {
                if other@.contains_key(node) {
                    let j = choose|j: int| 0 <= j < pairs.len() && #[trigger] pairs[j].0 == node;
                    assert(count(other@, pairs[j].0) <= count(self@, pairs[j].0));
                }
            }
        }
        let ours = self.clocks.len();
        let ghost own = self.clocks.pairs();
        let ghost behind = ahead;
        let mut k: usize = 0;
        while k < ours
            invariant
                k <= ours,
                ours == own.len(),
                own == self.clocks.pairs(),
                keys_increase(own),
                ahead <==> behind || exists|j: int|
                    0 <= j < k && (#[trigger] own[j]).1 > 0 && !other@.contains_key(own[j].0),
            decreases ours - k,
        {
            let (node, n) = self.clocks.at(k);
            if *n > 0 && !other.clocks.contains_key(node.as_str()) {
                ahead = true;
            }
            k = k + 1;
        }
        proof {
            if ahead {
                if behind {
                    let j = choose|j: int|
                        0 <= j < theirs && count(other@, (#[trigger] pairs[j]).0) < count(
                            self@,
                            pairs[j].0,
                        );
                    assert(count(other@, pairs[j].0) < count(self@, pairs[j].0));
                } else {
                    let j = choose|j: int|
                        0 <= j < ours && (#[trigger] own[j]).1 > 0 && !other@.contains_key(own[j].0);
                    lemma_as_map_at(own, j);
                    assert(count(other@, own[j].0) < count(self@, own[j].0));
                }
            }
            if exists|node: Seq<char>| #[trigger] count(other@, node) < count(self@, node) {
                let node = choose|node: Seq<char>| #[trigger]
                    count(other@, node) < count(self@, node);
                let j = choose|j: int| 0 <= j < own.len() && #[trigger] own[j].0 == node;
                lemma_as_map_at(own, j);
                if other@.contains_key(node) {
                    let m = choose|m: int| 0 <= m < pairs.len() && #[trigger] pairs[m].0 == node;
                    assert(count(other@, pairs[m].0) < count(self@, pairs[m].0));
                }
            }
        }
        ahead
    }

    /// Whether the clocks list the same nodes with the same counts.
    pub fn same(&self, other: &VectorClock) -> (equal: bool)
        ensures
            equal == (self@ == other@),
    {
        let ours = self.clocks.len();
        let theirs = other.clocks.len();
        let ghost own = self.clocks.pairs();
        let ghost pairs = other.clocks.pairs();
        let mut i: usize = 0;
        while i < ours
            invariant
                i <= ours,
                ours == own.len(),
                own == self.clocks.pairs(),
                keys_increase(own),
                forall|j: int|
                    0 <= j < i ==> other@.contains_key((#[trigger] own[j]).0) && other@[own[j].0]
                        == own[j].1,
            decreases ours - i,
        {
            let (node, n) = self.clocks.at(i);
            proof {
                lemma_as_map_at(own, i as int);
            }
            match other.clocks.get(node.as_str()) {
                Some(m) => {
                    if *m != *n {
                        return false;
                    }
                },
                None => {
                    return false;
                },
            }
            i = i + 1;
        }
        let mut k: usize = 0;
        while k < theirs
            invariant
                k <= theirs,
                theirs == pairs.len(),
                pairs == other.clocks.pairs(),
                keys_increase(pairs),
                forall|j: int| 0 <= j < k ==> self@.contains_key((#[trigger] pairs[j]).0),
            decreases theirs - k,
        {
            let (node, _) = other.clocks.at(k);
            proof {
                lemma_as_map_at(pairs, k as int);
            }
            if !self.clocks.contains_key(node.as_str()) {
                return false;
            }
            k = k + 1;
        }
        proof {
            assert forall|node: Seq<char>| self@.contains_key(node) implies #[trigger]
                other@.contains_key(node) && self@[node] == other@[node] by {
                let j = choose|j: int| 0 <= j < own.len() && #[trigger] own[j].0 == node;
                lemma_as_map_at(own, j);
            }
            assert forall|node: Seq<char>| #[trigger]
                other@.contains_key(node) implies self@.contains_key(node) by {
                let j = choose|j: int| 0 <= j < pairs.len() && #[trigger] pairs[j].0 == node;
                assert(self@.contains_key(pairs[j].0));
            }
            assert(self@ =~= other@);
        }
        true
    }

    /// Returns true if the two clocks are concurrent (neither dominates).
    /// Clocks that are the same are not concurrent.
    pub fn is_concurrent_with(&self, other: &VectorClock) -> (concurrent: bool)
        ensures
            concurrent == (!clock_after(self@, other@) && !clock_after(other@, self@) && self@
                != other@),
    {
        !self.dominates(other) && !other.dominates(self) && !self.same(other)
    }
}

impl PartialEq for VectorClock {
    fn eq(&self, other: &Self) -> (equal: bool) {
        self.same(other)
    }
}

impl vstd::std_specs::cmp::PartialEqSpecImpl for VectorClock {
    open spec fn obeys_eq_spec() -> bool {
        true
    }

    open spec fn eq_spec(&self, other: &Self) -> bool {
        self@ == other@
    }
}

/// The time to live of a tombstone: five minutes.
pub const TOMBSTONE_TTL_MS: i64 = 300_000;

/// What a versioned value holds.
#[verifier::ext_equal]
pub struct Version {
    pub value: Seq<u8>,
    pub clock: Map<Seq<char>, u64>,
    pub timestamp_ms: i64,
    pub ttl_ms: i64,
    pub deleted: bool,
}

/// Whether a version has expired at a time: it has a time to live, and more
/// than that has passed since it was written.
pub open spec fn expired(v: Version, now: i64) -> bool {
    v.ttl_ms > 0 && now > v.timestamp_ms + v.ttl_ms
}

/// Whether a version is seen by reads at a time.
pub open spec fn live(v: Version, now: i64) -> bool {
    !expired(v, now) && !v.deleted
}

/// The version that a node writes at a time.
pub open spec fn fresh(value: Seq<u8>, node: Seq<char>, ttl_ms: i64, now: i64) -> Version {
    Version {
        value,
        clock: incremented(Map::empty(), node),
        timestamp_ms: now,
        ttl_ms,
        deleted: false,
    }
}

/// The tombstone that a node writes at a time over a version with a clock.
pub open spec fn tomb(node: Seq<char>, clock: Map<Seq<char>, u64>, now: i64) -> Version {
    Version {
        value: Seq::empty(),
        clock: incremented(clock, node),
        timestamp_ms: now,
        ttl_ms: TOMBSTONE_TTL_MS,
        deleted: true,
    }
}

/// A versioned value with vector clock, timestamp, and optional TTL.
#[derive(Debug)]
pub struct VersionedValue {
    pub value: Vec<u8>,
    pub vector_clock: VectorClock,
    pub timestamp_ms: i64,
    /// 0 = no expiry
    pub ttl_ms: i64,
    /// tombstone marker
    pub deleted: bool,
}

impl View for VersionedValue {
    type V = Version;

    open spec fn view(&self) -> Version {
        Version {
            value: self.value@,
            clock: self.vector_clock@,
            timestamp_ms: self.timestamp_ms,
            ttl_ms: self.ttl_ms,
            deleted: self.deleted,
        }
    }
}

impl Clone for VersionedValue {
    fn clone(&self) -> (copy: Self)
        ensures
            copy@ == self@,
    {
        let value = self.value.clone();
        assert(value@ =~= self.value@);
        VersionedValue {
            value,
            vector_clock: self.vector_clock.clone(),
            timestamp_ms: self.timestamp_ms,
            ttl_ms: self.ttl_ms,
            deleted: self.deleted,
        }
    }
}

impl PartialEq for VersionedValue {
    fn eq(&self, other: &Self) -> (equal: bool) {
        let same_bytes = self.value == other.value;
        assert(same_bytes <==> self.value@ =~= other.value@);
        same_bytes && self.vector_clock.same(&other.vector_clock) && self.timestamp_ms
            == other.timestamp_ms && self.ttl_ms == other.ttl_ms && self.deleted == other.deleted
    }
}

impl vstd::std_specs::cmp::PartialEqSpecImpl for VersionedValue {
    open spec fn obeys_eq_spec() -> bool {
        true
    }

    open spec fn eq_spec(&self, other: &Self) -> bool {
        self@ == other@
    }
}

impl VersionedValue {
    /// A value written by a node now. Its clock counts one event of that node.
    pub fn new(value: Vec<u8>, node_id: &str, ttl_ms: i64) -> (v: Self)
        ensures
            exists|now: i64|
                now >= 0 && clock_reading(now)
                    && v@ == #[trigger] fresh(value@, node_id@, ttl_ms, now),
    {
        let now = now_ms();
        Self::new_at(value, node_id, ttl_ms, now)
    }

    /// A value written by a node at a given time.
    pub fn new_at(value: Vec<u8>, node_id: &str, ttl_ms: i64, now: i64) -> (v: Self)
        ensures
            v@ == fresh(value@, node_id@, ttl_ms, now),
    {
        let mut vector_clock = VectorClock::new();
        vector_clock.increment(node_id);
        VersionedValue { value, vector_clock, timestamp_ms: now, ttl_ms, deleted: false }
    }

    /// Check if this value has expired.
    pub fn is_expired(&self) -> (gone: bool)
        ensures
            exists|now: i64|
                now >= 0 && clock_reading(now) && gone == #[trigger] expired(self@, now),
            self.ttl_ms <= 0 ==> !gone,
    {
        let now = now_ms();
        self.is_expired_at(now)
    }

    /// Check if this value has expired at a given time.
    pub fn is_expired_at(&self, now: i64) -> (gone: bool)
        ensures
            gone == expired(self@, now),
    {
        if self.ttl_ms <= 0 {
            return false;
        }
        now as i128 > self.timestamp_ms as i128 + self.ttl_ms as i128
    }

    /// Create a tombstone for deletion.
    pub fn tombstone(node_id: &str, clock: &VectorClock) -> (v: Self)
        requires
            count(clock@, node_id@) < u64::MAX,
        ensures
            exists|now: i64|
                now >= 0 && clock_reading(now) && v@ == #[trigger] tomb(node_id@, clock@, now),
    {
        let now = now_ms();
        Self::tombstone_at(node_id, clock, now)
    }

    /// Create a tombstone written at a given time.
    pub fn tombstone_at(node_id: &str, clock: &VectorClock, now: i64) -> (v: Self)
        requires
            count(clock@, node_id@) < u64::MAX,
        ensures
            v@ == tomb(node_id@, clock@, now),
    {
        let mut vector_clock = clock.clone();
        vector_clock.increment(node_id);
        let value: Vec<u8> = Vec::new();
        VersionedValue {
            value,
            vector_clock,
            timestamp_ms: now,
            ttl_ms: TOMBSTONE_TTL_MS,
            deleted: true,
        }
    }
}

/// The stored pairs by what their values hold.
pub open spec fn rows_of(pairs: Seq<(Seq<char>, VersionedValue)>) -> Seq<(Seq<char>, Version)> {
    views(pairs)
}

/// What one row counts toward the size of a table: its key and value bytes
/// and a fixed overhead.
pub open spec fn row_size(row: (Seq<char>, Version)) -> nat {
    encode_utf8(row.0).len() + row.1.value.len() + 128
}

/// The size of all rows together.
pub open spec fn total_size(rows: Seq<(Seq<char>, Version)>) -> nat
    decreases rows.len(),
{
    if rows.len() == 0 {
        0
    } else {
        total_size(rows.drop_last()) + row_size(rows.last())
    }
}

/// A 64-bit counter's reading of a size.
pub open spec fn counter(size: int) -> u64 {
    (size % 0x1_0000_0000_0000_0000) as u64
}

/// Replacing a row changes the size by the difference.
proof fn lemma_total_update(rows: Seq<(Seq<char>, Version)>, i: int, row: (Seq<char>, Version))
    requires
        0 <= i < rows.len(),
    ensures
        total_size(rows.update(i, row)) == total_size(rows) - row_size(rows[i]) + row_size(row),
    decreases rows.len(),
{
    let next = rows.update(i, row);
    if i == rows.len() - 1 {
        assert(next.drop_last() =~= rows.drop_last());
    } else {
        lemma_total_update(rows.drop_last(), i, row);
        assert(next.drop_last() =~= rows.drop_last().update(i, row));
    }
}

/// A new row adds its size.
proof fn lemma_total_insert(rows: Seq<(Seq<char>, Version)>, i: int, row: (Seq<char>, Version))
    requires
        0 <= i <= rows.len(),
    ensures
        total_size(rows.insert(i, row)) == total_size(rows) + row_size(row),
    decreases rows.len(),
{
    let next = rows.insert(i, row);
    if i == rows.len() {
        assert(next.drop_last() =~= rows);
    } else {
        lemma_total_insert(rows.drop_last(), i, row);
        assert(next.drop_last() =~= rows.drop_last().insert(i, row));
    }
}

/// Counters add and subtract as the sizes that they read do.
proof fn lemma_counter(a: int, b: int)
    ensures
        counter(a + b) == vstd::wrapping::u64_specs::wrapping_add(counter(a), counter(b)),
        counter(a - b) == vstd::wrapping::u64_specs::wrapping_sub(counter(a), counter(b)),
{
    let m: int = 0x1_0000_0000_0000_0000;
    let (x, y) = (a % m, b % m);
    vstd::arithmetic::div_mod::lemma_add_mod_noop(a, b, m);
    vstd::arithmetic::div_mod::lemma_sub_mod_noop(a, b, m);
    assert((x + y) % m == if x + y < m {
        x + y
    } else {
        x + y - m
    });
    assert((x - y) % m == if x >= y {
        x - y
    } else {
        x - y + m
    });
}

/// Setting a key sets its row and changes the size by what the row changes.
proof fn lemma_put_rows(
    pairs: Seq<(Seq<char>, VersionedValue)>,
    at: int,
    key: Seq<char>,
    value: VersionedValue,
)
    requires
        keys_increase(pairs),
        is_position(pairs, key, at),
    ensures
        as_map(rows_of(with_pair(pairs, at, key, value))) == as_map(rows_of(pairs)).insert(
            key,
            value@,
        ),
        keys_increase(rows_of(with_pair(pairs, at, key, value))),
        total_size(rows_of(with_pair(pairs, at, key, value))) == total_size(rows_of(pairs))
            + row_size((key, value@)) - (if as_map(pairs).contains_key(key) {
            row_size((key, as_map(pairs)[key]@)) as int
        } else {
            0
        }),
{
    let rows = rows_of(pairs);
    lemma_views_with_pair(pairs, at, key, value);
    lemma_as_map_has(pairs, key, at);
    if at < pairs.len() && pairs[at].0 == key {
        lemma_total_update(rows, at, (key, value@));
        assert(rows[at] == (key, as_map(pairs)[key]@));
    } else {
        lemma_total_insert(rows, at, (key, value@));
    }
}

/// The size of a row with a given key and value length.
fn row_bytes(key: &str, value_len: usize) -> (n: u64)
    ensures
        n == counter(encode_utf8(key@).len() + value_len + 128),
{
    let key_len = key.as_bytes().len();
    proof {
        lemma_counter(key_len as int, value_len as int);
        lemma_counter(key_len + value_len, 128);
    }
    (key_len as u64).wrapping_add(value_len as u64).wrapping_add(128)
}

/// What a read of `key` at a time sees.
pub open spec fn lookup(
    table: Map<Seq<char>, Version>,
    key: Seq<char>,
    now: i64,
) -> Option<Version> {
    if table.contains_key(key) && live(table[key], now) {
        Some(table[key])
    } else {
        None
    }
}

/// What is stored under `key`, be it live or not.
pub open spec fn stored(table: Map<Seq<char>, Version>, key: Seq<char>) -> Option<Version> {
    if table.contains_key(key) {
        Some(table[key])
    } else {
        None
    }
}

/// The clock of what is stored under `key`; of nothing, the empty clock.
pub open spec fn clock_at(table: Map<Seq<char>, Version>, key: Seq<char>) -> Map<Seq<char>, u64> {
    if table.contains_key(key) {
        table[key].clock
    } else {
        Map::empty()
    }
}

/// The version inside an optional value.
pub open spec fn version_of(v: Option<VersionedValue>) -> Option<Version> {
    match v {
        Some(v) => Some(v@),
        None => None,
    }
}

/// The rows that a scan from `start` up to `end` sees at a time, in key order.
pub open spec fn scanned(
    rows: Seq<(Seq<char>, Version)>,
    start: Seq<char>,
    end: Seq<char>,
    now: i64,
) -> Seq<(Seq<char>, Version)> {
    rows.filter(
        |row: (Seq<char>, Version)|
            key_le(start, row.0) && key_lt(row.0, end) && live(row.1, now),
    )
}

/// The pairs of a result by what they hold.
pub open spec fn rows_in(pairs: Seq<(String, VersionedValue)>) -> Seq<(Seq<char>, Version)> {
    pairs.map_values(|e: (String, VersionedValue)| (e.0@, e.1@))
}

/// The rows that have not expired at a time.
pub open spec fn unexpired(rows: Seq<(Seq<char>, Version)>, now: i64) -> Seq<(Seq<char>, Version)> {
    rows.filter(|row: (Seq<char>, Version)| !expired(row.1, now))
}

/// In-memory sorted storage with TTL support.
pub struct MemTable {
    data: StrMap<VersionedValue>,
    size_bytes: u64,
    max_size_bytes: u64,
}

impl MemTable {
    /// The stored rows, in key order.
    pub closed spec fn rows(&self) -> Seq<(Seq<char>, Version)> {
        rows_of(self.data.pairs())
    }

    /// The size at which the table is full.
    pub closed spec fn max_size(&self) -> u64 {
        self.max_size_bytes
    }

    #[verifier::type_invariant]
    closed spec fn counts_rows(&self) -> bool {
        self.size_bytes == counter(total_size(self.rows()) as int)
    }
}

impl View for MemTable {
    type V = Map<Seq<char>, Version>;

    open spec fn view(&self) -> Map<Seq<char>, Version> {
        as_map(self.rows())
    }
}

impl MemTable {
    /// An empty table that is full at the given size.
    pub fn new(max_size_bytes: u64) -> (table: Self)
        ensures
            table.rows() == Seq::<(Seq<char>, Version)>::empty(),
            table@ == Map::<Seq<char>, Version>::empty(),
            table.max_size() == max_size_bytes,
    {
        let data: StrMap<VersionedValue> = StrMap::new();
        assert(rows_of(data.pairs()) =~= Seq::empty());
        let table = MemTable { data, size_bytes: 0, max_size_bytes };
        assert(table@ =~= Map::empty());
        table
    }

    /// Get raw value including tombstones and expired (for replication).
    pub fn get_raw(&self, key: &str) -> (found: Option<VersionedValue>)
        ensures
            version_of(found) == stored(self@, key@),
    {
        self.data.recall_order();
        proof {
            lemma_views(self.data.pairs());
        }
        match self.data.get(key) {
            Some(v) => Some(v.clone()),
            None => None,
        }
    }

    /// Get a value by key. Returns None if expired or not found.
    pub fn get(&self, key: &str) -> (found: Option<VersionedValue>)
        ensures
            exists|now: i64|
                now >= 0 && clock_reading(now)
                    && version_of(found) == #[trigger] lookup(self@, key@, now),
    {
        let now = now_ms();
        self.get_at(key, now)
    }

    /// Get a value by key at a given time.
    pub fn get_at(&self, key: &str, now: i64) -> (found: Option<VersionedValue>)
        ensures
            version_of(found) == lookup(self@, key@, now),
    {
        self.data.recall_order();
        proof {
            lemma_views(self.data.pairs());
        }
        match self.data.get(key) {
            Some(v) => {
                if v.is_expired_at(now) {
                    return None;
                }
                if v.deleted {
                    return None;
                }
                Some(v.clone())
            },
            None => None,
        }
    }

    /// Put a key-value pair. Returns true if memtable is full and should be flushed.
    pub fn put(&mut self, key: String, value: VersionedValue) -> (full: bool)
        ensures
            final(self)@ == old(self)@.insert(key@, value@),
            keys_increase(final(self).rows()),
            final(self).max_size() == old(self).max_size(),
            full == (counter(total_size(final(self).rows()) as int) >= old(self).max_size()),
    {
        proof {
            use_type_invariant(&*self);
        }
        let max_size_bytes = self.max_size_bytes;
        let mut table = MemTable::new(max_size_bytes);
        std::mem::swap(&mut table, self);
        let MemTable { mut data, size_bytes, max_size_bytes } = table;
        let ghost pairs = data.pairs();
        let ghost total = total_size(rows_of(pairs)) as int;
        let ghost row = (key@, value@);
        let entry_size = row_bytes(key.as_str(), value.value.len());
        let at = data.position(key.as_str());
        data.recall_order();
        proof {
            lemma_put_rows(pairs, at as int, key@, value);
        }
        let mut size: u64 = size_bytes;
        match data.get(key.as_str()) {
            Some(old_value) => {
                let old_size = row_bytes(key.as_str(), old_value.value.len());
                proof {
                    let old_row = row_size((key@, as_map(pairs)[key@]@)) as int;
                    lemma_counter(total, old_row);
                    lemma_counter(total - old_row, row_size(row) as int);
                }
                size = size.wrapping_sub(old_size);
            },
            None => {
                proof {
                    lemma_counter(total, row_size(row) as int);
                }
            },
        }
        data.insert(key, value);
        size = size.wrapping_add(entry_size);
        *self = MemTable { data, size_bytes: size, max_size_bytes };
        size >= max_size_bytes
    }

    /// Delete a key by inserting a tombstone.
    pub fn delete(&mut self, key: &str, node_id: &str) -> (full: bool)
        requires
            count(clock_at(old(self)@, key@), node_id@) < u64::MAX,
        ensures
            exists|now: i64|
                now >= 0 && clock_reading(now) && final(self)@ == old(self)@.insert(
                    key@,
                    #[trigger] tomb(node_id@, clock_at(old(self)@, key@), now),
                ),
            keys_increase(final(self).rows()),
            final(self).max_size() == old(self).max_size(),
            full == (counter(total_size(final(self).rows()) as int) >= old(self).max_size()),
    {
        let now = now_ms();
        self.delete_at(key, node_id, now)
    }

    /// Delete a key by inserting a tombstone written at a given time.
    pub fn delete_at(&mut self, key: &str, node_id: &str, now: i64) -> (full: bool)
        requires
            count(clock_at(old(self)@, key@), node_id@) < u64::MAX,
        ensures
            final(self)@ == old(self)@.insert(
                key@,
                tomb(node_id@, clock_at(old(self)@, key@), now),
            ),
            keys_increase(final(self).rows()),
            final(self).max_size() == old(self).max_size(),
            full == (counter(total_size(final(self).rows()) as int) >= old(self).max_size()),
    {
        let clock = self.clock(key);
        let tombstone = VersionedValue::tombstone_at(node_id, &clock, now);
        self.put(key.to_string(), tombstone)
    }

    /// The clock of what is stored under a key; of nothing, the empty clock.
    pub fn clock(&self, key: &str) -> (clock: VectorClock)
        ensures
            clock@ == clock_at(self@, key@),
    {
        match self.get_raw(key) {
            Some(v) => v.vector_clock,
            None => VectorClock::new(),
        }
    }

    /// Scan a range of keys [start, end).
    pub fn scan(
        &self,
        start: &str,
        end: &str,
        limit: usize,
    ) -> (found: Vec<(String, VersionedValue)>)
        requires
            key_le(start@, end@),
        ensures
            keys_increase(self.rows()),
            exists|now: i64|
                now >= 0 && clock_reading(now) && rows_in(found@) == at_most(
                    #[trigger] scanned(self.rows(), start@, end@, now),
                    limit as int,
                ),
    {
        let now = now_ms();
        self.scan_at(start, end, limit, now)
    }

    /// Scan a range of keys [start, end) at a given time.
    pub fn scan_at(
        &self,
        start: &str,
        end: &str,
        limit: usize,
        now: i64,
    ) -> (found: Vec<(String, VersionedValue)>)
        requires
            key_le(start@, end@),
        ensures
            keys_increase(self.rows()),
            rows_in(found@) == at_most(scanned(self.rows(), start@, end@, now), limit as int),
    {
        self.recall_order();
        let ghost rows = self.rows();
        let ghost seen = |row: (Seq<char>, Version)|
            key_le(start@, row.0) && key_lt(row.0, end@) && live(row.1, now);
        let mut found: Vec<(String, VersionedValue)> = Vec::new();
        let n = self.data.len();
        let mut i = self.data.position(start);
        let ghost first = i as int;
        proof {
            lemma_views(self.data.pairs());
            assert forall|j: int| 0 <= j < i implies !seen(#[trigger] rows.take(i as int)[j]) by {
                let key = self.data.pairs()[j].0;
                assert(rows[j].0 == key);
                assert(key_lt(key, start@));
                lemma_key_lt_antisymmetric(key, start@);
            }
            lemma_filter_nothing(rows.take(i as int), seen);
            assert(rows_in(found@) =~= Seq::empty());
        }
        while i < n && found.len() < limit && compare_keys(self.data.at(i).0.as_str(), end)
            == Side::Before
            invariant
                first <= i <= n,
                n == rows.len(),
                rows == rows_of(self.data.pairs()),
                n == self.data.pairs().len(),
                is_position(self.data.pairs(), start@, first),
                seen == (|row: (Seq<char>, Version)|
                    key_le(start@, row.0) && key_lt(row.0, end@) && live(row.1, now)),
                rows_in(found@) == rows.take(i as int).filter(seen),
                found@.len() <= limit,
            decreases n - i,
        {
            let (key, value) = self.data.at(i);
            let ghost before = found@;
            assert(rows[i as int] == (key@, value@));
            assert(key_le(start@, self.data.pairs()[i as int].0));
            proof {
                lemma_filter_step(rows, i as int, seen);
            }
            if !value.is_expired_at(now) && !value.deleted {
                found.push((key.clone(), value.clone()));
                assert(rows_in(found@) =~= rows_in(before).push(rows[i as int]));
            }
            i = i + 1;
        }
        proof {
            let rest = rows.skip(i as int);
            lemma_filter_split(rows, i as int, seen);
            if found@.len() < limit || limit == 0 {
                if found@.len() < limit {
                    assert forall|j: int| 0 <= j < rest.len() implies !seen(#[trigger] rest[j]) by {
                        assert(rest[j] == rows[i + j]);
                        let key = self.data.pairs()[i as int].0;
                        assert(rows[i as int].0 == key);
                        assert(key_le(end@, key));
                        if j > 0 {
                            assert(key_lt(rows[i as int].0, rows[i + j].0));
                            if end@ != key {
                                lemma_key_lt_transitive(end@, key, rows[i + j].0);
                            }
                        }
                        if seen(rest[j]) {
                            lemma_key_lt_antisymmetric(rest[j].0, end@);
                        }
                    }
                    lemma_filter_nothing(rest, seen);
                }
            }
            let all = rows.filter(seen);
            assert(rows_in(found@).len() == found@.len());
            assert(rows_in(found@) =~= at_most(all, limit as int));
        }
        found
    }

    /// Return all entries (for snapshot/flush), leaving none.
    pub fn drain(&mut self) -> (drained: StrMap<VersionedValue>)
        ensures
            keys_increase(old(self).rows()),
            rows_of(drained.pairs()) == old(self).rows(),
            final(self).rows() == Seq::<(Seq<char>, Version)>::empty(),
            final(self)@ == Map::<Seq<char>, Version>::empty(),
            final(self).max_size() == old(self).max_size(),
    {
        self.recall_order();
        let mut table = MemTable::new(self.max_size_bytes);
        std::mem::swap(&mut table, self);
        table.data
    }

    /// Return a snapshot of all entries (non-destructive).
    pub fn snapshot(&self) -> (copy: StrMap<VersionedValue>)
        ensures
            keys_increase(self.rows()),
            rows_of(copy.pairs()) == self.rows(),
    {
        self.recall_order();
        let copy = self.data.clone();
        assert(rows_of(copy.pairs()) =~= self.rows());
        copy
    }

    /// Remove expired entries. Returns the number of entries removed.
    pub fn evict_expired(&mut self) -> (removed: usize)
        ensures
            keys_increase(old(self).rows()),
            keys_increase(final(self).rows()),
            exists|now: i64|
                now >= 0 && clock_reading(now)
                    && final(self).rows() == #[trigger] unexpired(old(self).rows(), now),
            removed == old(self).rows().len() - final(self).rows().len(),
            final(self).max_size() == old(self).max_size(),
    {
        let now = now_ms();
        self.evict_expired_at(now)
    }

    /// Remove the entries that have expired at a given time. Returns the number
    /// of entries removed.
    pub fn evict_expired_at(&mut self, now: i64) -> (removed: usize)
        ensures
            keys_increase(old(self).rows()),
            keys_increase(final(self).rows()),
            final(self).rows() == unexpired(old(self).rows(), now),
            removed == old(self).rows().len() - final(self).rows().len(),
            final(self).max_size() == old(self).max_size(),
    {
        self.recall_order();
        let mut table = MemTable::new(self.max_size_bytes);
        std::mem::swap(&mut table, self);
        let MemTable { mut data, size_bytes: _, max_size_bytes } = table;
        let ghost pairs = data.pairs();
        let ghost kept = |v: VersionedValue| !expired(v@, now);
        let before = data.len();
        let keep = |v: &VersionedValue| -> (ok: bool)
            ensures
                ok == kept(*v),
            { !v.is_expired_at(now) };
        data.retain(keep, Ghost(kept));
        proof {
            lemma_filter_map(
                pairs,
                |e: (Seq<char>, VersionedValue)| (e.0, e.1@),
                |e: (Seq<char>, VersionedValue)| kept(e.1),
                |row: (Seq<char>, Version)| !expired(row.1, now),
            );
            pairs.lemma_filter_len(|e: (Seq<char>, VersionedValue)| kept(e.1));
        }
        let left = data.len();
        let ghost rows = rows_of(data.pairs());
        let mut size: u64 = 0;
        let mut i: usize = 0;
        while i < left
            invariant
                i <= left,
                left == data.pairs().len(),
                rows == rows_of(data.pairs()),
                size == counter(total_size(rows.take(i as int)) as int),
            decreases left - i,
        {
            let (key, value) = data.at(i);
            assert(rows[i as int] == (key@, value@));
            assert(rows.take(i + 1).drop_last() =~= rows.take(i as int));
            proof {
                lemma_counter(
                    total_size(rows.take(i as int)) as int,
                    row_size(rows[i as int]) as int,
                );
            }
            size = size.wrapping_add(row_bytes(key.as_str(), value.value.len()));
            i = i + 1;
        }
        assert(rows.take(left as int) =~= rows);
        *self = MemTable { data, size_bytes: size, max_size_bytes };
        self.recall_order();
        before - left
    }

    /// Does nothing but recall that the keys increase.
    pub(crate) fn recall_order(&self)
        ensures
            keys_increase(self.rows()),
    {
        self.data.recall_order();
        proof {
            lemma_views(self.data.pairs());
        }
    }

    /// The number of stored entries, tombstones and expired ones included.
    pub fn len(&self) -> (n: usize)
        ensures
            n == self.rows().len(),
            keys_increase(self.rows()),
    {
        let n = self.data.len();
        proof {
            lemma_views(self.data.pairs());
        }
        n
    }

    /// Whether nothing is stored.
    pub fn is_empty(&self) -> (empty: bool)
        ensures
            empty == (self.rows().len() == 0),
    {
        self.data.len() == 0
    }

    /// The size of the stored entries, by a rough estimate.
    pub fn size_bytes(&self) -> (n: u64)
        ensures
            n == counter(total_size(self.rows()) as int),
    {
        proof {
            use_type_invariant(self);
        }
        self.size_bytes
    }

    /// Whether the stored entries reach the size that the table was made for.
    pub fn is_full(&self) -> (full: bool)
        ensures
            full == (counter(total_size(self.rows()) as int) >= self.max_size()),
    {
        self.size_bytes() >= self.max_size_bytes
    }
}

} // verus!

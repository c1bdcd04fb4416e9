//! Snapshot files: how one is framed, and which of them are loaded and kept.

use vstd::bytes::{spec_u32_from_le_bytes, spec_u32_to_le_bytes, u32_from_le_bytes, u32_to_le_bytes};
use vstd::prelude::*;
use vstd::relations::{sorted_by, total_ordering};
use vstd::slice::{slice_subrange, slice_to_vec};

use crate::digest::{crc32, push_all};
use crate::text::{
    compare_keys, compare_numbers, decimal, decimal_text, key_lt, leading_number, lemma_decimal,
    lemma_digit_run, lemma_key_lt_antisymmetric, lemma_key_lt_irreflexive, lemma_key_lt_total,
    lemma_key_lt_transitive, texts, Side,
};
use crate::wall_clock::{clock_reading, now_ms};

verus! {

/// A snapshot file's bytes: the checksum of the payload, then the payload.
pub open spec fn framed(payload: Seq<u8>) -> Seq<u8> {
    spec_u32_to_le_bytes(crc32(payload)) + payload
}

/// Why a snapshot file cannot be loaded.
#[derive(Clone, Copy, Debug, PartialEq, Eq, Structural)]
pub enum SnapshotError {
    /// The file ends before its checksum does.
    TooShort,
    /// The checksum is not that of the payload.
    ChecksumMismatch { expected: u32, actual: u32 },
}

impl SnapshotError {
    /// What the error says in words.
    pub open spec fn words(&self) -> Seq<char> {
        match self {
            SnapshotError::TooShort => "failed to fill whole buffer"@,
            SnapshotError::ChecksumMismatch { expected, actual } =>
                "Snapshot checksum mismatch: expected "@ + decimal(*expected as nat) + ", got "@
                    + decimal(*actual as nat),
        }
    }

    /// The error in words.
    pub fn message(&self) -> (text: String)
        ensures
            text@ == self.words(),
    {
        match self {
            SnapshotError::TooShort => "failed to fill whole buffer".to_string(),
            SnapshotError::ChecksumMismatch { expected, actual } => {
                let mut text = "Snapshot checksum mismatch: expected ".to_string();
                text.append(decimal_text(*expected as u64).as_str());
                text.append(", got ");
                text.append(decimal_text(*actual as u64).as_str());
                text
            },
        }
    }
}

/// The payload of a snapshot file, or why there is none, where it is known what
/// the checksum of the bytes behind the first four is.
pub open spec fn unframed_with(bytes: Seq<u8>, actual: u32) -> Result<Seq<u8>, SnapshotError> {
    if bytes.len() < 4 {
        Err(SnapshotError::TooShort)
    } else {
        let expected = spec_u32_from_le_bytes(bytes.take(4));
        if expected == actual {
            Ok(bytes.skip(4))
        } else {
            Err(SnapshotError::ChecksumMismatch { expected, actual })
        }
    }
}

/// The payload of a snapshot file, or why there is none.
pub open spec fn unframed(bytes: Seq<u8>) -> Result<Seq<u8>, SnapshotError> {
    unframed_with(bytes, crc32(bytes.skip(4)))
}

/// A loaded payload by its bytes.
pub open spec fn payload_of(loaded: Result<Vec<u8>, SnapshotError>) -> Result<
    Seq<u8>,
    SnapshotError,
> {
    match loaded {
        Ok(payload) => Ok(payload@),
        Err(e) => Err(e),
    }
}

/// The name of the snapshot file that is saved at a time.
pub open spec fn snapshot_name(time_ms: u64) -> Seq<char> {
    "snapshot_"@ + decimal(time_ms as nat) + ".dat"@
}

/// Whether a file is a snapshot file, by its name.
pub open spec fn is_snapshot(name: Seq<char>) -> bool {
    "snapshot_"@.is_prefix_of(name) && ".dat"@.is_suffix_of(name)
}

/// What follows the first nine characters of a name; in a snapshot file's name,
/// what follows `snapshot_`.
pub open spec fn stamp(name: Seq<char>) -> Seq<char> {
    if name.len() > 9 {
        name.skip(9)
    } else {
        Seq::empty()
    }
}

/// The place of a name among names by the first character of its stamp: before
/// the digits, a digit, or after the digits.
pub open spec fn stamp_rank(name: Seq<char>) -> int {
    if stamp(name).len() == 0 || '0' > stamp(name)[0] {
        0
    } else if '9' >= stamp(name)[0] {
        1
    } else {
        2
    }
}

/// The time that a name tells: the number that its stamp starts with.
pub open spec fn time_told(name: Seq<char>) -> nat {
    leading_number(stamp(name))
}

/// Whether a file is older than another, by their names: by the times that they
/// tell, where the stamps of both start with a digit and the times differ, and
/// else by the byte order of the names.
pub open spec fn older(a: Seq<char>, b: Seq<char>) -> bool {
    if stamp_rank(a) != stamp_rank(b) {
        stamp_rank(a) < stamp_rank(b)
    } else if stamp_rank(a) == 1 && time_told(a) != time_told(b) {
        time_told(a) < time_told(b)
    } else {
        key_lt(a, b)
    }
}

/// The names of the snapshot files among the files of a directory.
pub open spec fn snapshots_in(names: Seq<Seq<char>>) -> Seq<Seq<char>> {
    names.filter(|name: Seq<char>| is_snapshot(name))
}

/// The snapshot files of a directory, the oldest first.
pub open spec fn by_age(names: Seq<Seq<char>>) -> Seq<Seq<char>> {
    snapshots_in(names).sort_by(|a: Seq<char>, b: Seq<char>| !older(b, a))
}

/// The most recent snapshot file of a directory.
pub open spec fn latest(names: Seq<Seq<char>>) -> Option<Seq<char>> {
    if by_age(names).len() == 0 {
        None
    } else {
        Some(by_age(names).last())
    }
}

/// The snapshot files that are too many where `keep` are to stay: the oldest.
pub open spec fn surplus(names: Seq<Seq<char>>, keep: nat) -> Seq<Seq<char>> {
    let all = by_age(names);
    if all.len() > keep {
        all.take(all.len() - keep)
    } else {
        Seq::empty()
    }
}

/// A snapshot file's name is the prefix and the stamp, which is not empty.
pub proof fn lemma_snapshot_name(name: Seq<char>)
    requires
        is_snapshot(name),
    ensures
        name == "snapshot_"@ + stamp(name),
        stamp(name).len() >= 4,
{
    reveal_strlit("snapshot_");
    reveal_strlit(".dat");
    let n = name.len();
    assert forall|i: int| 0 <= i < 9 implies name[i] == "snapshot_"@[i] by {
        assert(name.subrange(0, 9)[i] == name[i]);
    }
    assert forall|i: int| 0 <= i < 4 implies name[n - 4 + i] == ".dat"@[i] by {
        assert(name.subrange(n - 4, n as int)[i] == name[n - 4 + i]);
    }
    if n < 13 {
        assert(name[8] == '_');
        assert(8 - (n - 4) >= 0);
        assert(name[n - 4 + (8 - (n - 4))] == ".dat"@[8 - (n - 4)]);
    }
    assert(name =~= "snapshot_"@ + stamp(name));
}

/// The name of a file saved at a time is a snapshot name and tells that time.
pub proof fn lemma_saved_name(time_ms: u64)
    ensures
        is_snapshot(snapshot_name(time_ms)),
        stamp_rank(snapshot_name(time_ms)) == 1,
        time_told(snapshot_name(time_ms)) == time_ms,
{
    reveal_strlit("snapshot_");
    reveal_strlit(".dat");
    let name = snapshot_name(time_ms);
    let digits = decimal(time_ms as nat);
    let n = digits.len() as int;
    lemma_decimal(time_ms as nat);
    assert("snapshot_"@ =~= name.subrange(0, 9));
    assert(".dat"@ =~= name.subrange(name.len() - 4, name.len() as int));
    let rest = stamp(name);
    assert(rest =~= digits + ".dat"@);
    assert(rest.take(n) =~= digits);
    assert(rest[0] == digits[0]);
    assert(rest[n] == '.');
    lemma_digit_run(rest, n);
}

/// "Not older" orders the names of files totally.
proof fn lemma_age_order()
    ensures
        total_ordering(|a: Seq<char>, b: Seq<char>| !older(b, a)),
{
    let leq = |a: Seq<char>, b: Seq<char>| !older(b, a);
    assert forall|x: Seq<char>| #[trigger] leq(x, x) by {
        lemma_key_lt_irreflexive(x);
    }
    assert forall|x: Seq<char>, y: Seq<char>| #[trigger] leq(x, y) && #[trigger] leq(
        y,
        x,
    ) implies x == y by {
        lemma_equal_age(x, y);
    }
    assert forall|x: Seq<char>, y: Seq<char>, z: Seq<char>| #[trigger] leq(x, y) && #[trigger] leq(
        y,
        z,
    ) implies leq(x, z) by {
        if !key_lt(y, x) && !key_lt(z, y) {
            lemma_not_before(x, y, z);
        }
    }
    assert forall|x: Seq<char>, y: Seq<char>| #[trigger] leq(x, y) || #[trigger] leq(y, x) by {
        if key_lt(x, y) {
            lemma_key_lt_antisymmetric(x, y);
        }
    }
}

/// Two names of which neither is older are the same name.
pub proof fn lemma_equal_age(a: Seq<char>, b: Seq<char>)
    requires
        !older(a, b),
        !older(b, a),
    ensures
        a == b,
{
    lemma_key_lt_total(a, b);
}

/// A key that is not before another is not before one that the other is not
/// before.
proof fn lemma_not_before(x: Seq<char>, y: Seq<char>, z: Seq<char>)
    requires
        !key_lt(y, x),
        !key_lt(z, y),
    ensures
        !key_lt(z, x),
{
    lemma_key_lt_total(x, y);
    lemma_key_lt_total(y, z);
    if key_lt(z, x) {
        if x != y && y != z {
            lemma_key_lt_transitive(x, y, z);
        }
        lemma_key_lt_antisymmetric(z, x);
    }
}

/// Whether a file is a snapshot file, by its name.
pub fn is_snapshot_name(name: &str) -> (yes: bool)
    ensures
        yes == is_snapshot(name@),
{
    proof {
        reveal_strlit("snapshot_");
        reveal_strlit(".dat");
    }
    let n = name.unicode_len();
    if n < 9 {
        return false;
    }
    let starts = compare_keys(name.substring_char(0, 9), "snapshot_") == Side::Same;
    let ends = compare_keys(name.substring_char(n - 4, n), ".dat") == Side::Same;
    starts && ends
}

/// What follows the first nine characters of a name.
fn stamp_of(name: &str) -> (rest: &str)
    ensures
        rest@ == stamp(name@),
{
    let n = name.unicode_len();
    if n > 9 {
        assert(name@.skip(9) =~= name@.subrange(9, n as int));
        name.substring_char(9, n)
    } else {
        assert(name@.subrange(n as int, n as int) =~= Seq::empty());
        name.substring_char(n, n)
    }
}

/// The place of a name among names by the first character of its stamp.
fn rank_of(name: &str) -> (rank: u8)
    ensures
        rank == stamp_rank(name@),
{
    let rest = stamp_of(name);
    if rest.unicode_len() == 0 {
        return 0;
    }
    let first = rest.get_char(0);
    if '0' > first {
        0
    } else if '9' >= first {
        1
    } else {
        2
    }
}

/// Whether a file is older than another, by their names.
pub fn is_older(a: &str, b: &str) -> (yes: bool)
    ensures
        yes == older(a@, b@),
{
    let p = rank_of(a);
    let q = rank_of(b);
    if p != q {
        return p < q;
    }
    if p == 1 {
        match compare_numbers(stamp_of(a), stamp_of(b)) {
            Side::Before => {
                return true;
            },
            Side::After => {
                return false;
            },
            Side::Same => {},
        }
    }
    compare_keys(a, b) == Side::Before
}

/// A checksum, the least significant byte first, and a payload behind it.
pub fn frame(checksum: u32, payload: &[u8]) -> (bytes: Vec<u8>)
    ensures
        bytes@ == spec_u32_to_le_bytes(checksum) + payload@,
{
    let mut bytes = u32_to_le_bytes(checksum);
    push_all(&mut bytes, payload);
    bytes
}

/// The payload behind a checksum, where it is known what the checksum of the
/// payload is.
pub fn unframe(bytes: &[u8], actual: u32) -> (loaded: Result<Vec<u8>, SnapshotError>)
    ensures
        payload_of(loaded) == unframed_with(bytes@, actual),
{
    if bytes.len() < 4 {
        return Err(SnapshotError::TooShort);
    }
    let head = slice_subrange(bytes, 0, 4);
    let data = slice_subrange(bytes, 4, bytes.len());
    assert(head@ =~= bytes@.take(4));
    assert(data@ =~= bytes@.skip(4));
    let expected = u32_from_le_bytes(head);
    if expected != actual {
        return Err(SnapshotError::ChecksumMismatch { expected, actual });
    }
    Ok(slice_to_vec(data))
}

/// A snapshot file: its name in the directory, and its bytes.
pub struct SnapshotFile {
    pub name: String,
    pub bytes: Vec<u8>,
}

/// The names of files.
pub open spec fn names_of(files: Seq<SnapshotFile>) -> Seq<Seq<char>> {
    files.map_values(|f: SnapshotFile| f.name@)
}

/// Puts a name where it belongs in a list from old to new.
fn insert_by_age(list: &mut Vec<String>, name: String)
    requires
        sorted_by(texts(old(list)@), |a: Seq<char>, b: Seq<char>| !older(b, a)),
    ensures
        sorted_by(texts(final(list)@), |a: Seq<char>, b: Seq<char>| !older(b, a)),
        texts(final(list)@).to_multiset() == texts(old(list)@).to_multiset().insert(name@),
{
    broadcast use vstd::seq_lib::group_to_multiset_ensures;

    let ghost leq = |a: Seq<char>, b: Seq<char>| !older(b, a);
    let ghost before = texts(list@);
    let mut at = list.len();
    while at > 0 && is_older(name.as_str(), list[at - 1].as_str())
        invariant
            at <= list@.len(),
            before == texts(list@),
            forall|i: int| at <= i < before.len() ==> older(name@, #[trigger] before[i]),
        decreases at,
    {
        assert(before[at - 1] == list@[at - 1]@);
        at = at - 1;
    }
    proof {
        lemma_age_order();
        let after = before.insert(at as int, name@);
        if at > 0 {
            assert(before[at - 1] == list@[at - 1]@);
        }
        assert forall|i: int, j: int| 0 <= i < j < after.len() implies #[trigger] leq(
            after[i],
            after[j],
        ) by {
            if j < at {
                assert(leq(before[i], before[j]));
            } else if j == at {
                assert(leq(before[at - 1], name@));
                if i < at - 1 {
                    assert(leq(before[i], before[at - 1]));
                }
            } else if i == at {
                assert(older(name@, before[j - 1]));
                assert(leq(name@, before[j - 1]) || leq(before[j - 1], name@));
            } else if i < at {
                assert(leq(before[i], before[j - 1]));
            } else {
                assert(leq(before[i - 1], before[j - 1]));
            }
        }
    }
    list.insert(at, name);
    assert(texts(list@) =~= before.insert(at as int, name@));
}

/// Manages periodic snapshots of the MemTable in a directory.
pub struct SnapshotManager {
    dir: String,
}

impl SnapshotManager {
    /// The directory of the snapshot files.
    pub closed spec fn place(&self) -> Seq<char> {
        self.dir@
    }

    /// A manager of the snapshots in a directory.
    pub fn new(dir: String) -> (manager: Self)
        ensures
            manager.place() == dir@,
    {
        SnapshotManager { dir }
    }

    /// The snapshot file of a serialized table.
    /// File format: [4 bytes checksum][data bytes]
    pub fn save(&self, serialized: &[u8]) -> (file: SnapshotFile)
        ensures
            file.bytes@ == framed(serialized@),
            exists|now: i64|
                now >= 0 && clock_reading(now)
                    && file.name@ == #[trigger] snapshot_name(now as u64),
    {
        let now = now_ms();
        self.save_at(serialized, now as u64)
    }

    /// The snapshot file of a serialized table that is saved at a given time.
    pub fn save_at(&self, serialized: &[u8], now: u64) -> (file: SnapshotFile)
        ensures
            file.bytes@ == framed(serialized@),
            file.name@ == snapshot_name(now),
    {
        let mut name = "snapshot_".to_string();
        name.append(decimal_text(now).as_str());
        name.append(".dat");
        let checksum = crc32fast::hash(serialized);
        SnapshotFile { name, bytes: frame(checksum, serialized) }
    }

    /// The serialized table in the latest of the snapshot files.
    pub fn load_latest(
        &self,
        files: &Vec<SnapshotFile>,
    ) -> (loaded: Result<Option<Vec<u8>>, SnapshotError>)
        ensures
            match latest(names_of(files@)) {
                None => loaded == Ok::<Option<Vec<u8>>, SnapshotError>(None),
                Some(name) => exists|i: int|
                    {
                        &&& 0 <= i < files@.len()
                        &&& (#[trigger] files@[i]).name@ == name
                        &&& match unframed(files@[i].bytes@) {
                            Ok(payload) => loaded matches Ok(Some(p)) && p@ == payload,
                            Err(e) => loaded == Err::<Option<Vec<u8>>, SnapshotError>(e),
                        }
                    },
            },
    {
        let mut names: Vec<String> = Vec::new();
        let mut i: usize = 0;
        while i < files.len()
            invariant
                i <= files@.len(),
                names@.len() == i,
                forall|j: int| 0 <= j < i ==> (#[trigger] names@[j])@ == files@[j].name@,
            decreases files@.len() - i,
        {
            names.push(files[i].name.clone());
            i = i + 1;
        }
        assert(texts(names@) =~= names_of(files@));
        match self.find_latest(&names) {
            None => Ok(None),
            Some(k) => {
                assert(texts(names@)[k as int] == files@[k as int].name@);
                match self.load_snapshot(files[k].bytes.as_slice()) {
                    Ok(payload) => Ok(Some(payload)),
                    Err(e) => Err(e),
                }
            },
        }
    }

    /// The serialized table in a specific snapshot file.
    pub fn load_snapshot(&self, bytes: &[u8]) -> (loaded: Result<Vec<u8>, SnapshotError>)
        ensures
            payload_of(loaded) == unframed(bytes@),
    {
        if bytes.len() < 4 {
            return Err(SnapshotError::TooShort);
        }
        let data = slice_subrange(bytes, 4, bytes.len());
        assert(data@ =~= bytes@.skip(4));
        let actual = crc32fast::hash(data);
        unframe(bytes, actual)
    }

    /// The snapshot files among the files of a directory, the oldest first.
    pub fn list_by_age(&self, names: &Vec<String>) -> (list: Vec<String>)
        ensures
            texts(list@) == by_age(texts(names@)),
    {
        broadcast use vstd::seq_lib::group_to_multiset_ensures;

        let ghost leq = |a: Seq<char>, b: Seq<char>| !older(b, a);
        let ghost wanted = |name: Seq<char>| is_snapshot(name);
        let ghost all = texts(names@);
        let mut list: Vec<String> = Vec::new();
        let mut i: usize = 0;
        proof {
            crate::seqs::lemma_filter_nothing(all.take(0), wanted);
            assert(texts(list@) =~= Seq::<Seq<char>>::empty());
            assert(texts(list@).to_multiset() =~= all.take(0).filter(wanted).to_multiset());
        }
        while i < names.len()
            invariant
                i <= names@.len(),
                all == texts(names@),
                leq == (|a: Seq<char>, b: Seq<char>| !older(b, a)),
                wanted == (|name: Seq<char>| is_snapshot(name)),
                sorted_by(texts(list@), leq),
                texts(list@).to_multiset() == all.take(i as int).filter(wanted).to_multiset(),
            decreases names@.len() - i,
        {
            proof {
                let kept = all.take(i as int).filter(wanted);
                crate::seqs::lemma_filter_step(all, i as int, wanted);
                vstd::seq_lib::to_multiset_build(kept, all[i as int]);
            }
            assert(all[i as int] == names@[i as int]@);
            if is_snapshot_name(names[i].as_str()) {
                insert_by_age(&mut list, names[i].clone());
            }
            i = i + 1;
        }
        proof {
            assert(all.take(all.len() as int) =~= all);
            lemma_age_order();
            snapshots_in(all).lemma_sort_by_ensures(leq);
            vstd::seq_lib::lemma_sorted_unique(texts(list@), by_age(all), leq);
        }
        list
    }

    /// Find the most recent snapshot file among the files of a directory, by
    /// its place among their names.
    pub fn find_latest(&self, names: &Vec<String>) -> (found: Option<usize>)
        ensures
            found is None <==> latest(texts(names@)) is None,
            found matches Some(i) ==> i < names@.len() && latest(texts(names@)) == Some(
                names@[i as int]@,
            ),
    {
        broadcast use vstd::seq_lib::group_to_multiset_ensures;

        let list = self.list_by_age(names);
        let ghost all = texts(names@);
        let n = list.len();
        assert(texts(list@).len() == n);
        if n == 0 {
            return None;
        }
        let last = &list[n - 1];
        assert(texts(list@)[n - 1] == last@);
        let mut i: usize = 0;
        while i < names.len()
            invariant
                i <= names@.len(),
                forall|j: int| 0 <= j < i ==> (#[trigger] names@[j])@ != last@,
                n == list@.len(),
                n > 0,
                last@ == list@[n - 1]@,
                texts(list@) == by_age(texts(names@)),
            decreases names@.len() - i,
        {
            if compare_keys(names[i].as_str(), last.as_str()) == Side::Same {
                assert(by_age(texts(names@)).last() == last@);
                return Some(i);
            }
            i = i + 1;
        }
        proof {
            lemma_age_order();
            lemma_by_age(all);
            assert(by_age(all).contains(texts(list@)[n - 1]));
            let j = choose|j: int| 0 <= j < all.len() && all[j] == last@;
            assert(names@[j]@ == last@);
            assert(false);
        }
        None
    }

    /// The names of the old snapshots to remove, so that only the `keep` most
    /// recent stay; the oldest first.
    pub fn cleanup(&self, names: &Vec<String>, keep: usize) -> (removed: Vec<String>)
        ensures
            texts(removed@) == surplus(texts(names@), keep as nat),
    {
        let mut list = self.list_by_age(names);
        let ghost all = texts(list@);
        let n = list.len();
        assert(all.len() == n);
        if n > keep {
            list.truncate(n - keep);
            assert(texts(list@) =~= all.take(n - keep));
            list
        } else {
            let none: Vec<String> = Vec::new();
            assert(texts(none@) =~= Seq::empty());
            none
        }
    }

    /// The directory of the snapshot files.
    pub fn dir(&self) -> (dir: &str)
        ensures
            dir@ == self.place(),
    {
        self.dir.as_str()
    }
}

/// The list by age holds the snapshot names as often as the directory does.
pub proof fn lemma_by_age_multiset(names: Seq<Seq<char>>)
    ensures
        by_age(names).to_multiset() == snapshots_in(names).to_multiset(),
{
    lemma_age_order();
    snapshots_in(names).lemma_sort_by_ensures(|a: Seq<char>, b: Seq<char>| !older(b, a));
}

/// The list by age holds the snapshot names of the directory and is in order.
pub proof fn lemma_by_age(names: Seq<Seq<char>>)
    ensures
        by_age(names).len() == snapshots_in(names).len(),
        forall|name: Seq<char>| #[trigger]
            by_age(names).contains(name) <==> names.contains(name) && is_snapshot(name),
        forall|i: int, j: int|
            0 <= i < j < by_age(names).len() ==> !older(
                #[trigger] by_age(names)[j],
                #[trigger] by_age(names)[i],
            ),
{
    broadcast use vstd::seq_lib::group_to_multiset_ensures;
    broadcast use vstd::seq_lib::group_filter_ensures;

    let leq = |a: Seq<char>, b: Seq<char>| !older(b, a);
    let snaps = snapshots_in(names);
    let list = by_age(names);
    lemma_age_order();
    snaps.lemma_sort_by_ensures(leq);
    assert(list.to_multiset().len() == list.len());
    assert(snaps.to_multiset().len() == snaps.len());
    assert forall|name: Seq<char>| #[trigger]
        list.contains(name) <==> names.contains(name) && is_snapshot(name) by {
        assert(list.contains(name) <==> list.to_multiset().count(name) > 0);
        assert(snaps.contains(name) <==> snaps.to_multiset().count(name) > 0);
        if snaps.contains(name) {
            let i = choose|i: int| 0 <= i < snaps.len() && snaps[i] == name;
            crate::seqs::lemma_filter_source(names, |n: Seq<char>| is_snapshot(n), i);
        }
        if names.contains(name) && is_snapshot(name) {
            let i = choose|i: int| 0 <= i < names.len() && names[i] == name;
            assert(snaps.contains(names[i]));
        }
    }
    assert forall|i: int, j: int| 0 <= i < j < list.len() implies !older(
        #[trigger] list[j],
        #[trigger] list[i],
    ) by {
        assert(leq(list[i], list[j]));
    }
}

} // verus!

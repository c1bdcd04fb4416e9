//! The append-only log of mutations that recovery replays.

use vstd::bytes::{spec_u64_to_le_bytes, u64_to_le_bytes};
use vstd::prelude::*;
use vstd::utf8::encode_utf8;

use crate::digest::{crc32, push_all};
use crate::storage::memtable::{Version, VersionedValue};
use crate::text::{blank, is_blank};

verus! {

/// What a log entry holds.
#[verifier::ext_equal]
pub struct Record {
    pub sequence: u64,
    pub key: Seq<char>,
    pub value: Version,
    pub checksum: u32,
}

/// The bytes that the checksum of an entry covers: its number, its key, its
/// value's bytes and its timestamp.
pub open spec fn covered(sequence: u64, key: Seq<char>, value: Version) -> Seq<u8> {
    spec_u64_to_le_bytes(sequence) + encode_utf8(key) + value.value + spec_u64_to_le_bytes(
        value.timestamp_ms as u64,
    )
}

/// The checksum that an entry with these fields carries.
pub open spec fn checksum_of(sequence: u64, key: Seq<char>, value: Version) -> u32 {
    crc32(covered(sequence, key, value))
}

/// The entry with these fields and their checksum.
pub open spec fn record(sequence: u64, key: Seq<char>, value: Version) -> Record {
    Record { sequence, key, value, checksum: checksum_of(sequence, key, value) }
}

/// Whether an entry carries the checksum of its fields.
pub open spec fn intact(r: Record) -> bool {
    r.checksum == checksum_of(r.sequence, r.key, r.value)
}

/// A single WAL entry representing one mutation.
#[derive(Debug)]
pub struct WalEntry {
    pub sequence: u64,
    pub key: String,
    pub value: VersionedValue,
    pub checksum: u32,
}

impl View for WalEntry {
    type V = Record;

    open spec fn view(&self) -> Record {
        Record {
            sequence: self.sequence,
            key: self.key@,
            value: self.value@,
            checksum: self.checksum,
        }
    }
}

impl Clone for WalEntry {
    fn clone(&self) -> (copy: Self)
        ensures
            copy@ == self@,
    {
        WalEntry {
            sequence: self.sequence,
            key: self.key.clone(),
            value: self.value.clone(),
            checksum: self.checksum,
        }
    }
}

impl WalEntry {
    /// An entry with its checksum.
    pub fn new(sequence: u64, key: String, value: VersionedValue) -> (entry: Self)
        ensures
            entry@ == record(sequence, key@, value@),
    {
        let mut entry = WalEntry { sequence, key, value, checksum: 0 };
        let checksum = entry.compute_checksum();
        entry.checksum = checksum;
        entry
    }

    /// The bytes that the checksum covers.
    pub fn covered_bytes(&self) -> (bytes: Vec<u8>)
        ensures
            bytes@ == covered(self.sequence, self.key@, self.value@),
    {
        let mut bytes = u64_to_le_bytes(self.sequence);
        push_all(&mut bytes, self.key.as_str().as_bytes());
        push_all(&mut bytes, self.value.value.as_slice());
        let stamp = u64_to_le_bytes(self.value.timestamp_ms as u64);
        push_all(&mut bytes, stamp.as_slice());
        bytes
    }

    /// The checksum of the entry's fields.
    pub fn compute_checksum(&self) -> (sum: u32)
        ensures
            sum == checksum_of(self.sequence, self.key@, self.value@),
    {
        let bytes = self.covered_bytes();
        crc32fast::hash(bytes.as_slice())
    }

    /// Whether the checksum is that of the fields.
    pub fn verify(&self) -> (ok: bool)
        ensures
            ok == intact(self@),
    {
        self.compute_checksum() == self.checksum
    }
}

/// One line of a log file: it could not be read, or it has a text, which
/// parses as an entry or does not.
#[derive(Debug)]
pub enum LogLine {
    Unreadable,
    Text { text: String, parsed: Option<WalEntry> },
}

/// What a line of a log file holds.
pub enum Line {
    Unreadable,
    Text { text: Seq<char>, parsed: Option<Record> },
}

impl View for LogLine {
    type V = Line;

    open spec fn view(&self) -> Line {
        match self {
            LogLine::Unreadable => Line::Unreadable,
            LogLine::Text { text, parsed } => Line::Text {
                text: text@,
                parsed: match parsed {
                    Some(entry) => Some(entry@),
                    None => None,
                },
            },
        }
    }
}

/// What the lines of a log file hold.
pub open spec fn lines_of(lines: Seq<LogLine>) -> Seq<Line> {
    lines.map_values(|line: LogLine| line@)
}

/// What log entries hold.
pub open spec fn records_of(entries: Seq<WalEntry>) -> Seq<Record> {
    entries.map_values(|entry: WalEntry| entry@)
}

/// The entry that recovery takes from a line: the one that its text parses
/// as, where it is not blank and the entry is intact.
pub open spec fn recovered(line: Line) -> Option<Record> {
    match line {
        Line::Text { text, parsed: Some(r) } => if !blank(text) && intact(r) {
            Some(r)
        } else {
            None
        },
        _ => None,
    }
}

/// Whether a line has a text that is not blank and yet gives no entry.
pub open spec fn corrupt(line: Line) -> bool {
    line is Text && !blank(line->text) && recovered(line) is None
}

/// What a line gives to recovery.
pub enum Found {
    /// Nothing, and nothing is wrong with it.
    Nothing,
    /// An intact entry.
    Entry(WalEntry),
    /// Something that is not an intact entry.
    Corrupt,
}

impl LogLine {
    /// The checksum of the fields of the entry that the line parses as; 0
    /// where it parses as none.
    pub open spec fn sum(&self) -> u32 {
        match self {
            LogLine::Text { text, parsed: Some(entry) } => checksum_of(
                entry.sequence,
                entry.key@,
                entry.value@,
            ),
            _ => 0,
        }
    }

    /// The checksum of the fields of the entry that the line parses as.
    fn compute_sum(&self) -> (sum: u32)
        ensures
            sum == self.sum(),
    {
        match self {
            LogLine::Text { text: _, parsed: Some(entry) } => entry.compute_checksum(),
            _ => 0,
        }
    }

    /// Whether the line has a text and it is blank.
    fn has_blank_text(&self) -> (yes: bool)
        ensures
            yes == (self@ matches Line::Text { text, parsed } && blank(text)),
    {
        match self {
            LogLine::Text { text, parsed: _ } => is_blank(text.as_str()),
            LogLine::Unreadable => false,
        }
    }

    /// What the line gives to recovery, where it is known whether its text is
    /// blank and what the checksum of its entry's fields is.
    pub fn examine(self, blank_text: bool, sum: u32) -> (found: Found)
        ensures
            match self {
                LogLine::Unreadable => found is Nothing,
                LogLine::Text { text, parsed } => if blank_text {
                    found is Nothing
                } else {
                    match parsed {
                        Some(entry) => if entry.checksum == sum {
                            found == Found::Entry(entry)
                        } else {
                            found is Corrupt
                        },
                        None => found is Corrupt,
                    }
                },
            },
    {
        match self {
            LogLine::Unreadable => Found::Nothing,
            LogLine::Text { text: _, parsed } => {
                if blank_text {
                    return Found::Nothing;
                }
                match parsed {
                    Some(entry) => {
                        if entry.checksum == sum {
                            Found::Entry(entry)
                        } else {
                            Found::Corrupt
                        }
                    },
                    None => Found::Corrupt,
                }
            },
        }
    }
}

/// The entries that recovery takes from a log, in order.
pub open spec fn replayed(lines: Seq<Line>) -> Seq<Record>
    decreases lines.len(),
{
    if lines.len() == 0 {
        Seq::empty()
    } else {
        let before = replayed(lines.drop_last());
        match recovered(lines.last()) {
            Some(r) => before.push(r),
            None => before,
        }
    }
}

/// The number of corrupt lines of a log.
pub open spec fn corrupt_lines(lines: Seq<Line>) -> nat {
    lines.filter(|line: Line| corrupt(line)).len()
}

/// The highest number of the entries that the lines of a log parse as; 0
/// where there are none.
pub open spec fn highest(lines: Seq<Line>) -> u64
    decreases lines.len(),
{
    if lines.len() == 0 {
        0
    } else {
        let before = highest(lines.drop_last());
        match lines.last() {
            Line::Text { text, parsed: Some(r) } => if before < r.sequence {
                r.sequence
            } else {
                before
            },
            _ => before,
        }
    }
}

/// What a replay found: the valid entries, and how many lines were corrupt.
pub struct Replay {
    pub entries: Vec<WalEntry>,
    pub corrupt: usize,
}

/// Append-only write-ahead log for crash recovery. It numbers the entries;
/// each is to be written as a line of the file at its path.
pub struct WriteAheadLog {
    path: String,
    sequence: u64,
}

impl WriteAheadLog {
    /// The number of the last entry.
    pub closed spec fn last(&self) -> u64 {
        self.sequence
    }

    /// The path of the log file.
    pub closed spec fn file(&self) -> Seq<char> {
        self.path@
    }

    /// Open a WAL over the lines of its file, going on from the highest number
    /// among them.
    pub fn open(path: String, lines: &Vec<LogLine>) -> (wal: Self)
        ensures
            wal.last() == highest(lines_of(lines@)),
            wal.file() == path@,
    {
        let sequence = Self::recover_sequence(lines);
        WriteAheadLog { path, sequence }
    }

    /// Make the next entry of the WAL, which is numbered one higher than the
    /// last. It is to be appended to the file.
    pub fn append(&mut self, key: String, value: VersionedValue) -> (entry: WalEntry)
        requires
            old(self).last() < u64::MAX,
        ensures
            entry@ == record((old(self).last() + 1) as u64, key@, value@),
            final(self).last() == old(self).last() + 1,
            final(self).file() == old(self).file(),
    {
        self.sequence = self.sequence + 1;
        WalEntry::new(self.sequence, key, value)
    }

    /// Replay all valid entries from the lines of a WAL file. Used for crash
    /// recovery.
    pub fn replay(lines: Vec<LogLine>) -> (found: Replay)
        ensures
            records_of(found.entries@) == replayed(lines_of(lines@)),
            found.corrupt == corrupt_lines(lines_of(lines@)),
    {
        let ghost all = lines_of(lines@);
        let ghost bad = |line: Line| corrupt(line);
        let n = lines.len();
        let mut entries: Vec<WalEntry> = Vec::new();
        let mut corrupt_count: usize = 0;
        assert(all.take(0) =~= Seq::empty());
        assert(records_of(entries@) =~= replayed(all.take(0)));
        proof {
            crate::seqs::lemma_filter_nothing(all.take(0), bad);
        }
        for line in it: lines
            invariant
                it.seq() == lines@,
                n == lines@.len(),
                all == lines_of(lines@),
                bad == (|line: Line| corrupt(line)),
                records_of(entries@) == replayed(all.take(it.index())),
                corrupt_count == all.take(it.index()).filter(bad).len(),
                corrupt_count <= it.index(),
        {
            let ghost i = it.index();
            let ghost before = entries@;
            proof {
                crate::seqs::lemma_filter_step(all, i, bad);
            }
            assert(all[i] == line@);
            assert(all.take(i + 1).drop_last() =~= all.take(i));
            let blank_text = line.has_blank_text();
            let sum = line.compute_sum();
            match line.examine(blank_text, sum) {
                Found::Nothing => {},
                Found::Entry(entry) => {
                    entries.push(entry);
                    assert(records_of(entries@) =~= records_of(before).push(entry@));
                },
                Found::Corrupt => {
                    corrupt_count = corrupt_count + 1;
                },
            }
        }
        assert(all.take(all.len() as int) =~= all);
        Replay { entries, corrupt: corrupt_count }
    }

    /// Start over after a successful snapshot: the file is to be emptied, and
    /// numbers start from the beginning.
    pub fn truncate(&mut self)
        ensures
            final(self).last() == 0,
            final(self).file() == old(self).file(),
    {
        self.sequence = 0;
    }

    /// Get the current sequence number.
    pub fn sequence(&self) -> (n: u64)
        ensures
            n == self.last(),
    {
        self.sequence
    }

    /// Get the path to the WAL file.
    pub fn path(&self) -> (path: &str)
        ensures
            path@ == self.file(),
    {
        self.path.as_str()
    }

    /// Recover the highest sequence number from the lines of a WAL file.
    pub fn recover_sequence(lines: &Vec<LogLine>) -> (n: u64)
        ensures
            n == highest(lines_of(lines@)),
    {
        let ghost all = lines_of(lines@);
        let mut max_seq: u64 = 0;
        let mut i: usize = 0;
        while i < lines.len()
            invariant
                i <= lines@.len(),
                all == lines_of(lines@),
                max_seq == highest(all.take(i as int)),
            decreases lines@.len() - i,
        {
            assert(all[i as int] == lines@[i as int]@);
            assert(all.take(i + 1).drop_last() =~= all.take(i as int));
            if let LogLine::Text { text: _, parsed: Some(entry) } = &lines[i] {
                if max_seq < entry.sequence {
                    max_seq = entry.sequence;
                }
            }
            i = i + 1;
        }
        assert(all.take(all.len() as int) =~= all);
        max_seq
    }
}

} // verus!

//! The raft log of a replica: what it holds, how it changes, and the file that
//! it is kept in.
//!
//! File layout: the hard state, the members, the snapshot, then the number of
//! entries as a 32-bit integer, then the entries. Each message is preceded by its
//! length, a 32-bit integer. All integers are big-endian.

use vstd::prelude::*;
use vstd::slice::slice_subrange;
use vstd::string::*;

use crate::be;
use crate::be::{get_u32, put_be, put_slice};
use crate::buffer::bytes_from_vec;
use crate::replication::messages;
use crate::replication::messages::{
    entry_size, parse_conf_state, parse_entry, parse_hard_state, parse_snapshot, write_conf_state,
    write_entry, write_hard_state, write_snapshot, ConfModel, ConfState, Entry, EntryModel,
    HardState, Snapshot, SnapshotModel,
};

verus! {

/// Why the log cannot answer.
#[derive(Debug, Clone, Copy, PartialEq, Eq, Structural)]
pub enum StorageError {
    Compacted,
    Unavailable,
    SnapshotOutOfDate,
}

/// Why the log cannot be changed.
#[derive(Debug, Clone, Copy, PartialEq, Eq, Structural)]
pub enum LogError {
    OverwritesCompacted,
    CompactsBeyondEnd,
    Storage(StorageError),
}

/// Why a file is not the state of a log.
#[derive(Debug, Clone, Copy, PartialEq, Eq, Structural)]
pub enum StateFileError {
    TruncatedLength,
    TruncatedPayload,
    MissingEntryCount,
    Codec,
}

/// The text that describes a storage error.
pub open spec fn storage_error_text(e: StorageError) -> Seq<char> {
    match e {
        StorageError::Compacted => "log compacted"@,
        StorageError::Unavailable => "log unavailable"@,
        StorageError::SnapshotOutOfDate => "snapshot out of date"@,
    }
}

/// The text that describes why the log cannot be changed.
pub open spec fn log_error_text(e: LogError) -> Seq<char> {
    match e {
        LogError::OverwritesCompacted => "attempted to overwrite compacted raft entries"@,
        LogError::CompactsBeyondEnd => "compact index beyond last raft log index"@,
        LogError::Storage(e) => storage_error_text(e),
    }
}

/// The text that describes why a file is not the state of a log.
pub open spec fn state_file_error_text(e: StateFileError) -> Seq<char> {
    match e {
        StateFileError::TruncatedLength => "corrupt raft storage state: truncated length"@,
        StateFileError::TruncatedPayload =>
            "corrupt raft storage state: truncated protobuf payload"@,
        StateFileError::MissingEntryCount => "corrupt raft storage state: missing entry count"@,
        StateFileError::Codec => "corrupt raft storage state: protobuf"@,
    }
}

impl StorageError {
    /// Describes the error.
    pub fn describe(&self) -> (s: String)
        ensures
            s@ == storage_error_text(*self),
    {
        match self {
            StorageError::Compacted => String::from_str("log compacted"),
            StorageError::Unavailable => String::from_str("log unavailable"),
            StorageError::SnapshotOutOfDate => String::from_str("snapshot out of date"),
        }
    }
}

impl LogError {
    /// Describes the error.
    pub fn describe(&self) -> (s: String)
        ensures
            s@ == log_error_text(*self),
    {
        match self {
            LogError::OverwritesCompacted => String::from_str(
                "attempted to overwrite compacted raft entries",
            ),
            LogError::CompactsBeyondEnd => String::from_str(
                "compact index beyond last raft log index",
            ),
            LogError::Storage(e) => e.describe(),
        }
    }
}

impl StateFileError {
    /// Describes the error.
    pub fn describe(&self) -> (s: String)
        ensures
            s@ == state_file_error_text(*self),
    {
        match self {
            StateFileError::TruncatedLength => String::from_str(
                "corrupt raft storage state: truncated length",
            ),
            StateFileError::TruncatedPayload => String::from_str(
                "corrupt raft storage state: truncated protobuf payload",
            ),
            StateFileError::MissingEntryCount => String::from_str(
                "corrupt raft storage state: missing entry count",
            ),
            StateFileError::Codec => String::from_str("corrupt raft storage state: protobuf"),
        }
    }
}

/// The state of a log: what a replica promised, its members, its entries, and
/// the snapshot that stands for what came before them.
pub struct PersistentState {
    pub hard_state: HardState,
    pub conf_state: ConfState,
    pub entries: Vec<Entry>,
    pub snapshot: Snapshot,
}

/// The state of a log as plain values.
#[verifier::ext_equal]
pub struct StateModel {
    pub hard_state: HardState,
    pub conf_state: ConfModel,
    pub entries: Seq<EntryModel>,
    pub snapshot: SnapshotModel,
}

/// Entries as plain values.
pub open spec fn entry_models(entries: Seq<Entry>) -> Seq<EntryModel> {
    entries.map_values(|e: Entry| e@)
}

impl View for PersistentState {
    type V = StateModel;

    open spec fn view(&self) -> StateModel {
        StateModel {
            hard_state: self.hard_state,
            conf_state: self.conf_state@,
            entries: entry_models(self.entries@),
            snapshot: self.snapshot@,
        }
    }
}

/// The index of the first entry of a log, or of the one that is to come.
pub open spec fn log_first(s: StateModel) -> int {
    if s.entries.len() > 0 {
        s.entries[0].index as int
    } else {
        s.snapshot.index + 1
    }
}

/// The index of the last entry of a log, or of the last one that the snapshot
/// covers.
pub open spec fn log_last(s: StateModel) -> int {
    if s.entries.len() > 0 {
        s.entries.last().index as int
    } else {
        s.snapshot.index as int
    }
}

/// Whether entries carry consecutive indexes.
pub open spec fn consecutive(entries: Seq<EntryModel>) -> bool {
    forall|i: int|
        0 <= i < entries.len() ==> (#[trigger] entries[i]).index == entries[0].index + i
}

/// Whether a log has no gaps and room for one more entry.
pub open spec fn log_wf(s: StateModel) -> bool {
    &&& consecutive(s.entries)
    &&& log_last(s) < u64::MAX
}

/// The term of the entry at an index.
pub open spec fn log_term(s: StateModel, idx: u64) -> Result<u64, StorageError> {
    if idx == s.snapshot.index {
        Ok(s.snapshot.term)
    } else if idx < log_first(s) - 1 {
        Err(StorageError::Compacted)
    } else if idx < log_first(s) {
        Ok(s.snapshot.term)
    } else if idx > log_last(s) {
        Err(StorageError::Unavailable)
    } else {
        Ok(s.entries[idx - log_first(s)].term)
    }
}

/// Whether a log can be asked for the term at an index. Between the ends of a log
/// with gaps there may be no entry for it.
pub open spec fn has_term_at(s: StateModel, idx: u64) -> bool {
    idx == s.snapshot.index || {
        &&& log_first(s) <= u64::MAX
        &&& log_first(s) <= idx <= log_last(s) ==> idx - log_first(s) < s.entries.len()
    }
}

/// Whether a log can be asked for the entries from `low` up to but not including
/// `high`. Within the log the bounds are in order, and there is an entry for each
/// index; a log with gaps may have none.
pub open spec fn has_entries_in(s: StateModel, low: u64, high: u64) -> bool {
    &&& log_first(s) <= u64::MAX
    &&& low >= log_first(s) ==> log_last(s) < u64::MAX
    &&& s.entries.len() > 0 && low >= log_first(s) && high <= log_last(s) + 1 ==> low <= high
        && high - log_first(s) <= s.entries.len()
}

/// Whether a log can be compacted to an index. A log with gaps may have fewer
/// entries than indexes.
pub open spec fn can_compact_to(s: StateModel, compact_index: u64) -> bool {
    &&& log_first(s) <= u64::MAX
    &&& compact_index > log_first(s) ==> log_last(s) < u64::MAX && (compact_index <= log_last(s)
        + 1 ==> compact_index - log_first(s) <= s.entries.len())
}

/// A log without gaps can be asked for the term at every index, for all entries
/// in order, and can be compacted to every index.
pub proof fn law_well_formed_log_answers(s: StateModel, low: u64, high: u64)
    requires
        log_wf(s),
    ensures
        has_term_at(s, low),
        low <= high ==> has_entries_in(s, low, high),
        can_compact_to(s, low),
{
    if s.entries.len() > 0 {
        assert(s.entries[s.entries.len() - 1].index == s.entries[0].index + s.entries.len() - 1);
    }
}

/// A log that is started: the members, and one empty entry.
pub open spec fn bootstrapped(conf_state: ConfModel) -> StateModel {
    StateModel {
        hard_state: HardState { term: 1, vote: 0, commit: 1 },
        conf_state,
        entries: seq![messages::empty_entry(1, 1)],
        snapshot: messages::empty_snapshot(conf_state),
    }
}

/// A log after entries were appended: those that stood at the index of the
/// first new one or above are gone.
pub open spec fn appended(s: StateModel, ents: Seq<EntryModel>) -> StateModel {
    if ents.len() == 0 {
        s
    } else {
        let keep = ents[0].index - log_first(s);
        StateModel {
            entries: (if ents[0].index <= log_last(s) && keep < s.entries.len() {
                s.entries.take(keep)
            } else {
                s.entries
            }) + ents,
            ..s
        }
    }
}

/// What appending entries gives: whether anything is to be stored, or why it is refused.
pub open spec fn append_result(s: StateModel, ents: Seq<EntryModel>) -> Result<bool, LogError> {
    if ents.len() == 0 {
        Ok(false)
    } else if ents[0].index < log_first(s) {
        Err(LogError::OverwritesCompacted)
    } else {
        Ok(true)
    }
}

/// What compacting a log gives: whether anything is to be stored, or why it is refused.
pub open spec fn compact_result(s: StateModel, compact_index: u64) -> Result<bool, LogError> {
    if compact_index <= log_first(s) {
        Ok(false)
    } else if compact_index > log_last(s) + 1 {
        Err(LogError::CompactsBeyondEnd)
    } else {
        Ok(true)
    }
}

/// Why a log cannot give the entries of a range, if it cannot.
pub open spec fn entries_error(s: StateModel, low: u64, high: u64) -> Option<StorageError> {
    if low < log_first(s) {
        Some(StorageError::Compacted)
    } else if high > log_last(s) + 1 {
        Some(StorageError::Unavailable)
    } else {
        None
    }
}

/// A log after a snapshot of the state machine at an index was taken, or the reason for
/// which it cannot be taken.
pub open spec fn snapshot_taken(s: StateModel, index: u64, data: Seq<u8>) -> Result<
    StateModel,
    StorageError,
> {
    match log_term(s, index) {
        Ok(term) => Ok(
            StateModel {
                snapshot: SnapshotModel { data, conf_state: s.conf_state, index, term },
                ..s
            },
        ),
        Err(e) => Err(e),
    }
}

/// A log that was replaced by a snapshot.
pub open spec fn restored(s: StateModel, snapshot: SnapshotModel) -> StateModel {
    StateModel {
        hard_state: HardState {
            term: if s.hard_state.term < snapshot.term {
                snapshot.term
            } else {
                s.hard_state.term
            },
            commit: snapshot.index,
            ..s.hard_state
        },
        conf_state: snapshot.conf_state,
        entries: Seq::empty(),
        snapshot,
    }
}

/// A log without the entries below an index.
pub open spec fn compacted(s: StateModel, compact_index: u64) -> StateModel {
    if compact_index <= log_first(s) {
        s
    } else {
        StateModel { entries: s.entries.skip(compact_index - log_first(s)), ..s }
    }
}

/// How many bytes the encodings of entries take, each.
pub open spec fn wire_sizes(entries: Seq<EntryModel>) -> Seq<nat> {
    entries.map_values(|e: EntryModel| messages::entry_wire(e).len())
}

/// How many bytes the first `n` of some parts take together.
pub open spec fn size_of_first(sizes: Seq<nat>, n: nat) -> nat
    decreases n,
{
    if n == 0 {
        0
    } else {
        size_of_first(sizes, (n - 1) as nat) + sizes[n - 1]
    }
}

/// Whether the part at `i` still goes into a reply of `max` bytes: the first one
/// that takes any bytes always does.
pub open spec fn within_limit(sizes: Seq<nat>, i: int, max: u64) -> bool {
    size_of_first(sizes, i as nat) == 0 || size_of_first(sizes, (i + 1) as nat) <= max
}

/// Whether `n` parts are what a reply of `max` bytes holds: the longest start of
/// them that goes into it.
pub open spec fn is_limited(sizes: Seq<nat>, max: Option<u64>, n: nat) -> bool {
    if sizes.len() <= 1 || max is None || max == Some(u64::MAX) {
        n == sizes.len()
    } else {
        &&& n <= sizes.len()
        &&& forall|i: int| 0 <= i < n ==> #[trigger] within_limit(sizes, i, max->0)
        &&& n < sizes.len() ==> !within_limit(sizes, n as int, max->0)
    }
}

/// Whether a log answers a request for the entries from `low` up to but not
/// including `high`, in `max` bytes, with these ones.
pub open spec fn is_reply(
    s: StateModel,
    low: u64,
    high: u64,
    max: Option<u64>,
    reply: Seq<EntryModel>,
) -> bool {
    let all = if s.entries.len() == 0 {
        Seq::empty()
    } else {
        s.entries.subrange(low - log_first(s), high - log_first(s))
    };
    &&& log_first(s) <= low
    &&& high <= log_last(s) + 1
    &&& is_limited(wire_sizes(all), max, reply.len())
    &&& reply == all.take(reply.len() as int)
}

/// A message with its length before it.
pub open spec fn framed(wire: Seq<u8>) -> Seq<u8> {
    be::be_bytes(wire.len(), 4) + wire
}

/// The entries of a log, each with its length before it.
pub open spec fn entry_frames(entries: Seq<EntryModel>) -> Seq<u8>
    decreases entries.len(),
{
    if entries.len() == 0 {
        Seq::empty()
    } else {
        entry_frames(entries.drop_last()) + framed(messages::entry_wire(entries.last()))
    }
}

/// Encoded entries, each with its length before it.
pub open spec fn wire_frames(wires: Seq<Vec<u8>>) -> Seq<u8>
    decreases wires.len(),
{
    if wires.len() == 0 {
        Seq::empty()
    } else {
        wire_frames(wires.drop_last()) + framed(wires.last()@)
    }
}

/// The file that keeps a log.
pub open spec fn state_bytes(s: StateModel) -> Seq<u8> {
    framed(messages::hard_state_wire(s.hard_state)) + framed(messages::conf_wire(s.conf_state))
        + framed(messages::snapshot_wire(s.snapshot)) + be::be_bytes(s.entries.len(), 4)
        + entry_frames(s.entries)
}

/// The message that stands at `at` behind its length.
pub open spec fn frame_at(data: Seq<u8>, at: int) -> Result<Seq<u8>, StateFileError> {
    if data.len() < at + 4 {
        Err(StateFileError::TruncatedLength)
    } else if data.len() < frame_end(data, at) {
        Err(StateFileError::TruncatedPayload)
    } else {
        Ok(data.subrange(at + 4, frame_end(data, at)))
    }
}

/// Where the message at `at` ends.
pub open spec fn frame_end(data: Seq<u8>, at: int) -> int {
    at + 4 + be::field32(data, at)
}

/// Reads `n` more entries from `at` behind those that were read.
pub open spec fn decoded_entries(
    data: Seq<u8>,
    at: int,
    n: nat,
    read: Seq<EntryModel>,
) -> Result<Seq<EntryModel>, StateFileError>
    decreases n,
{
    if n == 0 {
        Ok(read)
    } else {
        match frame_at(data, at) {
            Err(e) => Err(e),
            Ok(wire) => match messages::entry_parsed(wire) {
                None => Err(StateFileError::Codec),
                Some(e) => decoded_entries(
                    data,
                    frame_end(data, at),
                    (n - 1) as nat,
                    read.push(e),
                ),
            },
        }
    }
}

/// What reading the file of a log gives.
pub open spec fn decoded_state(data: Seq<u8>) -> Result<StateModel, StateFileError> {
    let a = frame_end(data, 0);
    let b = frame_end(data, a);
    let c = frame_end(data, b);
    match frame_at(data, 0) {
        Err(e) => Err(e),
        Ok(hs) => match messages::hard_state_parsed(hs) {
            None => Err(StateFileError::Codec),
            Some(hard_state) => match frame_at(data, a) {
                Err(e) => Err(e),
                Ok(cs) => match messages::conf_parsed(cs) {
                    None => Err(StateFileError::Codec),
                    Some(conf_state) => match frame_at(data, b) {
                        Err(e) => Err(e),
                        Ok(sn) => match messages::snapshot_parsed(sn) {
                            None => Err(StateFileError::Codec),
                            Some(snapshot) => if data.len() < c + 4 {
                                Err(StateFileError::MissingEntryCount)
                            } else {
                                match decoded_entries(
                                    data,
                                    c + 4,
                                    be::field32(data, c) as nat,
                                    Seq::empty(),
                                ) {
                                    Err(e) => Err(e),
                                    Ok(entries) => Ok(
                                        StateModel { hard_state, conf_state, entries, snapshot },
                                    ),
                                }
                            },
                        },
                    },
                },
            },
        },
    }
}

/// Whether the codec can count the bytes of every part of a log.
pub open spec fn state_fits(s: StateModel) -> bool {
    &&& messages::conf_fits(s.conf_state)
    &&& messages::snapshot_fits(s.snapshot)
    &&& forall|i: int| 0 <= i < s.entries.len() ==> messages::entry_fits(#[trigger] s.entries[i])
}

impl Default for PersistentState {
    fn default() -> (s: Self)
        ensures
            s@ == (StateModel {
                hard_state: HardState { term: 0, vote: 0, commit: 0 },
                conf_state: messages::empty_conf(),
                entries: Seq::empty(),
                snapshot: messages::empty_snapshot(messages::empty_conf()),
            }),
    {
        let none: Vec<u64> = Vec::new();
        let conf_state = ConfState::of_voters(none);
        let snapshot = Snapshot::empty(conf_state.copy());
        let s = PersistentState {
            hard_state: HardState::default(),
            conf_state,
            entries: Vec::new(),
            snapshot,
        };
        assert(none@ =~= Seq::empty());
        assert(s@.entries =~= Seq::empty());
        s
    }
}

fn push_copies(to: &mut Vec<Entry>, from: &[Entry], lo: usize, hi: usize)
    requires
        lo <= hi <= from@.len(),
    ensures
        entry_models(final(to)@) == entry_models(old(to)@) + entry_models(from@).subrange(
            lo as int,
            hi as int,
        ),
{
    let mut i: usize = lo;
    let ghost before = entry_models(to@);
    assert(before + entry_models(from@).subrange(lo as int, lo as int) =~= before);
    while i < hi
        invariant
            lo <= i <= hi <= from.len(),
            entry_models(to@) == before + entry_models(from@).subrange(lo as int, i as int),
        decreases hi - i,
    {
        let e: Entry = from[i].copy();
        let ghost so_far = to@;
        to.push(e);
        assert(entry_models(to@) =~= entry_models(so_far).push(e@));
        assert(entry_models(from@).subrange(lo as int, i + 1) =~= entry_models(from@).subrange(
            lo as int,
            i as int,
        ).push(e@));
        assert(entry_models(to@) =~= before + entry_models(from@).subrange(lo as int, i + 1));
        i = i + 1;
    }
}

impl PersistentState {
    /// The log of a group that starts: one empty entry of term 1.
    pub fn bootstrap(conf_state: ConfState) -> (s: Self)
        ensures
            s@ == bootstrapped(conf_state@),
    {
        let mut entries: Vec<Entry> = Vec::new();
        entries.push(Entry::empty(1, 1));
        let snapshot = Snapshot::empty(conf_state.copy());
        let s = PersistentState {
            hard_state: HardState { term: 1, vote: 0, commit: 1 },
            conf_state,
            entries,
            snapshot,
        };
        assert(s@.entries =~= bootstrapped(conf_state@).entries);
        s
    }

    /// The index of the first entry, or of the one that is to come.
    pub fn first_index(&self) -> (i: u64)
        requires
            log_first(self@) <= u64::MAX,
        ensures
            i == log_first(self@),
    {
        if self.entries.len() > 0 {
            assert(self@.entries[0] == self.entries@[0]@);
            self.entries[0].index
        } else {
            self.snapshot.index + 1
        }
    }

    /// The index of the last entry, or of the last one that the snapshot covers.
    pub fn last_index(&self) -> (i: u64)
        ensures
            i == log_last(self@),
    {
        if self.entries.len() > 0 {
            let n: usize = self.entries.len() - 1;
            assert(self@.entries[n as int] == self.entries@[n as int]@);
            self.entries[n].index
        } else {
            self.snapshot.index
        }
    }

    /// Whether the log has no gaps and room for one more entry.
    pub fn is_well_formed(&self) -> (r: bool)
        ensures
            r == log_wf(self@),
    {
        if self.last_index() == u64::MAX {
            return false;
        }
        let n: usize = self.entries.len();
        let mut i: usize = 0;
        while i < n
            invariant
                i <= n,
                n == self.entries@.len(),
                forall|j: int|
                    0 <= j < i ==> (#[trigger] self@.entries[j]).index == self@.entries[0].index
                        + j,
            decreases n - i,
        {
            assert(self@.entries[i as int] == self.entries@[i as int]@);
            assert(self@.entries[0] == self.entries@[0]@);
            let first: u64 = self.entries[0].index;
            let here: u64 = self.entries[i].index;
            if here < first || here - first != i as u64 {
                assert(self@.entries[i as int].index != self@.entries[0].index + i);
                return false;
            }
            i = i + 1;
        }
        true
    }

    /// Whether the codec can count the bytes of every part of the log.
    pub fn fits(&self) -> (r: bool)
        ensures
            r == state_fits(self@),
    {
        if !self.conf_state.fits() || !self.snapshot.fits() {
            return false;
        }
        let mut i: usize = 0;
        while i < self.entries.len()
            invariant
                i <= self.entries@.len(),
                forall|j: int| 0 <= j < i ==> messages::entry_fits(#[trigger] self@.entries[j]),
            decreases self.entries@.len() - i,
        {
            assert(self@.entries[i as int] == self.entries@[i as int]@);
            if !self.entries[i].fits() {
                return false;
            }
            i = i + 1;
        }
        true
    }

    /// The term of the entry at an index.
    pub fn term(&self, idx: u64) -> (r: Result<u64, StorageError>)
        requires
            has_term_at(self@, idx),
        ensures
            r == log_term(self@, idx),
    {
        if idx == self.snapshot.index {
            return Ok(self.snapshot.term);
        }
        let first: u64 = self.first_index();
        if first > 0 && idx < first - 1 {
            return Err(StorageError::Compacted);
        }
        if idx < first {
            return Ok(self.snapshot.term);
        }
        if idx > self.last_index() {
            return Err(StorageError::Unavailable);
        }
        assert(idx - first < self.entries.len());
        let at: usize = (idx - first) as usize;
        assert(self@.entries[at as int] == self.entries@[at as int]@);
        Ok(self.entries[at].term)
    }

    /// Whether the log can be asked for the term at an index.
    pub fn has_term(&self, idx: u64) -> (r: bool)
        ensures
            r == has_term_at(self@, idx),
    {
        if idx == self.snapshot.index {
            return true;
        }
        let n: usize = self.entries.len();
        if n == 0 {
            return self.snapshot.index < u64::MAX;
        }
        let first: u64 = self.first_index();
        idx < first || idx > self.last_index() || idx - first < n as u64
    }

    /// Whether the log can be asked for the entries from `low` up to but not
    /// including `high`.
    pub fn has_entries(&self, low: u64, high: u64) -> (r: bool)
        ensures
            r == has_entries_in(self@, low, high),
    {
        let n: usize = self.entries.len();
        if n == 0 {
            return self.snapshot.index < u64::MAX;
        }
        let first: u64 = self.first_index();
        let last: u64 = self.last_index();
        if low < first {
            return true;
        }
        last < u64::MAX && (high > last + 1 || (low <= high && high - first <= n as u64))
    }

    /// Whether the log can be compacted to an index.
    pub fn can_compact(&self, compact_index: u64) -> (r: bool)
        ensures
            r == can_compact_to(self@, compact_index),
    {
        let n: usize = self.entries.len();
        if n == 0 {
            return self.snapshot.index < u64::MAX;
        }
        let first: u64 = self.first_index();
        let last: u64 = self.last_index();
        if compact_index <= first {
            return true;
        }
        last < u64::MAX && (compact_index > last + 1 || compact_index - first <= n as u64)
    }

    /// Notes what the replica promised.
    pub fn set_hardstate(&mut self, hs: HardState)
        ensures
            final(self)@ == (StateModel { hard_state: hs, ..old(self)@ }),
    {
        self.hard_state = hs;
    }

    /// Appends entries; those that stood at the index of the first new one or
    /// above go. Returns whether anything is to be stored.
    pub fn append(&mut self, ents: &[Entry]) -> (r: Result<bool, LogError>)
        requires
            log_first(old(self)@) <= u64::MAX,
        ensures
            r == (if ents@.len() == 0 {
                Ok::<bool, LogError>(false)
            } else if ents@[0].index < log_first(old(self)@) {
                Err::<bool, LogError>(LogError::OverwritesCompacted)
            } else {
                Ok::<bool, LogError>(true)
            }),
            final(self)@ == (if r is Ok {
                appended(old(self)@, entry_models(ents@))
            } else {
                old(self)@
            }),
            r == append_result(old(self)@, entry_models(ents@)),
    {
        if ents.len() == 0 {
            return Ok(false);
        }
        assert(entry_models(ents@)[0] == ents@[0]@);
        let first: u64 = self.first_index();
        let from: u64 = ents[0].index;
        if from < first {
            return Err(LogError::OverwritesCompacted);
        }
        if from <= self.last_index() {
            let keep: u64 = from - first;
            if keep < self.entries.len() as u64 {
                self.entries.truncate(keep as usize);
                assert(entry_models(self.entries@) =~= old(self)@.entries.take(keep as int));
            }
        }
        push_copies(&mut self.entries, ents, 0, ents.len());
        assert(entry_models(ents@).subrange(0, ents@.len() as int) =~= entry_models(ents@));
        assert(self@ =~= appended(old(self)@, entry_models(ents@)));
        Ok(true)
    }

    /// Replaces the log by a snapshot.
    pub fn apply_snapshot(&mut self, snapshot: Snapshot)
        ensures
            final(self)@ == restored(old(self)@, snapshot@),
    {
        self.conf_state = snapshot.conf_state.copy();
        self.hard_state.commit = snapshot.index;
        if self.hard_state.term < snapshot.term {
            self.hard_state.term = snapshot.term;
        }
        self.entries = Vec::new();
        self.snapshot = snapshot;
        assert(self@.entries =~= Seq::empty());
    }

    /// Takes a snapshot of the state machine at an index. The entries stay.
    pub fn create_snapshot(&mut self, index: u64, data: Vec<u8>) -> (r: Result<(), LogError>)
        requires
            has_term_at(old(self)@, index),
        ensures
            match log_term(old(self)@, index) {
                Ok(term) => {
                    &&& r == Ok::<(), LogError>(())
                    &&& final(self)@ == (StateModel {
                        snapshot: SnapshotModel {
                            data: data@,
                            conf_state: old(self)@.conf_state,
                            index,
                            term,
                        },
                        ..old(self)@
                    })
                },
                Err(e) => {
                    &&& r == Err::<(), LogError>(LogError::Storage(e))
                    &&& final(self)@ == old(self)@
                },
            },
            match snapshot_taken(old(self)@, index, data@) {
                Ok(after) => r is Ok && final(self)@ == after,
                Err(e) => r == Err::<(), LogError>(LogError::Storage(e)),
            },
    {
        match self.term(index) {
            Ok(term) => {
                self.snapshot = Snapshot {
                    data: bytes_from_vec(data),
                    conf_state: self.conf_state.copy(),
                    index,
                    term,
                };
                Ok(())
            },
            Err(e) => Err(LogError::Storage(e)),
        }
    }

    /// Drops the entries below an index. Returns whether anything is to be
    /// stored.
    pub fn compact(&mut self, compact_index: u64) -> (r: Result<bool, LogError>)
        requires
            can_compact_to(old(self)@, compact_index),
        ensures
            r == (if compact_index <= log_first(old(self)@) {
                Ok::<bool, LogError>(false)
            } else if compact_index > log_last(old(self)@) + 1 {
                Err::<bool, LogError>(LogError::CompactsBeyondEnd)
            } else {
                Ok::<bool, LogError>(true)
            }),
            final(self)@ == (if r is Ok {
                compacted(old(self)@, compact_index)
            } else {
                old(self)@
            }),
            r == compact_result(old(self)@, compact_index),
    {
        let first: u64 = self.first_index();
        if compact_index <= first {
            return Ok(false);
        }
        if compact_index > self.last_index() + 1 {
            return Err(LogError::CompactsBeyondEnd);
        }
        let drop: usize = (compact_index - first) as usize;
        let n: usize = self.entries.len();
        let mut rest: Vec<Entry> = Vec::new();
        push_copies(&mut rest, self.entries.as_slice(), drop, n);
        self.entries = rest;
        assert(self@ =~= compacted(old(self)@, compact_index));
        Ok(true)
    }

    /// The index that the snapshot covers.
    pub fn snapshot_index(&self) -> (i: u64)
        ensures
            i == self@.snapshot.index,
    {
        self.snapshot.index
    }

    /// The snapshot.
    pub fn snapshot(&self) -> (s: Snapshot)
        ensures
            s@ == self@.snapshot,
    {
        self.snapshot.copy()
    }

    /// The snapshot, if it covers an index.
    pub fn snapshot_covering(&self, request_index: u64) -> (r: Result<Snapshot, StorageError>)
        ensures
            match r {
                Ok(s) => self@.snapshot.index >= request_index && s@ == self@.snapshot,
                Err(e) => self@.snapshot.index < request_index && e
                    == StorageError::SnapshotOutOfDate,
            },
    {
        if self.snapshot.index < request_index {
            return Err(StorageError::SnapshotOutOfDate);
        }
        Ok(self.snapshot.copy())
    }

    /// What the replica promised.
    pub fn hard_state(&self) -> (hs: HardState)
        ensures
            hs == self@.hard_state,
    {
        self.hard_state
    }

    /// What a replica starts with: what it promised, and the members.
    pub fn initial_state(&self) -> (r: (HardState, ConfState))
        ensures
            r.0 == self@.hard_state,
            r.1@ == self@.conf_state,
    {
        (self.hard_state, self.conf_state.copy())
    }

    /// The entries from `low` up to but not including `high`, as many as go into
    /// a reply of `max_size` bytes.
    pub fn entries(&self, low: u64, high: u64, max_size: Option<u64>) -> (r: Result<
        Vec<Entry>,
        StorageError,
    >)
        requires
            state_fits(self@),
            has_entries_in(self@, low, high),
        ensures
            low < log_first(self@) ==> r == Err::<Vec<Entry>, StorageError>(
                StorageError::Compacted,
            ),
            low >= log_first(self@) && high > log_last(self@) + 1 ==> r == Err::<
                Vec<Entry>,
                StorageError,
            >(StorageError::Unavailable),
            low >= log_first(self@) && high <= log_last(self@) + 1 ==> {
                let all = if self@.entries.len() == 0 {
                    Seq::empty()
                } else {
                    self@.entries.subrange(low - log_first(self@), high - log_first(self@))
                };
                &&& r matches Ok(ents) && is_limited(wire_sizes(all), max_size, ents@.len()) && entry_models(
                    ents@,
                ) == all.take(ents@.len() as int)
            },
            r matches Ok(ents) ==> is_reply(self@, low, high, max_size, entry_models(ents@)),
            match r {
                Ok(_) => entries_error(self@, low, high) is None,
                Err(e) => entries_error(self@, low, high) == Some(e),
            },
    {
        let first: u64 = self.first_index();
        if low < first {
            return Err(StorageError::Compacted);
        }
        if high > self.last_index() + 1 {
            return Err(StorageError::Unavailable);
        }
        let mut ents: Vec<Entry> = Vec::new();
        if self.entries.len() == 0 {
            assert(entry_models(ents@) =~= Seq::<EntryModel>::empty().take(0));
            return Ok(ents);
        }
        let ghost all = self@.entries.subrange(low - first, high - first);
        let lo: usize = (low - first) as usize;
        let hi: usize = (high - first) as usize;
        push_copies(&mut ents, self.entries.as_slice(), lo, hi);
        assert(entry_models(ents@) =~= all);
        let kept: usize = limited_len(&ents, max_size);
        ents.truncate(kept);
        assert(entry_models(ents@) =~= all.take(kept as int));
        Ok(ents)
    }

    /// Encodes the log into the bytes of its file. Decoding them gives the log
    /// back.
    pub fn encode(&self) -> (r: Result<Vec<u8>, StateFileError>)
        requires
            state_fits(self@),
        ensures
            r matches Ok(buf) && {
                &&& buf@ == state_bytes(self@)
                &&& self@.entries.len() <= u32::MAX ==> decoded_state(buf@) == Ok::<
                    StateModel,
                    StateFileError,
                >(self@)
            },
    {
        let hard_state: Vec<u8> = match write_hard_state(&self.hard_state) {
            Ok(wire) => wire,
            Err(_) => {
                return Err(StateFileError::Codec);
            },
        };
        let conf_state: Vec<u8> = match write_conf_state(&self.conf_state) {
            Ok(wire) => wire,
            Err(_) => {
                return Err(StateFileError::Codec);
            },
        };
        let snapshot: Vec<u8> = match write_snapshot(&self.snapshot) {
            Ok(wire) => wire,
            Err(_) => {
                return Err(StateFileError::Codec);
            },
        };
        let ghost all = self@.entries;
        let mut wires: Vec<Vec<u8>> = Vec::new();
        let mut i: usize = 0;
        assert(all.take(0) =~= Seq::empty());
        while i < self.entries.len()
            invariant
                i <= self.entries@.len(),
                all == self@.entries,
                state_fits(self@),
                wires@.len() == i,
                wire_frames(wires@) == entry_frames(all.take(i as int)),
                forall|j: int| 0 <= j < i ==> wire_reads_back(#[trigger] all[j]),
            decreases self.entries@.len() - i,
        {
            assert(all[i as int] == self.entries@[i as int]@);
            match write_entry(&self.entries[i]) {
                Ok(wire) => {
                    let ghost before = wires@;
                    wires.push(wire);
                    assert(wires@.drop_last() =~= before);
                    assert(all.take(i + 1).drop_last() =~= all.take(i as int));
                },
                Err(_) => {
                    return Err(StateFileError::Codec);
                },
            }
            i = i + 1;
        }
        let buf: Vec<u8> = join_state(&hard_state, &conf_state, &snapshot, &wires);
        proof {
            assert(all.take(i as int) =~= all);
            if all.len() <= u32::MAX {
                lemma_state_roundtrip(self@);
            }
        }
        Ok(buf)
    }

    /// Decodes the bytes of the file of a log.
    pub fn decode(data: &[u8]) -> (r: Result<Self, StateFileError>)
        ensures
            match r {
                Ok(s) => decoded_state(data@) == Ok::<StateModel, StateFileError>(s@),
                Err(e) => decoded_state(data@) == Err::<StateModel, StateFileError>(e),
            },
    {
        let (hs, a): (&[u8], usize) = match take_frame(data, 0) {
            Ok(f) => f,
            Err(e) => {
                return Err(e);
            },
        };
        let hard_state: HardState = match parse_hard_state(hs) {
            Ok(m) => m,
            Err(_) => {
                return Err(StateFileError::Codec);
            },
        };
        let (cs, b): (&[u8], usize) = match take_frame(data, a) {
            Ok(f) => f,
            Err(e) => {
                return Err(e);
            },
        };
        let conf_state: ConfState = match parse_conf_state(cs) {
            Ok(m) => m,
            Err(_) => {
                return Err(StateFileError::Codec);
            },
        };
        let (sn, c): (&[u8], usize) = match take_frame(data, b) {
            Ok(f) => f,
            Err(e) => {
                return Err(e);
            },
        };
        let snapshot: Snapshot = match parse_snapshot(sn) {
            Ok(m) => m,
            Err(_) => {
                return Err(StateFileError::Codec);
            },
        };
        if data.len() - c < 4 {
            return Err(StateFileError::MissingEntryCount);
        }
        let count: u32 = get_u32(data, c);
        let mut at: usize = c + 4;
        let mut entries: Vec<Entry> = Vec::new();
        let mut i: u32 = 0;
        let ghost goal = decoded_entries(data@, c + 4, count as nat, Seq::empty());
        assert(entry_models(entries@) =~= Seq::empty());
        while i < count
            invariant
                i <= count,
                at <= data.len(),
                decoded_entries(data@, at as int, (count - i) as nat, entry_models(entries@))
                    == goal,
                decoded_state(data@) == (match goal {
                    Err(e) => Err::<StateModel, StateFileError>(e),
                    Ok(all) => Ok::<StateModel, StateFileError>(
                        StateModel {
                            hard_state,
                            conf_state: conf_state@,
                            entries: all,
                            snapshot: snapshot@,
                        },
                    ),
                }),
            decreases count - i,
        {
            let (wire, end): (&[u8], usize) = match take_frame(data, at) {
                Ok(f) => f,
                Err(e) => {
                    return Err(e);
                },
            };
            match parse_entry(wire) {
                Ok(e) => {
                    let ghost before = entry_models(entries@);
                    entries.push(e);
                    assert(entry_models(entries@) =~= before.push(e@));
                },
                Err(_) => {
                    return Err(StateFileError::Codec);
                },
            }
            at = end;
            i = i + 1;
        }
        Ok(PersistentState { hard_state, conf_state, entries, snapshot })
    }
}

/// Appends a message with its length before it.
fn put_frame(buf: &mut Vec<u8>, wire: &Vec<u8>)
    ensures
        final(buf)@ == old(buf)@ + framed(wire@),
{
    put_be(buf, wire.len() as u64, 4);
    put_slice(buf, wire.as_slice());
    assert(buf@ =~= old(buf)@ + framed(wire@));
}

/// Puts the encoded parts of a log together into the bytes of its file.
pub fn join_state(
    hard_state: &Vec<u8>,
    conf_state: &Vec<u8>,
    snapshot: &Vec<u8>,
    entries: &Vec<Vec<u8>>,
) -> (buf: Vec<u8>)
    ensures
        buf@ == framed(hard_state@) + framed(conf_state@) + framed(snapshot@) + be::be_bytes(
            entries@.len(),
            4,
        ) + wire_frames(entries@),
{
    let mut buf: Vec<u8> = Vec::new();
    put_frame(&mut buf, hard_state);
    put_frame(&mut buf, conf_state);
    put_frame(&mut buf, snapshot);
    put_be(&mut buf, entries.len() as u64, 4);
    let ghost head = buf@;
    let mut i: usize = 0;
    assert(entries@.take(0) =~= Seq::empty());
    assert(buf@ =~= head + wire_frames(entries@.take(0)));
    while i < entries.len()
        invariant
            i <= entries@.len(),
            buf@ == head + wire_frames(entries@.take(i as int)),
        decreases entries@.len() - i,
    {
        put_frame(&mut buf, &entries[i]);
        assert(entries@.take(i + 1).drop_last() =~= entries@.take(i as int));
        assert(buf@ =~= head + wire_frames(entries@.take(i + 1)));
        i = i + 1;
    }
    assert(entries@.take(i as int) =~= entries@);
    assert(buf@ =~= framed(hard_state@) + framed(conf_state@) + framed(snapshot@) + be::be_bytes(
        entries@.len(),
        4,
    ) + wire_frames(entries@));
    buf
}

/// Reads the message that stands at `at` behind its length, and where it ends.
pub fn take_frame(data: &[u8], at: usize) -> (r: Result<(&[u8], usize), StateFileError>)
    requires
        at <= data.len(),
    ensures
        match r {
            Ok((wire, end)) => {
                &&& frame_at(data@, at as int) == Ok::<Seq<u8>, StateFileError>(wire@)
                &&& end == frame_end(data@, at as int)
                &&& at <= end <= data.len()
            },
            Err(e) => frame_at(data@, at as int) == Err::<Seq<u8>, StateFileError>(e),
        },
{
    if data.len() - at < 4 {
        return Err(StateFileError::TruncatedLength);
    }
    let len: u32 = get_u32(data, at);
    if ((data.len() - at - 4) as u64) < len as u64 {
        return Err(StateFileError::TruncatedPayload);
    }
    let end: usize = at + 4 + len as usize;
    Ok((slice_subrange(data, at + 4, end), end))
}

/// Sizes as natural numbers.
pub open spec fn size_values(sizes: Seq<u32>) -> Seq<nat> {
    sizes.map_values(|n: u32| n as nat)
}

/// How many parts of the given sizes go into a reply of `max` bytes.
pub fn limited_count(sizes: &Vec<u32>, max: Option<u64>) -> (n: usize)
    ensures
        is_limited(size_values(sizes@), max, n as nat),
        n <= sizes@.len(),
{
    let ghost all = size_values(sizes@);
    if sizes.len() <= 1 {
        return sizes.len();
    }
    let limit: u64 = match max {
        Some(limit) => limit,
        None => {
            return sizes.len();
        },
    };
    if limit == u64::MAX {
        return sizes.len();
    }
    let mut size: u128 = 0;
    let mut n: usize = 0;
    while n < sizes.len()
        invariant
            n <= sizes.len(),
            all == size_values(sizes@),
            limit < u64::MAX,
            size == size_of_first(all, n as nat),
            size <= n * 0xFFFF_FFFF,
            forall|i: int| 0 <= i < n ==> #[trigger] within_limit(all, i, limit),
        ensures
            n <= sizes@.len(),
            forall|i: int| 0 <= i < n ==> #[trigger] within_limit(all, i, limit),
            n < all.len() ==> !within_limit(all, n as int, limit),
        decreases sizes.len() - n,
    {
        assert(n * 0xFFFF_FFFF + 0xFFFF_FFFF == (n + 1) * 0xFFFF_FFFF) by (nonlinear_arith);
        assert(n * 0xFFFF_FFFF <= 0xFFFF_FFFF_FFFF_FFFF * 0xFFFF_FFFF) by (nonlinear_arith)
            requires
                n <= 0xFFFF_FFFF_FFFF_FFFF,
        ;
        assert(all[n as int] == sizes@[n as int]);
        let more: u128 = size + sizes[n] as u128;
        assert(more == size_of_first(all, (n + 1) as nat));
        if size != 0 && more > limit as u128 {
            assert(!within_limit(all, n as int, limit));
            break ;
        }
        assert(within_limit(all, n as int, limit));
        size = more;
        n = n + 1;
    }
    n
}

/// How many entries go into a reply of `max` bytes.
pub fn limited_len(entries: &Vec<Entry>, max: Option<u64>) -> (n: usize)
    requires
        forall|i: int|
            0 <= i < entries@.len() ==> messages::entry_fits(#[trigger] entry_models(entries@)[i]),
    ensures
        is_limited(wire_sizes(entry_models(entries@)), max, n as nat),
        n <= entries@.len(),
{
    let ghost all = entry_models(entries@);
    let mut sizes: Vec<u32> = Vec::new();
    let mut i: usize = 0;
    while i < entries.len()
        invariant
            i <= entries@.len(),
            all == entry_models(entries@),
            forall|j: int| 0 <= j < all.len() ==> messages::entry_fits(#[trigger] all[j]),
            size_values(sizes@) == wire_sizes(all).take(i as int),
        decreases entries@.len() - i,
    {
        assert(all[i as int] == entries@[i as int]@);
        let size: u32 = entry_size(&entries[i]);
        let ghost before = size_values(sizes@);
        sizes.push(size);
        assert(size_values(sizes@) =~= before.push(size as nat));
        assert(size_values(sizes@) =~= wire_sizes(all).take(i + 1));
        i = i + 1;
    }
    assert(size_values(sizes@) =~= wire_sizes(all));
    limited_count(&sizes, max)
}

/// Whether parsing reads the encoding of an entry back.
spec fn wire_reads_back(e: EntryModel) -> bool {
    &&& messages::entry_parsed(messages::entry_wire(e)) == Some(e)
    &&& messages::entry_wire(e).len() <= u32::MAX
}

/// A message stands where its frame stands in the file.
proof fn lemma_frame(data: Seq<u8>, at: int, wire: Seq<u8>)
    requires
        0 <= at,
        at + 4 + wire.len() <= data.len(),
        data.subrange(at, at + 4 + wire.len()) == framed(wire),
        wire.len() <= u32::MAX,
    ensures
        frame_at(data, at) == Ok::<Seq<u8>, StateFileError>(wire),
        frame_end(data, at) == at + 4 + wire.len(),
{
    broadcast use crate::be::lemma_be_bytes_len;

    let f = data.subrange(at, at + 4 + wire.len());
    assert(f.subrange(0, 4) =~= be::be_bytes(wire.len(), 4));
    assert(data.subrange(at, at + 4) =~= f.subrange(0, 4));
    be::lemma_field32(data, at, wire.len() as u32);
    assert(data.subrange(at + 4, at + 4 + wire.len()) =~= wire) by {
        assert(f.subrange(4, 4 + wire.len() as int) =~= wire);
        assert(data.subrange(at + 4, at + 4 + wire.len()) =~= f.subrange(
            4,
            4 + wire.len() as int,
        ));
    }
}

proof fn lemma_frames_prefix(entries: Seq<EntryModel>, i: int)
    requires
        0 <= i <= entries.len(),
    ensures
        entry_frames(entries.take(i)).len() <= entry_frames(entries).len(),
        entry_frames(entries).take(entry_frames(entries.take(i)).len() as int) == entry_frames(
            entries.take(i),
        ),
    decreases entries.len(),
{
    if i == entries.len() {
        assert(entries.take(i) =~= entries);
        assert(entry_frames(entries).take(entry_frames(entries).len() as int) =~= entry_frames(
            entries,
        ));
    } else {
        let init = entries.drop_last();
        lemma_frames_prefix(init, i);
        assert(init.take(i) =~= entries.take(i));
        let n = entry_frames(entries.take(i)).len() as int;
        assert(entry_frames(entries).take(n) =~= entry_frames(init).take(n));
    }
}

proof fn lemma_entries_roundtrip(data: Seq<u8>, at: int, entries: Seq<EntryModel>, i: int)
    requires
        0 <= at <= data.len(),
        data.skip(at) == entry_frames(entries),
        0 <= i <= entries.len(),
        forall|j: int| 0 <= j < entries.len() ==> wire_reads_back(#[trigger] entries[j]),
    ensures
        decoded_entries(
            data,
            at + entry_frames(entries.take(i)).len(),
            (entries.len() - i) as nat,
            entries.take(i),
        ) == Ok::<Seq<EntryModel>, StateFileError>(entries),
    decreases entries.len() - i,
{
    broadcast use crate::be::lemma_be_bytes_len;

    if i == entries.len() {
        assert(entries.take(i) =~= entries);
    } else {
        let e = entries[i];
        let wire = messages::entry_wire(e);
        let upto = entries.take(i + 1);
        assert(upto.drop_last() =~= entries.take(i));
        assert(upto =~= entries.take(i).push(e));
        lemma_frames_prefix(entries, i + 1);
        let a = entry_frames(entries.take(i)).len() as int;
        let b = entry_frames(upto).len() as int;
        assert(b == a + 4 + wire.len());
        assert(entry_frames(upto).subrange(a, b) =~= framed(wire));
        assert(entry_frames(entries).take(b).subrange(a, b) =~= entry_frames(entries).subrange(
            a,
            b,
        ));
        assert(data.skip(at).subrange(a, b) =~= data.subrange(at + a, at + b));
        lemma_frame(data, at + a, wire);
        lemma_entries_roundtrip(data, at, entries, i + 1);
    }
}

proof fn lemma_state_roundtrip(s: StateModel)
    requires
        messages::hard_state_parsed(messages::hard_state_wire(s.hard_state)) == Some(s.hard_state),
        messages::hard_state_wire(s.hard_state).len() <= u32::MAX,
        messages::conf_parsed(messages::conf_wire(s.conf_state)) == Some(s.conf_state),
        messages::conf_wire(s.conf_state).len() <= u32::MAX,
        messages::snapshot_parsed(messages::snapshot_wire(s.snapshot)) == Some(s.snapshot),
        messages::snapshot_wire(s.snapshot).len() <= u32::MAX,
        forall|j: int| 0 <= j < s.entries.len() ==> wire_reads_back(#[trigger] s.entries[j]),
        s.entries.len() <= u32::MAX,
    ensures
        decoded_state(state_bytes(s)) == Ok::<StateModel, StateFileError>(s),
{
    broadcast use crate::be::lemma_be_bytes_len;

    let data = state_bytes(s);
    let hs = messages::hard_state_wire(s.hard_state);
    let cs = messages::conf_wire(s.conf_state);
    let sn = messages::snapshot_wire(s.snapshot);
    let a = 4 + hs.len() as int;
    let b = a + 4 + cs.len() as int;
    let c = b + 4 + sn.len() as int;
    assert(data.subrange(0, 0int + 4 + hs.len()) =~= framed(hs));
    lemma_frame(data, 0, hs);
    assert(data.subrange(a, a + 4 + cs.len()) =~= framed(cs));
    lemma_frame(data, a, cs);
    assert(data.subrange(b, b + 4 + sn.len()) =~= framed(sn));
    lemma_frame(data, b, sn);
    assert(data.subrange(c, c + 4) =~= be::be_bytes(s.entries.len(), 4));
    be::lemma_field32(data, c, s.entries.len() as u32);
    assert(data.skip(c + 4) =~= entry_frames(s.entries));
    lemma_entries_roundtrip(data, c + 4, s.entries, 0);
    assert(s.entries.take(0) =~= Seq::empty());
}

/// A log that starts has no gaps and holds one entry.
pub proof fn law_bootstrap_is_well_formed(conf_state: ConfModel)
    ensures
        log_wf(bootstrapped(conf_state)),
        log_first(bootstrapped(conf_state)) == 1,
        log_last(bootstrapped(conf_state)) == 1,
{
}

/// Appending consecutive entries that do not leave a gap keeps the log without
/// gaps: it then ends with the last new entry, and starts where it did.
pub proof fn law_append_keeps_log_consecutive(s: StateModel, ents: Seq<EntryModel>)
    requires
        log_wf(s),
        consecutive(ents),
        ents.len() > 0,
        log_first(s) <= ents[0].index <= log_last(s) + 1,
        ents.last().index < u64::MAX,
    ensures
        log_wf(appended(s, ents)),
        log_first(appended(s, ents)) == log_first(s),
        log_last(appended(s, ents)) == ents.last().index,
{
    let t = appended(s, ents);
    let keep = ents[0].index - log_first(s);
    if s.entries.len() > 0 {
        assert(s.entries.last().index == s.entries[0].index + s.entries.len() - 1);
    }
    assert(t.entries.len() == keep + ents.len());
    assert(t.entries.last() == ents.last());
    assert forall|i: int| 0 <= i < t.entries.len() implies (#[trigger] t.entries[i]).index
        == t.entries[0].index + i by {
        if i >= keep {
            assert(t.entries[i] == ents[i - keep]);
        } else {
            assert(t.entries[i] == s.entries[i]);
        }
        if keep > 0 {
            assert(t.entries[0] == s.entries[0]);
        } else {
            assert(t.entries[0] == ents[0]);
        }
    }
    assert(t.entries[0].index == log_first(s));
}

/// After an append the log answers with the terms of the new entries, and with
/// what it answered before below them. The index of the snapshot is left out: it
/// has the term of the snapshot.
pub proof fn law_append_is_read_back(s: StateModel, ents: Seq<EntryModel>, idx: u64)
    requires
        log_wf(s),
        consecutive(ents),
        ents.len() > 0,
        log_first(s) <= ents[0].index <= log_last(s) + 1,
        ents.last().index < u64::MAX,
        log_first(s) <= idx <= ents.last().index,
        idx != s.snapshot.index,
    ensures
        log_term(appended(s, ents), idx) == (if idx >= ents[0].index {
            Ok::<u64, StorageError>(ents[idx - ents[0].index].term)
        } else {
            log_term(s, idx)
        }),
{
    law_append_keeps_log_consecutive(s, ents);
    let t = appended(s, ents);
    let keep = ents[0].index - log_first(s);
    if s.entries.len() > 0 {
        assert(s.entries.last().index == s.entries[0].index + s.entries.len() - 1);
    }
    if idx >= ents[0].index {
        assert(t.entries[idx - log_first(s)] == ents[idx - ents[0].index]);
    } else {
        assert(t.entries[idx - log_first(s)] == s.entries[idx - log_first(s)]);
    }
}

/// The log after a snapshot at an index was taken and what it covers was
/// dropped.
pub open spec fn snapshotted(s: StateModel, index: u64, data: Seq<u8>) -> StateModel {
    compacted(
        StateModel {
            snapshot: SnapshotModel {
                data,
                conf_state: s.conf_state,
                index,
                term: log_term(s, index)->Ok_0,
            },
            ..s
        },
        (index + 1) as u64,
    )
}

/// A snapshot stands for the entries that it covers: after dropping them the log
/// still ends where it did, starts behind the snapshot, and answers with the same
/// terms from the index of the snapshot on.
pub proof fn law_snapshot_stands_for_what_it_covers(
    s: StateModel,
    index: u64,
    data: Seq<u8>,
    idx: u64,
)
    requires
        log_wf(s),
        log_first(s) <= index <= log_last(s),
        index <= idx <= log_last(s),
        idx == index || idx != s.snapshot.index,
    ensures
        log_term(s, index) is Ok,
        log_wf(snapshotted(s, index, data)),
        log_first(snapshotted(s, index, data)) == index + 1,
        log_last(snapshotted(s, index, data)) == log_last(s),
        log_term(snapshotted(s, index, data), idx) == log_term(s, idx),
{
    let t = snapshotted(s, index, data);
    let n = s.entries.len() as int;
    let k = index + 1 - log_first(s);
    assert(s.entries.last() == s.entries[n - 1]);
    assert(s.entries[n - 1].index == s.entries[0].index + n - 1);
    assert(t.entries =~= s.entries.skip(k));
    assert forall|i: int| 0 <= i < t.entries.len() implies (#[trigger] t.entries[i]).index
        == t.entries[0].index + i by {
        assert(t.entries[i] == s.entries[i + k]);
        assert(t.entries[0] == s.entries[k]);
    }
    if k < n {
        assert(t.entries[0] == s.entries[k]);
        assert(t.entries.last() == s.entries.last());
        if idx > index {
            assert(t.entries[idx - index - 1] == s.entries[idx - log_first(s)]);
        }
    }
}

/// A log that was replaced by a snapshot continues behind it, and its term never
/// goes back.
pub proof fn law_restore_continues_behind_snapshot(s: StateModel, snapshot: SnapshotModel)
    requires
        snapshot.index < u64::MAX,
    ensures
        log_wf(restored(s, snapshot)),
        log_first(restored(s, snapshot)) == snapshot.index + 1,
        log_last(restored(s, snapshot)) == snapshot.index,
        restored(s, snapshot).hard_state.term >= s.hard_state.term,
        restored(s, snapshot).hard_state.term >= snapshot.term,
        restored(s, snapshot).hard_state.commit == snapshot.index,
{
}

/// A reply to a request for entries holds the first one at least.
pub proof fn law_reply_is_never_empty(sizes: Seq<nat>, max: Option<u64>, n: nat)
    requires
        is_limited(sizes, max, n),
        sizes.len() > 0,
    ensures
        1 <= n <= sizes.len(),
{
    if n == 0 {
        assert(within_limit(sizes, 0, max->0));
    }
}

/// A log starts at the index of its first entry and ends at that of its last one;
/// if it has none, it continues behind the snapshot. Every entry of a log without
/// gaps lies between the two, at the place of its index.
pub proof fn law_log_reaches_from_first_to_last(s: StateModel, i: int)
    requires
        log_wf(s),
    ensures
        s.entries.len() == 0 ==> log_first(s) == s.snapshot.index + 1 && log_last(s)
            == s.snapshot.index,
        log_last(s) - log_first(s) + 1 == s.entries.len(),
        0 <= i < s.entries.len() ==> s.entries[i].index == log_first(s) + i,
{
    if s.entries.len() > 0 {
        assert(s.entries[s.entries.len() - 1].index == s.entries[0].index + s.entries.len() - 1);
    }
}

/// The term at the index of an entry is the term of that entry; at the index of
/// the snapshot it is that of the snapshot. Further back the log was compacted, and
/// behind its end there is nothing yet.
pub proof fn law_term_is_that_of_the_entry(s: StateModel, idx: u64, i: int)
    requires
        log_wf(s),
    ensures
        idx == s.snapshot.index ==> log_term(s, idx) == Ok::<u64, StorageError>(s.snapshot.term),
        0 <= i < s.entries.len() && s.entries[i].index == idx && idx != s.snapshot.index
            ==> log_term(s, idx) == Ok::<u64, StorageError>(s.entries[i].term),
        s.entries.len() > 0 && idx + 1 < s.entries[0].index && idx != s.snapshot.index ==> log_term(
            s,
            idx,
        ) == Err::<u64, StorageError>(StorageError::Compacted),
        s.entries.len() > 0 && idx > s.entries.last().index && idx != s.snapshot.index ==> log_term(
            s,
            idx,
        ) == Err::<u64, StorageError>(StorageError::Unavailable),
        s.entries.len() == 0 && idx < s.snapshot.index ==> log_term(s, idx) == Err::<
            u64,
            StorageError,
        >(StorageError::Compacted),
        s.entries.len() == 0 && idx > s.snapshot.index ==> log_term(s, idx) == Err::<
            u64,
            StorageError,
        >(StorageError::Unavailable),
{
    law_log_reaches_from_first_to_last(s, i);
}

/// A log without gaps that is asked for a range without a size limit answers with
/// every entry of it: as many as there are indexes, each at its own.
pub proof fn law_whole_range_is_answered(
    s: StateModel,
    low: u64,
    high: u64,
    reply: Seq<EntryModel>,
    i: int,
)
    requires
        log_wf(s),
        low <= high,
        is_reply(s, low, high, None, reply),
    ensures
        reply.len() == high - low,
        0 <= i < high - low ==> reply[i].index == low + i && s.entries.contains(reply[i]),
{
    law_log_reaches_from_first_to_last(s, low + i - log_first(s));
    if 0 <= i < high - low {
        assert(reply[i] == s.entries[low + i - log_first(s)]);
    }
}

/// After an append the log gives back exactly the entries that were appended, with
/// all that they carry, and below them the entries that stood there before. It
/// changes nothing but the entries.
pub proof fn law_appended_entries_are_given_back(
    s: StateModel,
    ents: Seq<EntryModel>,
    low: u64,
    high: u64,
    reply: Seq<EntryModel>,
    i: int,
)
    requires
        log_wf(s),
        consecutive(ents),
        ents.len() > 0,
        log_first(s) <= ents[0].index <= log_last(s) + 1,
        ents.last().index < u64::MAX,
        low <= high,
        is_reply(appended(s, ents), low, high, None, reply),
    ensures
        high <= ents.last().index + 1,
        reply.len() == high - low,
        0 <= i < ents.len() && low <= ents[i].index < high ==> reply[ents[i].index - low] == ents[i],
        0 <= i < s.entries.len() && low <= s.entries[i].index < high && s.entries[i].index
            < ents[0].index ==> reply[s.entries[i].index - low] == s.entries[i],
        low == ents[0].index && high == ents.last().index + 1 ==> reply == ents,
        appended(s, ents).hard_state == s.hard_state,
        appended(s, ents).conf_state == s.conf_state,
        appended(s, ents).snapshot == s.snapshot,
{
    let t = appended(s, ents);
    law_append_keeps_log_consecutive(s, ents);
    law_whole_range_is_answered(t, low, high, reply, 0);
    law_log_reaches_from_first_to_last(s, i);
    let keep = ents[0].index - log_first(s);
    assert(ents.last() == ents[ents.len() - 1]);
    assert forall|j: int| 0 <= j < high - low implies #[trigger] reply[j] == t.entries[low + j
        - log_first(s)] by {}
    if 0 <= i < ents.len() && low <= ents[i].index < high {
        assert(t.entries[keep + i] == ents[i]);
        assert(reply[ents[i].index - low] == t.entries[keep + i]);
    }
    if 0 <= i < s.entries.len() && low <= s.entries[i].index < high && s.entries[i].index
        < ents[0].index {
        assert(t.entries[i] == s.entries[i]);
        assert(reply[s.entries[i].index - low] == t.entries[i]);
    }
    if low == ents[0].index && high == ents.last().index + 1 {
        assert forall|j: int| 0 <= j < ents.len() implies reply[j] == ents[j] by {
            assert(reply[j] == t.entries[keep + j]);
        }
        assert(reply =~= ents);
    }
}

/// Appending nothing changes nothing.
pub proof fn law_empty_append_changes_nothing(s: StateModel)
    ensures
        appended(s, Seq::empty()) == s,
{
}

/// Entries that are appended in two batches leave the log as one batch does.
pub proof fn law_appends_in_batches(s: StateModel, a: Seq<EntryModel>, b: Seq<EntryModel>)
    requires
        log_wf(s),
        consecutive(a + b),
        a.len() > 0,
        b.len() > 0,
        log_first(s) <= a[0].index <= log_last(s) + 1,
        b.last().index < u64::MAX,
    ensures
        appended(appended(s, a), b) == appended(s, a + b),
{
    let all = a + b;
    assert forall|i: int| 0 <= i < a.len() implies (#[trigger] a[i]).index == a[0].index + i by {
        assert(all[i] == a[i]);
        assert(all[0] == a[0]);
    }
    assert(all[a.len() as int] == b[0]);
    assert(all[a.len() - 1] == a.last());
    assert(all[0] == a[0]);
    assert(all.last() == b.last());
    assert(a.last().index + 1 == b[0].index);
    assert(all[all.len() - 1] == b.last());
    law_append_keeps_log_consecutive(s, a);
    assert(appended(appended(s, a), b).entries =~= appended(s, all).entries);
}

/// Compacting a log drops the entries below an index and no others: it starts at
/// that index, ends where it did, and answers every request from there on as it did.
pub proof fn law_compaction_keeps_later_entries(
    s: StateModel,
    compact_index: u64,
    low: u64,
    high: u64,
    max: Option<u64>,
    reply: Seq<EntryModel>,
)
    requires
        log_wf(s),
        log_first(s) <= compact_index <= log_last(s),
        compact_index <= low <= high,
    ensures
        log_wf(compacted(s, compact_index)),
        log_first(compacted(s, compact_index)) == compact_index,
        log_last(compacted(s, compact_index)) == log_last(s),
        is_reply(compacted(s, compact_index), low, high, max, reply) <==> is_reply(
            s,
            low,
            high,
            max,
            reply,
        ),
        compacted(s, compact_index).hard_state == s.hard_state,
        compacted(s, compact_index).conf_state == s.conf_state,
        compacted(s, compact_index).snapshot == s.snapshot,
{
    let t = compacted(s, compact_index);
    let k = compact_index - log_first(s);
    law_log_reaches_from_first_to_last(s, 0);
    law_log_reaches_from_first_to_last(s, k);
    assert(t.entries =~= s.entries.skip(k));
    assert(t.entries[0] == s.entries[k]);
    assert(t.entries.last() == s.entries.last());
    assert forall|i: int| 0 <= i < t.entries.len() implies (#[trigger] t.entries[i]).index
        == t.entries[0].index + i by {
        assert(t.entries[i] == s.entries[i + k]);
    }
    if high <= log_last(s) + 1 {
        assert(t.entries.subrange(low - compact_index, high - compact_index) =~= s.entries.subrange(
            low - log_first(s),
            high - log_first(s),
        ));
    }
}

/// A snapshot holds what was given, at the index and of the term of its entry, with
/// the members of the log. The entries behind it are answered as before, and what
/// the replica promised stays.
pub proof fn law_snapshot_holds_what_was_given(
    s: StateModel,
    index: u64,
    data: Seq<u8>,
    i: int,
    low: u64,
    high: u64,
    max: Option<u64>,
    reply: Seq<EntryModel>,
)
    requires
        log_wf(s),
        0 <= i < s.entries.len(),
        s.entries[i].index == index,
        index != s.snapshot.index,
    ensures
        snapshotted(s, index, data).snapshot.data == data,
        snapshotted(s, index, data).snapshot.index == index,
        snapshotted(s, index, data).snapshot.term == s.entries[i].term,
        snapshotted(s, index, data).snapshot.conf_state == s.conf_state,
        snapshotted(s, index, data).conf_state == s.conf_state,
        snapshotted(s, index, data).hard_state == s.hard_state,
        index < low <= high && low <= log_last(s) ==> (is_reply(
            snapshotted(s, index, data),
            low,
            high,
            max,
            reply,
        ) <==> is_reply(s, low, high, max, reply)),
{
    law_log_reaches_from_first_to_last(s, i);
    law_term_is_that_of_the_entry(s, index, i);
    let t = snapshotted(s, index, data);
    assert(t.entries =~= s.entries.skip(i + 1));
    if index < low <= high && low <= log_last(s) {
        let c = (index + 1) as u64;
        law_compaction_keeps_later_entries(s, c, low, high, max, reply);
        assert(t.entries =~= compacted(s, c).entries);
    }
}

/// A log that was replaced by a snapshot holds that snapshot, with its members, and
/// no entries. The replica keeps its vote, and its term is the higher of the two.
pub proof fn law_restore_takes_the_snapshot(s: StateModel, snapshot: SnapshotModel)
    ensures
        restored(s, snapshot).snapshot == snapshot,
        restored(s, snapshot).conf_state == snapshot.conf_state,
        restored(s, snapshot).entries.len() == 0,
        restored(s, snapshot).hard_state.vote == s.hard_state.vote,
        restored(s, snapshot).hard_state.commit == snapshot.index,
        restored(s, snapshot).hard_state.term == s.hard_state.term || restored(
            s,
            snapshot,
        ).hard_state.term == snapshot.term,
        restored(s, snapshot).hard_state.term >= s.hard_state.term,
        restored(s, snapshot).hard_state.term >= snapshot.term,
{
}

/// A log that starts has the given members, promised term one and nobody its vote,
/// and its one entry, at index one, is committed and carries nothing. Its snapshot
/// covers nothing.
pub proof fn law_bootstrap_commits_one_empty_entry(conf_state: ConfModel)
    ensures
        bootstrapped(conf_state).conf_state == conf_state,
        bootstrapped(conf_state).hard_state.term == 1,
        bootstrapped(conf_state).hard_state.vote == 0,
        bootstrapped(conf_state).hard_state.commit == 1,
        bootstrapped(conf_state).entries.len() == 1,
        bootstrapped(conf_state).entries[0].index == 1,
        bootstrapped(conf_state).entries[0].term == 1,
        bootstrapped(conf_state).entries[0].kind == messages::EntryKind::Normal,
        bootstrapped(conf_state).entries[0].data.len() == 0,
        bootstrapped(conf_state).entries[0].context.len() == 0,
        bootstrapped(conf_state).snapshot.index == 0,
        bootstrapped(conf_state).snapshot.term == 0,
        bootstrapped(conf_state).snapshot.data.len() == 0,
        bootstrapped(conf_state).snapshot.conf_state == conf_state,
{
}

proof fn lemma_equal_sizes(sizes: Seq<nat>, size: nat, n: nat)
    requires
        n <= sizes.len(),
        forall|i: int| 0 <= i < sizes.len() ==> #[trigger] sizes[i] == size,
    ensures
        size_of_first(sizes, n) == n * size,
    decreases n,
{
    if n > 0 {
        lemma_equal_sizes(sizes, size, (n - 1) as nat);
        assert((n - 1) * size + size == n * size) by (nonlinear_arith);
    } else {
        assert(0 * size == 0);
    }
}

/// Of entries that take the same number of bytes each, a reply holds as many as go
/// into its limit, but one at least. Without a limit, for which the largest number
/// stands too, it holds all.
pub proof fn law_reply_holds_what_its_limit_allows(
    sizes: Seq<nat>,
    size: nat,
    max: Option<u64>,
    n: nat,
)
    requires
        size > 0,
        forall|i: int| 0 <= i < sizes.len() ==> #[trigger] sizes[i] == size,
        is_limited(sizes, max, n),
        sizes.len() > 0,
    ensures
        max is None || max->0 == u64::MAX ==> n == sizes.len(),
        max is Some && max->0 < u64::MAX ==> {
            &&& n == 1 || n * size <= max->0
            &&& n < sizes.len() ==> (n + 1) * size > max->0
        },
{
    law_reply_is_never_empty(sizes, max, n);
    if max is Some && max->0 < u64::MAX {
        lemma_equal_sizes(sizes, size, n);
        if n > 1 {
            lemma_equal_sizes(sizes, size, (n - 1) as nat);
            assert(within_limit(sizes, n - 1, max->0));
            assert((n - 1) * size > 0) by (nonlinear_arith)
                requires
                    n > 1,
                    size > 0,
            ;
        }
        if n < sizes.len() {
            lemma_equal_sizes(sizes, size, n + 1);
        }
    }
}

/// The entries of a reply up to one that is not the first to take any bytes take no
/// more than its limit.
pub proof fn law_reply_stays_within_its_limit(sizes: Seq<nat>, max: u64, n: nat, i: int)
    requires
        is_limited(sizes, Some(max), n),
        max < u64::MAX,
        sizes.len() > 1,
        0 <= i < n,
        exists|j: int| 0 <= j < i && #[trigger] sizes[j] > 0,
    ensures
        size_of_first(sizes, (i + 1) as nat) <= max,
{
    let j = choose|j: int| 0 <= j < i && #[trigger] sizes[j] > 0;
    lemma_size_covers(sizes, i as nat, j);
    assert(within_limit(sizes, i, max));
}

proof fn lemma_size_covers(sizes: Seq<nat>, n: nat, j: int)
    requires
        0 <= j < n <= sizes.len(),
    ensures
        size_of_first(sizes, n) >= sizes[j],
    decreases n,
{
    if j < n - 1 {
        lemma_size_covers(sizes, (n - 1) as nat, j);
    }
}

/// The layout of the file of a log: what the replica promised, its members and its
/// snapshot, each behind its length in four bytes, then the number of entries in four
/// bytes, most significant byte first, and then the entries.
pub proof fn law_state_file_layout(s: StateModel)
    requires
        messages::hard_state_wire(s.hard_state).len() <= u32::MAX,
        messages::conf_wire(s.conf_state).len() <= u32::MAX,
        messages::snapshot_wire(s.snapshot).len() <= u32::MAX,
        s.entries.len() <= u32::MAX,
    ensures
        ({
            let data = state_bytes(s);
            let hs = messages::hard_state_wire(s.hard_state);
            let cs = messages::conf_wire(s.conf_state);
            let sn = messages::snapshot_wire(s.snapshot);
            let a = 4 + hs.len() as int;
            let b = a + 4 + cs.len() as int;
            let c = b + 4 + sn.len() as int;
            &&& be::be_value(data.subrange(0, 4)) == hs.len()
            &&& data.subrange(4, a) == hs
            &&& be::be_value(data.subrange(a, a + 4)) == cs.len()
            &&& data.subrange(a + 4, b) == cs
            &&& be::be_value(data.subrange(b, b + 4)) == sn.len()
            &&& data.subrange(b + 4, c) == sn
            &&& be::be_value(data.subrange(c, c + 4)) == s.entries.len()
            &&& data.skip(c + 4) == entry_frames(s.entries)
        }),
{
    broadcast use crate::be::lemma_be_bytes_len;

    be::lemma_be_capacities();
    let data = state_bytes(s);
    let hs = messages::hard_state_wire(s.hard_state);
    let cs = messages::conf_wire(s.conf_state);
    let sn = messages::snapshot_wire(s.snapshot);
    let a = 4 + hs.len() as int;
    let b = a + 4 + cs.len() as int;
    let c = b + 4 + sn.len() as int;
    assert(data.subrange(0, 4) =~= be::be_bytes(hs.len(), 4));
    assert(data.subrange(4, a) =~= hs);
    assert(data.subrange(a, a + 4) =~= be::be_bytes(cs.len(), 4));
    assert(data.subrange(a + 4, b) =~= cs);
    assert(data.subrange(b, b + 4) =~= be::be_bytes(sn.len(), 4));
    assert(data.subrange(b + 4, c) =~= sn);
    assert(data.subrange(c, c + 4) =~= be::be_bytes(s.entries.len(), 4));
    assert(data.skip(c + 4) =~= entry_frames(s.entries));
    be::lemma_be_value_of_bytes(hs.len(), 4);
    be::lemma_be_value_of_bytes(cs.len(), 4);
    be::lemma_be_value_of_bytes(sn.len(), 4);
    be::lemma_be_value_of_bytes(s.entries.len(), 4);
}

/// The entries of a file stand one behind the other, each behind its length in four
/// bytes, most significant byte first.
pub proof fn law_entries_are_stored_in_order(entries: Seq<EntryModel>, e: EntryModel)
    requires
        messages::entry_wire(e).len() <= u32::MAX,
    ensures
        ({
            let wire = messages::entry_wire(e);
            let before = entry_frames(entries);
            let after = entry_frames(entries.push(e));
            let n = before.len() as int;
            &&& entry_frames(Seq::empty()).len() == 0
            &&& after.len() == n + 4 + wire.len()
            &&& after.take(n) == before
            &&& be::be_value(after.subrange(n, n + 4)) == wire.len()
            &&& after.skip(n + 4) == wire
        }),
{
    broadcast use crate::be::lemma_be_bytes_len;

    be::lemma_be_capacities();
    let wire = messages::entry_wire(e);
    let before = entry_frames(entries);
    let after = entry_frames(entries.push(e));
    let n = before.len() as int;
    assert(entries.push(e).drop_last() =~= entries);
    assert(after.take(n) =~= before);
    assert(after.subrange(n, n + 4) =~= be::be_bytes(wire.len(), 4));
    assert(after.skip(n + 4) =~= wire);
    be::lemma_be_value_of_bytes(wire.len(), 4);
}

/// A message is taken from behind its length. If the file ends within the length or
/// within the message, the error says which.
pub proof fn law_message_is_taken_from_behind_its_length(data: Seq<u8>, at: int)
    requires
        0 <= at <= data.len(),
    ensures
        data.len() < at + 4 ==> frame_at(data, at) == Err::<Seq<u8>, StateFileError>(
            StateFileError::TruncatedLength,
        ),
        data.len() >= at + 4 ==> {
            let end = at + 4 + be::be_value(data.subrange(at, at + 4));
            &&& frame_end(data, at) == end
            &&& data.len() < end ==> frame_at(data, at) == Err::<Seq<u8>, StateFileError>(
                StateFileError::TruncatedPayload,
            )
            &&& data.len() >= end ==> frame_at(data, at) == Ok::<Seq<u8>, StateFileError>(
                data.subrange(at + 4, end),
            )
        },
{
    if data.len() >= at + 4 {
        be::lemma_be_capacities();
        be::lemma_be_value_bound(data.subrange(at, at + 4));
    }
}

/// A file that cannot be read gives the error of the first part that cannot: its
/// frame's, or that of the codec.
pub proof fn law_first_broken_part_is_told(data: Seq<u8>)
    ensures
        frame_at(data, 0) matches Err(e) ==> decoded_state(data) == Err::<
            StateModel,
            StateFileError,
        >(e),
        frame_at(data, 0) matches Ok(hs) ==> {
            let a = frame_end(data, 0);
            &&& messages::hard_state_parsed(hs) is None ==> decoded_state(data) == Err::<
                StateModel,
                StateFileError,
            >(StateFileError::Codec)
            &&& messages::hard_state_parsed(hs) is Some ==> (frame_at(data, a) matches Err(e)
                ==> decoded_state(data) == Err::<StateModel, StateFileError>(e))
        },
        decoded_state(data) matches Ok(s) ==> {
            let a = frame_end(data, 0);
            let b = frame_end(data, a);
            let c = frame_end(data, b);
            &&& frame_at(data, 0) is Ok && messages::hard_state_parsed(frame_at(data, 0)->Ok_0)
                == Some(s.hard_state)
            &&& frame_at(data, a) is Ok && messages::conf_parsed(frame_at(data, a)->Ok_0) == Some(
                s.conf_state,
            )
            &&& frame_at(data, b) is Ok && messages::snapshot_parsed(frame_at(data, b)->Ok_0)
                == Some(s.snapshot)
            &&& data.len() >= c + 4
        },
{
}

/// The state of a log as plain values holds what its fields hold, each entry in its
/// place.
pub proof fn law_log_holds_its_fields(s: PersistentState, i: int)
    ensures
        s@.hard_state == s.hard_state,
        s@.conf_state == s.conf_state@,
        s@.snapshot == s.snapshot@,
        s@.entries.len() == s.entries@.len(),
        0 <= i < s.entries@.len() ==> s@.entries[i] == s.entries@[i]@,
{
}

/// Whether the entry at a place has the index behind that of the one before it.
pub open spec fn follows_on(entries: Seq<EntryModel>, i: int) -> bool {
    entries[i].index == entries[i - 1].index + 1
}

/// A log is without gaps exactly if each entry has the index behind that of the one
/// before it, and there is an index left behind the last one. It can be stored exactly
/// if each of its parts can.
pub proof fn law_log_without_gaps(s: StateModel)
    ensures
        log_wf(s) <==> {
            &&& forall|i: int| 0 < i < s.entries.len() ==> #[trigger] follows_on(s.entries, i)
            &&& s.entries.len() > 0 ==> s.entries.last().index < u64::MAX
            &&& s.entries.len() == 0 ==> s.snapshot.index < u64::MAX
        },
        state_fits(s) <==> {
            &&& messages::conf_fits(s.conf_state)
            &&& messages::snapshot_fits(s.snapshot)
            &&& forall|i: int|
                0 <= i < s.entries.len() ==> messages::entry_fits(#[trigger] s.entries[i])
        },
{
    if consecutive(s.entries) {
        assert forall|i: int| 0 < i < s.entries.len() implies #[trigger] follows_on(
            s.entries,
            i,
        ) by {
            assert(s.entries[i].index == s.entries[0].index + i);
            assert(s.entries[i - 1].index == s.entries[0].index + (i - 1));
        }
    }
    if forall|i: int| 0 < i < s.entries.len() ==> #[trigger] follows_on(s.entries, i) {
        assert forall|i: int| 0 <= i < s.entries.len() implies (#[trigger] s.entries[i]).index
            == s.entries[0].index + i by {
            lemma_steps(s.entries, i);
        }
    }
}

proof fn lemma_steps(entries: Seq<EntryModel>, i: int)
    requires
        0 <= i < entries.len(),
        forall|j: int| 0 < j < entries.len() ==> #[trigger] follows_on(entries, j),
    ensures
        entries[i].index == entries[0].index + i,
    decreases i,
{
    if i > 0 {
        lemma_steps(entries, i - 1);
        assert(follows_on(entries, i));
    }
}

/// Whatever a log holds, entries that are appended end it, as they are. Of the entries
/// before, those below the index of the first new one stay as they were; all of them, if
/// the new ones stand behind the end.
pub proof fn law_appended_entries_end_the_log(s: StateModel, ents: Seq<EntryModel>, i: int)
    requires
        ents.len() > 0,
        ents[0].index >= log_first(s),
    ensures
        ({
            let t = appended(s, ents).entries;
            let kept = t.len() - ents.len();
            &&& 0 <= kept <= s.entries.len()
            &&& 0 <= i < ents.len() ==> t[kept + i] == ents[i]
            &&& 0 <= i < kept ==> t[i] == s.entries[i]
            &&& ents[0].index > log_last(s) ==> kept == s.entries.len()
            &&& ents[0].index <= log_last(s) && ents[0].index - log_first(s) < s.entries.len()
                ==> kept == ents[0].index - log_first(s)
            &&& ents[0].index - log_first(s) >= s.entries.len() ==> kept == s.entries.len()
        }),
{
}

/// Whatever a log holds, compacting it leaves the entries behind those that it drops as
/// they were: to its first index or below nothing is dropped, and to behind its end
/// everything.
pub proof fn law_compaction_drops_from_the_front(s: StateModel, compact_index: u64, i: int)
    requires
        compact_index > log_first(s) ==> compact_index - log_first(s) <= s.entries.len(),
    ensures
        ({
            let t = compacted(s, compact_index).entries;
            let n = s.entries.len() - t.len();
            &&& compact_index <= log_first(s) ==> n == 0
            &&& compact_index > log_first(s) ==> n == compact_index - log_first(s)
            &&& 0 <= i < t.len() ==> t[i] == s.entries[n + i]
        }),
{
}

/// A reply that is limited holds the first entries of the range, as they are, one at
/// least if there is one: as many as go into the limit, and not one more.
pub proof fn law_limited_reply_is_a_start(
    s: StateModel,
    low: u64,
    high: u64,
    max: Option<u64>,
    reply: Seq<EntryModel>,
    i: int,
)
    requires
        log_wf(s),
        low < high,
        is_reply(s, low, high, max, reply),
    ensures
        1 <= reply.len() <= high - low,
        0 <= i < reply.len() ==> reply[i] == s.entries[low + i - log_first(s)] && reply[i].index
            == low + i,
        reply.len() < high - low ==> max is Some && size_of_first(
            wire_sizes(s.entries.subrange(low - log_first(s), high - log_first(s))),
            (reply.len() + 1) as nat,
        ) > max->0,
{
    let all = s.entries.subrange(low - log_first(s), high - log_first(s));
    law_log_reaches_from_first_to_last(s, low + i - log_first(s));
    law_reply_is_never_empty(wire_sizes(all), max, reply.len());
    if reply.len() < all.len() {
        assert(!within_limit(wire_sizes(all), reply.len() as int, max->0));
    }
}

/// The sizes of entries are those of their encodings, and they add up.
pub proof fn law_sizes_add_up(entries: Seq<EntryModel>, i: int)
    requires
        0 <= i < entries.len(),
    ensures
        wire_sizes(entries).len() == entries.len(),
        wire_sizes(entries)[i] == messages::entry_wire(entries[i]).len(),
        size_of_first(wire_sizes(entries), 0) == 0,
        size_of_first(wire_sizes(entries), (i + 1) as nat) == size_of_first(
            wire_sizes(entries),
            i as nat,
        ) + messages::entry_wire(entries[i]).len(),
{
}

/// The term at an index within a log is that of the entry at its place, gaps or not,
/// unless it is the index of the snapshot.
pub proof fn law_term_is_found_by_place(s: StateModel, idx: u64)
    requires
        log_first(s) <= idx <= log_last(s),
        idx - log_first(s) < s.entries.len(),
        idx != s.snapshot.index,
    ensures
        log_term(s, idx) == Ok::<u64, StorageError>(s.entries[idx - log_first(s)].term),
{
}

/// Entries are refused exactly if they would overwrite what was compacted. Only if there
/// are none, nothing is to be stored.
pub proof fn law_compacted_entries_are_not_overwritten(s: StateModel, ents: Seq<EntryModel>)
    ensures
        ents.len() == 0 ==> append_result(s, ents) == Ok::<bool, LogError>(false),
        ents.len() > 0 && s.entries.len() > 0 && ents[0].index < s.entries[0].index
            ==> append_result(s, ents) == Err::<bool, LogError>(LogError::OverwritesCompacted),
        ents.len() > 0 && s.entries.len() == 0 && ents[0].index <= s.snapshot.index
            ==> append_result(s, ents) == Err::<bool, LogError>(LogError::OverwritesCompacted),
        ents.len() > 0 && s.entries.len() > 0 && ents[0].index >= s.entries[0].index
            ==> append_result(s, ents) == Ok::<bool, LogError>(true),
        ents.len() > 0 && s.entries.len() == 0 && ents[0].index > s.snapshot.index
            ==> append_result(s, ents) == Ok::<bool, LogError>(true),
{
}

/// A log is compacted to an index up to the one behind its last, and refused to be
/// beyond that. If it starts there or later already, nothing is to be stored, and it
/// stays as it is. A log without entries has its end behind its snapshot.
pub proof fn law_log_is_compacted_within_its_end(s: StateModel, compact_index: u64)
    ensures
        s.entries.len() > 0 ==> {
            let (first, last) = (s.entries[0].index, s.entries.last().index);
            &&& compact_index <= first ==> compact_result(s, compact_index) == Ok::<bool, LogError>(
                false,
            ) && compacted(s, compact_index) == s
            &&& compact_index > first && compact_index > last + 1 ==> compact_result(
                s,
                compact_index,
            ) == Err::<bool, LogError>(LogError::CompactsBeyondEnd)
            &&& first < compact_index <= last + 1 ==> compact_result(s, compact_index) == Ok::<
                bool,
                LogError,
            >(true)
        },
        s.entries.len() == 0 ==> {
            &&& compact_index <= s.snapshot.index + 1 ==> compact_result(s, compact_index) == Ok::<
                bool,
                LogError,
            >(false) && compacted(s, compact_index) == s
            &&& compact_index > s.snapshot.index + 1 ==> compact_result(s, compact_index) == Err::<
                bool,
                LogError,
            >(LogError::CompactsBeyondEnd)
        },
{
}

/// A log gives the entries of every range that lies between its ends. Of one that
/// starts before it, it says that it was compacted, and of any other that goes beyond
/// it, that it is not available. A log without entries has both ends behind its
/// snapshot, and gives none.
pub proof fn law_range_within_the_log_is_given(
    s: StateModel,
    low: u64,
    high: u64,
    max: Option<u64>,
    reply: Seq<EntryModel>,
)
    ensures
        s.entries.len() > 0 ==> {
            let (first, last) = (s.entries[0].index, s.entries.last().index);
            &&& low < first ==> entries_error(s, low, high) == Some(StorageError::Compacted)
            &&& low >= first && high > last + 1 ==> entries_error(s, low, high) == Some(
                StorageError::Unavailable,
            )
            &&& low >= first && high <= last + 1 ==> entries_error(s, low, high) is None
        },
        s.entries.len() == 0 ==> {
            &&& low <= s.snapshot.index ==> entries_error(s, low, high) == Some(
                StorageError::Compacted,
            )
            &&& low > s.snapshot.index && high > s.snapshot.index + 1 ==> entries_error(
                s,
                low,
                high,
            ) == Some(StorageError::Unavailable)
            &&& low > s.snapshot.index && high <= s.snapshot.index + 1 ==> entries_error(
                s,
                low,
                high,
            ) is None
            &&& is_reply(s, low, high, max, reply) ==> reply.len() == 0
        },
        is_reply(s, low, high, max, reply) ==> entries_error(s, low, high) is None,
{
}

/// A snapshot that is taken holds the data that was given, the index and the members of
/// the log, and the term that the log has there. The entries and what the replica
/// promised stay. It is refused exactly if the log has no term there, for that reason.
pub proof fn law_snapshot_is_taken_of_the_log(s: StateModel, index: u64, data: Seq<u8>)
    ensures
        log_term(s, index) is Ok <==> snapshot_taken(s, index, data) is Ok,
        snapshot_taken(s, index, data) matches Ok(t) ==> {
            &&& t.snapshot.data == data
            &&& t.snapshot.index == index
            &&& Ok::<u64, StorageError>(t.snapshot.term) == log_term(s, index)
            &&& t.snapshot.conf_state == s.conf_state
            &&& t.entries == s.entries
            &&& t.hard_state == s.hard_state
            &&& t.conf_state == s.conf_state
        },
        snapshot_taken(s, index, data) matches Err(e) ==> log_term(s, index) == Err::<
            u64,
            StorageError,
        >(e),
{
}

/// Outside its entries a log, gaps or not, tells the term of the snapshot for the index
/// of the snapshot and for the one before the first entry. Before those it was
/// compacted, and behind its end there is nothing yet.
pub proof fn law_terms_outside_the_entries(s: StateModel, idx: u64)
    ensures
        idx == s.snapshot.index ==> log_term(s, idx) == Ok::<u64, StorageError>(s.snapshot.term),
        s.entries.len() > 0 && idx != s.snapshot.index ==> {
            let (first, last) = (s.entries[0].index, s.entries.last().index);
            &&& idx + 1 < first ==> log_term(s, idx) == Err::<u64, StorageError>(
                StorageError::Compacted,
            )
            &&& idx + 1 == first ==> log_term(s, idx) == Ok::<u64, StorageError>(s.snapshot.term)
            &&& idx >= first && idx > last ==> log_term(s, idx) == Err::<u64, StorageError>(
                StorageError::Unavailable,
            )
        },
        s.entries.len() == 0 && idx < s.snapshot.index ==> log_term(s, idx) == Err::<
            u64,
            StorageError,
        >(StorageError::Compacted),
        s.entries.len() == 0 && idx > s.snapshot.index ==> log_term(s, idx) == Err::<
            u64,
            StorageError,
        >(StorageError::Unavailable),
{
}

/// What a log with entries can be asked for, gaps or not: a term between its ends if
/// there is an entry at that place, a range or a compaction if the cut lies among the
/// entries, and what it refuses in any case. Only behind the highest index of all there
/// is nothing that could be counted.
pub proof fn law_what_a_log_can_be_asked_for(s: StateModel, low: u64, high: u64)
    requires
        s.entries.len() > 0,
    ensures
        ({
            let (first, last) = (s.entries[0].index, s.entries.last().index);
            &&& low == s.snapshot.index || low < first || low > last ==> has_term_at(s, low)
            &&& first <= low <= last && low != s.snapshot.index ==> (has_term_at(s, low)
                <==> low - first < s.entries.len())
            &&& low < first ==> has_entries_in(s, low, high) && can_compact_to(s, low)
            &&& low == first ==> can_compact_to(s, low)
            &&& low >= first && last == u64::MAX ==> !has_entries_in(s, low, high)
            &&& low > first && last == u64::MAX ==> !can_compact_to(s, low)
            &&& low >= first && last < u64::MAX && high > last + 1 ==> has_entries_in(s, low, high)
            &&& low >= first && last < u64::MAX && high <= last + 1 ==> (has_entries_in(
                s,
                low,
                high,
            ) <==> low <= high && high - first <= s.entries.len())
            &&& low > first && last < u64::MAX && low > last + 1 ==> can_compact_to(s, low)
            &&& low > first && last < u64::MAX && low <= last + 1 ==> (can_compact_to(s, low)
                <==> low - first <= s.entries.len())
        }),
{
}

/// A log without entries can be asked for everything, unless its snapshot is at the
/// highest index of all: then it has the term of the snapshot only.
pub proof fn law_what_an_empty_log_can_be_asked_for(s: StateModel, low: u64, high: u64)
    requires
        s.entries.len() == 0,
    ensures
        s.snapshot.index < u64::MAX ==> has_term_at(s, low) && has_entries_in(s, low, high)
            && can_compact_to(s, low),
        s.snapshot.index == u64::MAX ==> (has_term_at(s, low) <==> low == u64::MAX)
            && !has_entries_in(s, low, high) && !can_compact_to(s, low),
{
}

/// Encoded entries stand one behind the other, each behind its length in four bytes, most
/// significant byte first.
pub proof fn law_encoded_entries_are_joined_in_order(wires: Seq<Vec<u8>>, wire: Vec<u8>)
    requires
        wire@.len() <= u32::MAX,
    ensures
        ({
            let before = wire_frames(wires);
            let after = wire_frames(wires.push(wire));
            let n = before.len() as int;
            &&& wire_frames(Seq::empty()).len() == 0
            &&& after.len() == n + 4 + wire@.len()
            &&& after.take(n) == before
            &&& be::be_value(after.subrange(n, n + 4)) == wire@.len()
            &&& after.skip(n + 4) == wire@
        }),
{
    broadcast use crate::be::lemma_be_bytes_len;

    be::lemma_be_capacities();
    let before = wire_frames(wires);
    let after = wire_frames(wires.push(wire));
    let n = before.len() as int;
    assert(wires.push(wire).drop_last() =~= wires);
    assert(after.take(n) =~= before);
    assert(after.subrange(n, n + 4) =~= be::be_bytes(wire@.len(), 4));
    assert(after.skip(n + 4) =~= wire@);
    be::lemma_be_value_of_bytes(wire@.len(), 4);
}

/// What a log refuses, and what is wrong with its file, is described in words. An error
/// of reading is described alike where it comes up in a change.
pub proof fn law_log_errors_are_described(e: StorageError, f: StateFileError)
    ensures
        e == StorageError::Compacted ==> storage_error_text(e) == "log compacted"@,
        e == StorageError::Unavailable ==> storage_error_text(e) == "log unavailable"@,
        e == StorageError::SnapshotOutOfDate ==> storage_error_text(e) == "snapshot out of date"@,
        log_error_text(LogError::Storage(e)) == storage_error_text(e),
        log_error_text(LogError::OverwritesCompacted)
            == "attempted to overwrite compacted raft entries"@,
        log_error_text(LogError::CompactsBeyondEnd) == "compact index beyond last raft log index"@,
        f == StateFileError::TruncatedLength ==> state_file_error_text(f)
            == "corrupt raft storage state: truncated length"@,
        f == StateFileError::TruncatedPayload ==> state_file_error_text(f)
            == "corrupt raft storage state: truncated protobuf payload"@,
        f == StateFileError::MissingEntryCount ==> state_file_error_text(f)
            == "corrupt raft storage state: missing entry count"@,
        f == StateFileError::Codec ==> state_file_error_text(f)
            == "corrupt raft storage state: protobuf"@,
{
}

} // verus!

//! Writing the log, and rebuilding the state of a shard from it.
//!
//! The writer decides what goes where; the caller performs the file operations
//! and reports back with `finish_append` and `finish_rotation`.

use std::time::SystemTime;

use vstd::prelude::*;
use vstd::slice::slice_subrange;
use vstd::string::*;

use crate::buffer::{bytes_copy_from_slice, bytes_new};
use crate::clock;
use crate::shard::stream_state;
use crate::shard::stream_state::{StreamModel, StreamStateTable, TailModel};
use crate::wal::reader;
use crate::wal::index::{RecordLocation, StreamLogIndex};
use crate::wal::record;
use crate::wal::record::{current_time_ns, RecordModel, WalRecord};
use crate::wal::segment;
use crate::wal::segment::{
    decode_segment_header, encode_segment_header, leading_header, segment_filename, SegmentError,
};

verus! {

/// Why the log of a shard cannot be opened.
#[derive(Debug, Clone, Copy, PartialEq, Eq, Structural)]
pub enum WalWriterError {
    Segment(SegmentError),
}

/// The text that describes a writer error.
pub open spec fn writer_error_text(e: WalWriterError) -> Seq<char> {
    match e {
        WalWriterError::Segment(e) => "WAL writer segment: "@ + segment::segment_error_text(e),
    }
}

impl WalWriterError {
    /// Describes the error.
    pub fn describe(&self) -> (s: String)
        ensures
            s@ == writer_error_text(*self),
    {
        match self {
            WalWriterError::Segment(e) => {
                let mut s: String = String::from_str("WAL writer segment: ");
                s.append(e.describe().as_str());
                s
            },
        }
    }
}

/// A write that has been appended but is not yet on stable storage.
#[derive(Debug, Clone, Copy, PartialEq, Eq, Structural)]
pub struct PendingWrite {
    pub connection_id: u64,
    pub stream_id: u64,
    pub entry_id: u64,
    pub stream_lsn: u64,
}

/// A record found in a segment file, and where.
#[derive(Debug, Clone)]
pub struct ScannedRecord {
    pub offset: u64,
    pub size: u32,
    pub record: WalRecord,
}

/// A record found in a segment file, as plain values.
#[verifier::ext_equal]
pub struct ScannedModel {
    pub offset: u64,
    pub size: u32,
    pub record: RecordModel,
}

impl View for ScannedRecord {
    type V = ScannedModel;

    open spec fn view(&self) -> ScannedModel {
        ScannedModel { offset: self.offset, size: self.size, record: self.record@ }
    }
}

/// The records found as plain values.
pub open spec fn found_models(found: Seq<ScannedRecord>) -> Seq<ScannedModel> {
    found.map_values(|r: ScannedRecord| r@)
}

/// The records that stand one behind the other from `from` on. The first bytes
/// that are no record end the scan: they are a torn write.
pub open spec fn scanned(data: Seq<u8>, from: nat) -> Seq<ScannedModel>
    decreases data.len() - from,
{
    if from >= data.len() {
        Seq::empty()
    } else {
        match record::decoded_record(data.skip(from as int)) {
            Ok((r, size)) => seq![
                ScannedModel { offset: from as u64, size: size as u32, record: r },
            ] + scanned(data, from + size),
            Err(_) => Seq::empty(),
        }
    }
}

/// The records of a segment file. A file that is too short for a header holds
/// none; one with a wrong header is an error.
pub open spec fn scanned_segment(data: Seq<u8>) -> Result<Seq<ScannedModel>, SegmentError> {
    if data.len() < 64 {
        Ok(Seq::empty())
    } else {
        match segment::decoded_segment_header(data.take(64)) {
            Ok(_) => Ok(scanned(data, 64)),
            Err(e) => Err(e),
        }
    }
}

/// Where the last of the records ends that stand one behind the other from `from`
/// on. What follows is a torn write.
pub open spec fn scan_end(data: Seq<u8>, from: nat) -> nat
    decreases data.len() - from,
{
    if from >= data.len() {
        from
    } else {
        match record::decoded_record(data.skip(from as int)) {
            Ok((_, size)) => scan_end(data, from + size),
            Err(_) => from,
        }
    }
}

/// Where a segment file is to be continued: behind its last whole record. What
/// follows is a torn write, and the file is to be cut there. A file that is too
/// short for a header is to be cut to nothing and to get its header anew.
pub fn resume_offset(data: &[u8]) -> (at: u64)
    ensures
        data@.len() >= 64 ==> at == scan_end(data@, 64),
        data@.len() < 64 ==> at == 0,
        at <= data@.len(),
{
    if data.len() < 64 {
        return 0;
    }
    let mut offset: usize = 64;
    while offset < data.len()
        invariant
            offset <= data.len(),
            scan_end(data@, offset as nat) == scan_end(data@, 64),
        ensures
            offset <= data.len(),
            offset == scan_end(data@, 64),
        decreases data.len() - offset,
    {
        let rest: &[u8] = slice_subrange(data, offset, data.len());
        assert(rest@ =~= data@.skip(offset as int));
        match WalRecord::decode(rest) {
            Ok((_, size)) => {
                offset = offset + size;
            },
            Err(_) => {
                break ;
            },
        }
    }
    offset as u64
}

/// Reads the records of a segment file.
pub fn scan_segment(data: &[u8]) -> (r: Result<Vec<ScannedRecord>, SegmentError>)
    ensures
        match r {
            Ok(found) => scanned_segment(data@) == Ok::<Seq<ScannedModel>, SegmentError>(
                found_models(found@),
            ),
            Err(e) => scanned_segment(data@) == Err::<Seq<ScannedModel>, SegmentError>(e),
        },
{
    let mut found: Vec<ScannedRecord> = Vec::new();
    assert(found_models(found@) =~= Seq::empty());
    if data.len() < 64 {
        return Ok(found);
    }
    match decode_segment_header(&leading_header(data)) {
        Ok(_) => {},
        Err(e) => {
            return Err(e);
        },
    }
    let mut offset: usize = 64;
    assert(found_models(found@) + scanned(data@, 64) =~= scanned(data@, 64));
    while offset < data.len()
        invariant
            offset <= data.len(),
            found_models(found@) + scanned(data@, offset as nat) == scanned(data@, 64),
        ensures
            found_models(found@) == scanned(data@, 64),
        decreases data.len() - offset,
    {
        let rest: &[u8] = slice_subrange(data, offset, data.len());
        assert(rest@ =~= data@.skip(offset as int));
        match WalRecord::decode(rest) {
            Ok((r, size)) => {
                let ghost before = found_models(found@);
                let item = ScannedRecord { offset: offset as u64, size: size as u32, record: r };
                found.push(item);
                assert(found_models(found@) =~= before.push(item@));
                assert(found_models(found@) + scanned(data@, (offset + size) as nat) =~= before
                    + scanned(data@, offset as nat));
                offset = offset + size;
            },
            Err(_) => {
                assert(found_models(found@) + Seq::<ScannedModel>::empty() =~= found_models(
                    found@,
                ));
                break ;
            },
        }
    }
    Ok(found)
}

/// What is rebuilt from the log.
#[verifier::ext_equal]
pub struct RecoveryModel {
    pub index: Map<(u64, u64), RecordLocation>,
    pub streams: Map<u64, StreamModel>,
    pub next_entry_id: u64,
}

/// The smallest entry id above both what was handed out and `entry_id`.
pub open spec fn next_after(next: u64, entry_id: u64) -> u64 {
    if entry_id >= next {
        (entry_id + 1) as u64
    } else {
        next
    }
}

/// What is known after one more record of a segment was found.
pub open spec fn absorbed(
    s: RecoveryModel,
    limit: nat,
    segment_id: u64,
    found: ScannedModel,
) -> RecoveryModel {
    let r = found.record;
    RecoveryModel {
        index: s.index.insert(
            (r.stream_id, r.stream_lsn),
            RecordLocation { segment_id, offset: found.offset, size: found.size },
        ),
        streams: stream_state::after_recovery(
            s.streams,
            limit,
            r.stream_id,
            r.term,
            TailModel { stream_lsn: r.stream_lsn, entry_id: r.entry_id, payload: r.value },
        ),
        next_entry_id: next_after(s.next_entry_id, r.entry_id),
    }
}

/// What is known after all records of a segment were found.
pub open spec fn replayed(
    s: RecoveryModel,
    limit: nat,
    segment_id: u64,
    found: Seq<ScannedModel>,
) -> RecoveryModel
    decreases found.len(),
{
    if found.len() == 0 {
        s
    } else {
        absorbed(replayed(s, limit, segment_id, found.drop_last()), limit, segment_id, found.last())
    }
}

/// Whether every indexed record was committed and lies below the next LSN of its
/// stream.
pub open spec fn index_in_bounds(
    index: Map<(u64, u64), RecordLocation>,
    streams: Map<u64, StreamModel>,
) -> bool {
    forall|k: (u64, u64)| #[trigger]
        index.contains_key(k) ==> {
            let s = stream_state::stream_or_fresh(streams, k.0);
            k.1 < s.next_stream_lsn && k.1 < s.commit_stream_lsn
        }
}

/// Whether the entry ids and LSNs of records leave room for a next one.
pub open spec fn counters_fit(found: Seq<ScannedModel>) -> bool {
    forall|i: int|
        0 <= i < found.len() ==> (#[trigger] found[i]).record.entry_id < u64::MAX
            && found[i].record.stream_lsn < u64::MAX
}

/// What replaying a segment file gives: whether its records were taken in, or why the
/// file is refused, and what is known then.
pub open spec fn replay_result(
    s: RecoveryModel,
    limit: nat,
    segment_id: u64,
    data: Seq<u8>,
) -> (Result<bool, WalWriterError>, RecoveryModel) {
    match scanned_segment(data) {
        Ok(found) => if counters_fit(found) {
            (Ok(true), replayed(s, limit, segment_id, found))
        } else {
            (Ok(false), s)
        },
        Err(e) => (Err(WalWriterError::Segment(e)), s),
    }
}

/// The state of a shard while its log is read back.
pub struct Recovery {
    pub index: StreamLogIndex,
    pub streams: StreamStateTable,
    pub next_entry_id: u64,
}

impl View for Recovery {
    type V = RecoveryModel;

    open spec fn view(&self) -> RecoveryModel {
        RecoveryModel {
            index: self.index@,
            streams: self.streams@,
            next_entry_id: self.next_entry_id,
        }
    }
}

impl Recovery {
    /// Starts with what a snapshot held, or with nothing.
    pub fn new(tail_cache_limit: usize, recovered_streams: Option<StreamStateTable>) -> (r: Self)
        requires
            recovered_streams matches Some(table) ==> table.wf(),
        ensures
            r.streams.wf(),
            r@.index == Map::<(u64, u64), RecordLocation>::empty(),
            r@.next_entry_id == 0,
            match recovered_streams {
                Some(table) => r@.streams == table@ && r.streams.limit() == table.limit(),
                None => r@.streams == Map::<u64, StreamModel>::empty() && r.streams.limit()
                    == tail_cache_limit,
            },
    {
        let streams: StreamStateTable = match recovered_streams {
            Some(table) => table,
            None => StreamStateTable::new(tail_cache_limit),
        };
        Recovery { index: StreamLogIndex::new(), streams, next_entry_id: 0 }
    }

    /// Takes in the records of a segment, in order.
    pub fn absorb(&mut self, segment_id: u64, found: &Vec<ScannedRecord>)
        requires
            old(self).streams.wf(),
            counters_fit(found_models(found@)),
        ensures
            final(self).streams.wf(),
            final(self).streams.limit() == old(self).streams.limit(),
            final(self)@ == replayed(
                old(self)@,
                old(self).streams.limit() as nat,
                segment_id,
                found_models(found@),
            ),
    {
        let ghost all = found_models(found@);
        let ghost limit = old(self).streams.limit() as nat;
        let mut i: usize = 0;
        assert(all.take(0) =~= Seq::empty());
        while i < found.len()
            invariant
                i <= found@.len(),
                all == found_models(found@),
                counters_fit(all),
                self.streams.wf(),
                self.streams.limit() == limit,
                self@ == replayed(old(self)@, limit, segment_id, all.take(i as int)),
            decreases found@.len() - i,
        {
            let item: &ScannedRecord = &found[i];
            assert(all[i as int] == item@);
            assert(all.take(i + 1).drop_last() =~= all.take(i as int));
            assert(all.take(i + 1).last() == item@);
            self.index.insert(
                item.record.stream_id,
                item.record.stream_lsn,
                RecordLocation { segment_id, offset: item.offset, size: item.size },
            );
            self.streams.observe_recovered(
                item.record.stream_id,
                item.record.term,
                item.record.entry_id,
                item.record.stream_lsn,
                item.record.value.clone(),
            );
            if item.record.entry_id >= self.next_entry_id {
                self.next_entry_id = item.record.entry_id + 1;
            }
            i = i + 1;
        }
        assert(all.take(i as int) =~= all);
    }

    /// Replays a segment file. `Ok(false)` says that a record used up the
    /// counters, so that nothing can follow it; nothing is taken in then.
    pub fn replay_segment(&mut self, segment_id: u64, data: &[u8]) -> (r: Result<
        bool,
        WalWriterError,
    >)
        requires
            old(self).streams.wf(),
        ensures
            final(self).streams.wf(),
            final(self).streams.limit() == old(self).streams.limit(),
            match scanned_segment(data@) {
                Ok(found) => {
                    &&& r == Ok::<bool, WalWriterError>(counters_fit(found))
                    &&& final(self)@ == (if counters_fit(found) {
                        replayed(
                            old(self)@,
                            old(self).streams.limit() as nat,
                            segment_id,
                            found,
                        )
                    } else {
                        old(self)@
                    })
                },
                Err(e) => {
                    &&& r == Err::<bool, WalWriterError>(WalWriterError::Segment(e))
                    &&& final(self)@ == old(self)@
                },
            },
            (r, final(self)@) == replay_result(
                old(self)@,
                old(self).streams.limit() as nat,
                segment_id,
                data@,
            ),
    {
        match scan_segment(data) {
            Ok(found) => {
                if !room_left(&found) {
                    return Ok(false);
                }
                self.absorb(segment_id, &found);
                Ok(true)
            },
            Err(e) => Err(WalWriterError::Segment(e)),
        }
    }
}

/// Whether the entry ids and LSNs of the records leave room for a next one.
pub fn room_left(found: &Vec<ScannedRecord>) -> (r: bool)
    ensures
        r == counters_fit(found_models(found@)),
{
    let mut i: usize = 0;
    while i < found.len()
        invariant
            i <= found@.len(),
            forall|j: int|
                0 <= j < i ==> (#[trigger] found_models(found@)[j]).record.entry_id < u64::MAX
                    && found_models(found@)[j].record.stream_lsn < u64::MAX,
        decreases found@.len() - i,
    {
        assert(found_models(found@)[i as int] == found@[i as int]@);
        if found[i].record.entry_id == u64::MAX || found[i].record.stream_lsn == u64::MAX {
            return false;
        }
        i = i + 1;
    }
    true
}

/// Where the log of a shard continues.
#[verifier::ext_equal]
pub struct WriterModel {
    pub shard_id: u16,
    pub current_segment_id: u64,
    pub current_offset: u64,
    pub next_entry_id: u64,
    pub next_segment_id: u64,
    pub max_segment_bytes: u64,
}

/// The writer of the log of one shard. There is one per shard, so it needs no
/// locking.
pub struct WalWriter {
    shard_id: u16,
    current_segment_id: u64,
    current_offset: u64,
    next_entry_id: u64,
    next_segment_id: u64,
    max_segment_bytes: u64,
}

impl View for WalWriter {
    type V = WriterModel;

    closed spec fn view(&self) -> WriterModel {
        WriterModel {
            shard_id: self.shard_id,
            current_segment_id: self.current_segment_id,
            current_offset: self.current_offset,
            next_entry_id: self.next_entry_id,
            next_segment_id: self.next_segment_id,
            max_segment_bytes: self.max_segment_bytes,
        }
    }
}

/// The bytes to write for a record, and where they go.
pub struct AppendPlan {
    pub entry_id: u64,
    pub location: RecordLocation,
    pub data: Vec<u8>,
}

/// Whether a plan writes a record at the current position of a writer.
pub open spec fn plans_record(w: WriterModel, r: RecordModel, plan: AppendPlan) -> bool {
    &&& plan.entry_id == r.entry_id
    &&& plan.data@ == record::record_bytes(r)
    &&& plan.location == RecordLocation {
        segment_id: w.current_segment_id,
        offset: w.current_offset,
        size: record::record_size(r) as u32,
    }
}

/// The position of a writer that was just opened.
pub open spec fn opened(
    shard_id: u16,
    max_segment_bytes: u64,
    last_segment: Option<(u64, u64)>,
    next_entry_id: u64,
) -> WriterModel {
    let current = match last_segment {
        Some((segment_id, at)) => (segment_id, stream_state::max64(64, at)),
        None => (0, 64),
    };
    WriterModel {
        shard_id,
        current_segment_id: current.0,
        current_offset: current.1,
        next_entry_id,
        next_segment_id: (current.0 + 1) as u64,
        max_segment_bytes,
    }
}

/// The position of a writer after an append took an entry id.
pub open spec fn after_entry_id(w: WriterModel) -> WriterModel {
    WriterModel { next_entry_id: (w.next_entry_id + 1) as u64, ..w }
}

/// The position of a writer after bytes were written.
pub open spec fn after_bytes(w: WriterModel, written: u64) -> WriterModel {
    WriterModel { current_offset: (w.current_offset + written) as u64, ..w }
}

/// Whether the current segment is full.
pub open spec fn is_full(w: WriterModel) -> bool {
    w.current_offset >= w.max_segment_bytes
}

/// The position of a writer after a rotation.
pub open spec fn after_rotation(w: WriterModel) -> WriterModel {
    WriterModel {
        current_segment_id: w.next_segment_id,
        next_segment_id: (w.next_segment_id + 1) as u64,
        current_offset: 64,
        ..w
    }
}

/// The time that is stored for a point of the wall clock.
pub open spec fn time_at(since_epoch: Option<u128>) -> u64 {
    record::stored_time(since_epoch) as u64
}

/// A segment file to create: its name, and the header that it starts with.
pub struct NewSegment {
    pub segment_id: u64,
    pub filename: String,
    pub header: [u8; 64],
}

impl WalWriter {
    /// Resumes the log in its last segment, given as its id and as where its file
    /// is to be continued. A file that gets its header anew is continued behind
    /// it. Without a last segment, segment 0 is the first; the caller creates it.
    pub fn open(
        shard_id: u16,
        max_segment_bytes: u64,
        last_segment: Option<(u64, u64)>,
        next_entry_id: u64,
    ) -> (w: Self)
        requires
            last_segment matches Some((segment_id, _)) ==> segment_id < u64::MAX,
        ensures
            w@ == opened(shard_id, max_segment_bytes, last_segment, next_entry_id),
    {
        let (current_segment_id, current_offset): (u64, u64) = match last_segment {
            Some((segment_id, at)) => if at < 64 {
                (segment_id, 64)
            } else {
                (segment_id, at)
            },
            None => (0, 64),
        };
        WalWriter {
            shard_id,
            current_segment_id,
            current_offset,
            next_entry_id,
            next_segment_id: current_segment_id + 1,
            max_segment_bytes,
        }
    }

    fn plan(&self, r: WalRecord) -> (plan: AppendPlan)
        requires
            record::record_size(r@) <= usize::MAX,
        ensures
            plans_record(self@, r@, plan),
    {
        let size: usize = r.encoded_size();
        AppendPlan {
            entry_id: r.entry_id,
            location: RecordLocation {
                segment_id: self.current_segment_id,
                offset: self.current_offset,
                size: size as u32,
            },
            data: r.encode_to_vec(),
        }
    }

    /// Appends a record that carries the given time. Takes the next entry id;
    /// the position moves when the bytes are written.
    pub fn append_at(
        &mut self,
        stream_id: u64,
        term: u64,
        stream_lsn: u64,
        key: &[u8],
        value: &[u8],
        timestamp_ns: u64,
    ) -> (plan: AppendPlan)
        requires
            old(self)@.next_entry_id < u64::MAX,
            50 + key@.len() + value@.len() <= usize::MAX,
        ensures
            plans_record(
                old(self)@,
                (RecordModel {
                    stream_id,
                    term,
                    entry_id: old(self)@.next_entry_id,
                    stream_lsn,
                    timestamp_ns,
                    key: key@,
                    value: value@,
                }),
                plan,
            ),
            final(self)@ == after_entry_id(old(self)@),
    {
        let entry_id: u64 = self.next_entry_id;
        self.next_entry_id = self.next_entry_id + 1;
        let r = WalRecord {
            stream_id,
            term,
            entry_id,
            stream_lsn,
            timestamp_ns,
            key: bytes_copy_from_slice(key),
            value: bytes_copy_from_slice(value),
        };
        self.plan(r)
    }

    /// Appends a key-value pair to the log, stamped with the wall clock. Does
    /// not sync: the caller is responsible for batching syncs.
    pub fn append(
        &mut self,
        stream_id: u64,
        term: u64,
        stream_lsn: u64,
        key: &[u8],
        value: &[u8],
    ) -> (plan: AppendPlan)
        requires
            old(self)@.next_entry_id < u64::MAX,
            50 + key@.len() + value@.len() <= usize::MAX,
        ensures
            exists|now: SystemTime|
                plans_record(
                    old(self)@,
                    (RecordModel {
                        stream_id,
                        term,
                        entry_id: old(self)@.next_entry_id,
                        stream_lsn,
                        timestamp_ns: time_at(#[trigger] clock::unix_nanos(now)),
                        key: key@,
                        value: value@,
                    }),
                    plan,
                ),
            final(self)@ == after_entry_id(old(self)@),
    {
        let t: u64 = current_time_ns();
        let ghost now = choose|now: SystemTime|
            t == record::stored_time(#[trigger] clock::unix_nanos(now));
        assert(t == time_at(clock::unix_nanos(now)));
        self.append_at(stream_id, term, stream_lsn, key, value, t)
    }

    /// Appends the payload of a replicated entry under the index of its log
    /// entry, with the given time and no key.
    pub fn append_log_entry_at(
        &mut self,
        stream_id: u64,
        epoch: u64,
        stream_lsn: u64,
        log_index: u64,
        payload: &[u8],
        timestamp_ns: u64,
    ) -> (plan: AppendPlan)
        requires
            log_index < u64::MAX,
            50 + payload@.len() <= usize::MAX,
        ensures
            plans_record(
                old(self)@,
                (RecordModel {
                    stream_id,
                    term: epoch,
                    entry_id: log_index,
                    stream_lsn,
                    timestamp_ns,
                    key: Seq::empty(),
                    value: payload@,
                }),
                plan,
            ),
            final(self)@ == (WriterModel {
                next_entry_id: next_after(old(self)@.next_entry_id, log_index),
                ..old(self)@
            }),
    {
        if log_index >= self.next_entry_id {
            self.next_entry_id = log_index + 1;
        }
        let r = WalRecord {
            stream_id,
            term: epoch,
            entry_id: log_index,
            stream_lsn,
            timestamp_ns,
            key: bytes_new(),
            value: bytes_copy_from_slice(payload),
        };
        self.plan(r)
    }

    /// Appends the payload of a replicated entry under the index of its log
    /// entry, stamped with the wall clock.
    pub fn append_with_log_index(
        &mut self,
        stream_id: u64,
        epoch: u64,
        stream_lsn: u64,
        log_index: u64,
        payload: &[u8],
    ) -> (plan: AppendPlan)
        requires
            log_index < u64::MAX,
            50 + payload@.len() <= usize::MAX,
        ensures
            exists|now: SystemTime|
                plans_record(
                    old(self)@,
                    (RecordModel {
                        stream_id,
                        term: epoch,
                        entry_id: log_index,
                        stream_lsn,
                        timestamp_ns: time_at(#[trigger] clock::unix_nanos(now)),
                        key: Seq::empty(),
                        value: payload@,
                    }),
                    plan,
                ),
            final(self)@ == (WriterModel {
                next_entry_id: next_after(old(self)@.next_entry_id, log_index),
                ..old(self)@
            }),
    {
        let t: u64 = current_time_ns();
        let ghost now = choose|now: SystemTime|
            t == record::stored_time(#[trigger] clock::unix_nanos(now));
        assert(t == time_at(clock::unix_nanos(now)));
        self.append_log_entry_at(stream_id, epoch, stream_lsn, log_index, payload, t)
    }

    /// Moves the position behind `written` bytes. Returns whether the segment is
    /// full, so that the log has to rotate.
    pub fn finish_append(&mut self, written: u64) -> (rotate: bool)
        requires
            old(self)@.current_offset + written <= u64::MAX,
        ensures
            final(self)@ == after_bytes(old(self)@, written),
            rotate == is_full(final(self)@),
    {
        self.current_offset = self.current_offset + written;
        self.current_offset >= self.max_segment_bytes
    }

    /// The segment file that a rotation creates.
    pub fn next_segment(&self) -> (s: NewSegment)
        ensures
            s.segment_id == self@.next_segment_id,
            s.filename@ == segment::segment_name(self@.shard_id, self@.next_segment_id),
            exists|now: SystemTime|
                s.header@ == segment::segment_header(
                    self@.shard_id,
                    self@.next_segment_id,
                    time_at(#[trigger] clock::unix_nanos(now)),
                ),
    {
        let s = create_segment(self.shard_id, self.next_segment_id);
        assert(self.shard_id == self@.shard_id && self.next_segment_id == self@.next_segment_id);
        s
    }

    /// Continues in the segment that a rotation created.
    pub fn finish_rotation(&mut self)
        requires
            old(self)@.next_segment_id < u64::MAX,
        ensures
            final(self)@ == after_rotation(old(self)@),
    {
        self.current_segment_id = self.next_segment_id;
        self.next_segment_id = self.next_segment_id + 1;
        self.current_offset = 64;
    }

    /// The segment that is written to.
    pub fn current_segment_id(&self) -> (id: u64)
        ensures
            id == self@.current_segment_id,
    {
        self.current_segment_id
    }

    /// The position in the current segment.
    pub fn current_offset(&self) -> (offset: u64)
        ensures
            offset == self@.current_offset,
    {
        self.current_offset
    }

    /// The entry id that the next append takes.
    pub fn next_entry_id(&self) -> (id: u64)
        ensures
            id == self@.next_entry_id,
    {
        self.next_entry_id
    }

    /// The id of the segment that the next rotation creates.
    pub fn next_segment_id(&self) -> (id: u64)
        ensures
            id == self@.next_segment_id,
    {
        self.next_segment_id
    }
}

/// A new segment file of a shard, stamped with the wall clock.
pub fn create_segment(shard_id: u16, segment_id: u64) -> (s: NewSegment)
    ensures
        s.segment_id == segment_id,
        s.filename@ == segment::segment_name(shard_id, segment_id),
        exists|now: SystemTime|
            s.header@ == segment::segment_header(
                shard_id,
                segment_id,
                time_at(#[trigger] clock::unix_nanos(now)),
            ),
{
    let created: u64 = current_time_ns();
    let ghost now = choose|now: SystemTime|
        created == record::stored_time(#[trigger] clock::unix_nanos(now));
    assert(created == time_at(clock::unix_nanos(now)));
    NewSegment {
        segment_id,
        filename: segment_filename(shard_id, segment_id),
        header: encode_segment_header(shard_id, segment_id, created),
    }
}

/// Records on disk, one behind the other.
pub open spec fn log_bytes(records: Seq<RecordModel>) -> Seq<u8>
    decreases records.len(),
{
    if records.len() == 0 {
        Seq::empty()
    } else {
        log_bytes(records.drop_last()) + record::record_bytes(records.last())
    }
}

/// A segment file that holds the given records.
pub open spec fn segment_image(
    shard_id: u16,
    segment_id: u64,
    created: u64,
    records: Seq<RecordModel>,
) -> Seq<u8> {
    segment::segment_header(shard_id, segment_id, created) + log_bytes(records)
}

/// Where record `i` of a segment file starts.
pub open spec fn record_offset(records: Seq<RecordModel>, i: int) -> nat {
    64 + log_bytes(records.take(i)).len()
}

/// The records of a segment file and where they stand.
pub open spec fn located(records: Seq<RecordModel>) -> Seq<ScannedModel> {
    Seq::new(
        records.len(),
        |i: int|
            ScannedModel {
                offset: record_offset(records, i) as u64,
                size: record::record_size(records[i]) as u32,
                record: records[i],
            },
    )
}

/// Whether the lengths of all records fit the fields that hold them.
pub open spec fn records_fit(records: Seq<RecordModel>) -> bool {
    forall|i: int| 0 <= i < records.len() ==> record::record_fits(#[trigger] records[i])
}

/// A file after `data` was written at `offset`, which is not beyond its end.
pub open spec fn written_at(image: Seq<u8>, offset: int, data: Seq<u8>) -> Seq<u8> {
    image.take(offset) + data + (if offset + data.len() < image.len() {
        image.skip(offset + data.len())
    } else {
        Seq::empty()
    })
}

proof fn lemma_log_prefix(records: Seq<RecordModel>, i: int)
    requires
        0 <= i <= records.len(),
    ensures
        log_bytes(records.take(i)).len() <= log_bytes(records).len(),
        log_bytes(records).take(log_bytes(records.take(i)).len() as int) == log_bytes(
            records.take(i),
        ),
    decreases records.len(),
{
    if i == records.len() {
        assert(records.take(i) =~= records);
        assert(log_bytes(records).take(log_bytes(records).len() as int) =~= log_bytes(records));
    } else {
        let init = records.drop_last();
        lemma_log_prefix(init, i);
        assert(init.take(i) =~= records.take(i));
        let n = log_bytes(records.take(i)).len() as int;
        assert(log_bytes(records).take(n) =~= log_bytes(init).take(n));
    }
}

/// The bytes of record `i` stand where `record_offset` says.
proof fn lemma_record_in_image(
    shard_id: u16,
    segment_id: u64,
    created: u64,
    records: Seq<RecordModel>,
    i: int,
)
    requires
        0 <= i < records.len(),
    ensures
        record_offset(records, i + 1) == record_offset(records, i) + record::record_size(
            records[i],
        ),
        record_offset(records, i + 1) <= segment_image(
            shard_id,
            segment_id,
            created,
            records,
        ).len(),
        segment_image(shard_id, segment_id, created, records).subrange(
            record_offset(records, i) as int,
            record_offset(records, i + 1) as int,
        ) == record::record_bytes(records[i]),
{
    broadcast use crate::be::lemma_be_bytes_len;

    let image = segment_image(shard_id, segment_id, created, records);
    let upto = records.take(i + 1);
    record::lemma_record_len(records[i]);
    assert(upto.drop_last() =~= records.take(i));
    assert(upto.last() == records[i]);
    lemma_log_prefix(records, i + 1);
    let a = log_bytes(records.take(i)).len() as int;
    let b = log_bytes(upto).len() as int;
    assert(image.subrange(64 + a, 64 + b) =~= log_bytes(records).take(b).subrange(a, b));
    assert(log_bytes(upto).subrange(a, b) =~= record::record_bytes(records[i]));
}

/// Record `i` is decoded where `record_offset` says, whatever follows the image.
proof fn lemma_record_decodes_in_image(
    shard_id: u16,
    segment_id: u64,
    created: u64,
    records: Seq<RecordModel>,
    tail: Seq<u8>,
    i: int,
)
    requires
        0 <= i < records.len(),
        record::record_fits(records[i]),
    ensures
        ({
            let data = segment_image(shard_id, segment_id, created, records) + tail;
            let at = record_offset(records, i);
            let size = record::record_size(records[i]);
            &&& record_offset(records, i + 1) == at + size
            &&& at + size <= data.len()
            &&& record::decoded_record(data.skip(at as int)) == Ok::<
                (RecordModel, nat),
                record::WalRecordError,
            >((records[i], size))
        }),
{
    let image = segment_image(shard_id, segment_id, created, records);
    let data = image + tail;
    let r = records[i];
    let at = record_offset(records, i) as int;
    let end = record_offset(records, i + 1) as int;
    lemma_record_in_image(shard_id, segment_id, created, records, i);
    lemma_split(image, tail, at, end, record::record_bytes(r));
    record::law_record_roundtrip(r, data.skip(end));
}

proof fn lemma_split(image: Seq<u8>, tail: Seq<u8>, at: int, end: int, part: Seq<u8>)
    requires
        0 <= at <= end <= image.len(),
        image.subrange(at, end) == part,
    ensures
        (image + tail).skip(at) == part + (image + tail).skip(end),
{
    let data = image + tail;
    assert(data.skip(at) =~= part + data.skip(end)) by {
        assert(data.subrange(at, end) =~= image.subrange(at, end));
        assert(data.skip(at) =~= data.subrange(at, end) + data.skip(end));
    }
}

proof fn lemma_scan_step(data: Seq<u8>, at: nat, r: RecordModel, size: nat)
    requires
        at < data.len(),
        record::decoded_record(data.skip(at as int)) == Ok::<
            (RecordModel, nat),
            record::WalRecordError,
        >((r, size)),
    ensures
        scanned(data, at) == seq![
            ScannedModel { offset: at as u64, size: size as u32, record: r },
        ] + scanned(data, at + size),
{
}

proof fn lemma_scan_stops(image: Seq<u8>, next: RecordModel, n: int)
    requires
        record::record_fits(next),
        0 <= n < record::record_size(next),
    ensures
        scanned(image + record::record_bytes(next).take(n), image.len()) == Seq::<
            ScannedModel,
        >::empty(),
{
    let tail = record::record_bytes(next).take(n);
    record::lemma_record_len(next);
    assert((image + tail).skip(image.len() as int) =~= tail);
    if n > 0 {
        record::law_torn_record_is_rejected(next, n);
    }
}

proof fn lemma_image_len(
    shard_id: u16,
    segment_id: u64,
    created: u64,
    records: Seq<RecordModel>,
)
    ensures
        segment_image(shard_id, segment_id, created, records).len() == record_offset(
            records,
            records.len() as int,
        ),
{
    broadcast use crate::be::lemma_be_bytes_len;

    assert(records.take(records.len() as int) =~= records);
}

proof fn lemma_scan_from(
    shard_id: u16,
    segment_id: u64,
    created: u64,
    records: Seq<RecordModel>,
    next: RecordModel,
    n: int,
    i: int,
)
    requires
        records_fit(records),
        record::record_fits(next),
        0 <= n < record::record_size(next),
        0 <= i <= records.len(),
    ensures
        scanned(
            segment_image(shard_id, segment_id, created, records) + record::record_bytes(
                next,
            ).take(n),
            record_offset(records, i),
        ) == located(records).skip(i),
    decreases records.len() - i,
{
    let found = located(records);
    if i == records.len() {
        let image = segment_image(shard_id, segment_id, created, records);
        lemma_image_len(shard_id, segment_id, created, records);
        lemma_scan_stops(image, next, n);
        assert(found.skip(i) =~= Seq::empty());
    } else {
        lemma_scan_from(shard_id, segment_id, created, records, next, n, i + 1);
        lemma_scan_one(
            shard_id,
            segment_id,
            created,
            records,
            record::record_bytes(next).take(n),
            i,
        );
        assert(found.skip(i) =~= seq![found[i]] + found.skip(i + 1));
    }
}

proof fn lemma_scan_one(
    shard_id: u16,
    segment_id: u64,
    created: u64,
    records: Seq<RecordModel>,
    tail: Seq<u8>,
    i: int,
)
    requires
        0 <= i < records.len(),
        record::record_fits(records[i]),
    ensures
        ({
            let data = segment_image(shard_id, segment_id, created, records) + tail;
            scanned(data, record_offset(records, i)) == seq![located(records)[i]] + scanned(
                data,
                record_offset(records, i + 1),
            )
        }),
{
    let data = segment_image(shard_id, segment_id, created, records) + tail;
    lemma_record_decodes_in_image(shard_id, segment_id, created, records, tail, i);
    lemma_scan_step(
        data,
        record_offset(records, i),
        records[i],
        record::record_size(records[i]),
    );
}

/// Reading a segment file back finds exactly the records that were written, in
/// order and in place, even if the last write behind them was torn: the first
/// `n` bytes of the record `next`.
pub proof fn law_scan_finds_what_was_written(
    shard_id: u16,
    segment_id: u64,
    created: u64,
    records: Seq<RecordModel>,
    next: RecordModel,
    n: int,
)
    requires
        records_fit(records),
        record::record_fits(next),
        0 <= n < record::record_size(next),
    ensures
        scanned_segment(
            segment_image(shard_id, segment_id, created, records) + record::record_bytes(
                next,
            ).take(n),
        ) == Ok::<Seq<ScannedModel>, SegmentError>(located(records)),
{
    broadcast use crate::be::lemma_be_bytes_len;

    let header = segment::segment_header(shard_id, segment_id, created);
    let data = segment_image(shard_id, segment_id, created, records) + record::record_bytes(
        next,
    ).take(n);
    segment::law_segment_header_roundtrip(shard_id, segment_id, created);
    assert(data.take(64) =~= header);
    lemma_scan_from(shard_id, segment_id, created, records, next, n, 0);
    assert(records.take(0) =~= Seq::empty());
    assert(located(records).skip(0) =~= located(records));
}

/// Writing a record at the end of a segment file gives the file that holds it
/// behind the others.
pub proof fn law_append_extends_segment(
    shard_id: u16,
    segment_id: u64,
    created: u64,
    records: Seq<RecordModel>,
    r: RecordModel,
)
    ensures
        written_at(
            segment_image(shard_id, segment_id, created, records),
            record_offset(records, records.len() as int) as int,
            record::record_bytes(r),
        ) == segment_image(shard_id, segment_id, created, records.push(r)),
{
    broadcast use crate::be::lemma_be_bytes_len;

    let image = segment_image(shard_id, segment_id, created, records);
    assert(records.take(records.len() as int) =~= records);
    assert(records.push(r).drop_last() =~= records);
    assert(image.take(image.len() as int) =~= image);
    assert(image + record::record_bytes(r) + Seq::<u8>::empty() =~= segment_image(
        shard_id,
        segment_id,
        created,
        records.push(r),
    ));
}

proof fn lemma_scan_end_bounds(data: Seq<u8>, from: nat)
    requires
        from <= data.len(),
    ensures
        from <= scan_end(data, from) <= data.len(),
    decreases data.len() - from,
{
    if from < data.len() && record::decoded_record(data.skip(from as int)) is Ok {
        record::law_record_decoding_needs_its_own_bytes_only(data.skip(from as int));
        let size = record::decoded_record(data.skip(from as int))->Ok_0.1;
        lemma_scan_end_bounds(data, from + size);
    }
}

proof fn lemma_record_at_end(head: Seq<u8>, r: RecordModel)
    requires
        record::record_fits(r),
    ensures
        ({
            let file = head + record::record_bytes(r);
            let n = head.len();
            &&& scanned(file, n) == seq![
                ScannedModel {
                    offset: n as u64,
                    size: record::record_size(r) as u32,
                    record: r,
                },
            ]
            &&& scan_end(file, n) == file.len()
        }),
{
    let file = head + record::record_bytes(r);
    let n = head.len();
    record::lemma_record_len(r);
    record::law_record_roundtrip(r, Seq::empty());
    assert(file.skip(n as int) =~= record::record_bytes(r) + Seq::<u8>::empty());
    let end = n + record::record_size(r);
    assert(end == file.len());
    assert(scanned(file, end) =~= Seq::empty());
    assert(scan_end(file, end) == end);
}

proof fn lemma_scan_continues(data: Seq<u8>, from: nat, r: RecordModel)
    requires
        from <= data.len(),
        record::record_fits(r),
    ensures
        ({
            let at = scan_end(data, from);
            let file = data.take(at as int) + record::record_bytes(r);
            &&& from <= at <= data.len()
            &&& scanned(file, from) == scanned(data, from).push(
                ScannedModel {
                    offset: at as u64,
                    size: record::record_size(r) as u32,
                    record: r,
                },
            )
            &&& scan_end(file, from) == file.len()
        }),
    decreases data.len() - from,
{
    let at = scan_end(data, from);
    let file = data.take(at as int) + record::record_bytes(r);
    let rest = data.skip(from as int);
    lemma_scan_end_bounds(data, from);
    if from < data.len() && record::decoded_record(rest) is Ok {
        record::law_record_decoding_needs_its_own_bytes_only(rest);
        let (x, size) = record::decoded_record(rest)->Ok_0;
        let own = rest.take(size as int);
        lemma_scan_end_bounds(data, from + size);
        lemma_scan_continues(data, from + size, r);
        let more = file.skip((from + size) as int);
        record::law_record_decoding_is_local(own, more);
        assert(file.skip(from as int) =~= own + more);
        assert(scanned(file, from) =~= scanned(data, from).push(
            ScannedModel { offset: at as u64, size: record::record_size(r) as u32, record: r },
        ));
    } else {
        assert(at == from);
        lemma_record_at_end(data.take(at as int), r);
        assert(scanned(data, from) =~= Seq::empty());
        assert(scanned(file, from) =~= scanned(data, from).push(
            ScannedModel { offset: at as u64, size: record::record_size(r) as u32, record: r },
        ));
    }
}

/// A log goes on behind a torn write: of a segment file that is cut where it is
/// to be continued, and gets a record written there, the scan finds the records
/// that it held before and then that record. Nothing torn is left behind it.
pub proof fn law_log_goes_on_after_torn_write(data: Seq<u8>, r: RecordModel)
    requires
        scanned_segment(data) is Ok,
        data.len() >= 64,
        record::record_fits(r),
    ensures
        ({
            let at = scan_end(data, 64);
            let file = written_at(data.take(at as int), at as int, record::record_bytes(r));
            &&& 64 <= at <= data.len()
            &&& scanned_segment(file) == Ok::<Seq<ScannedModel>, SegmentError>(
                scanned_segment(data)->Ok_0.push(
                    ScannedModel {
                        offset: at as u64,
                        size: record::record_size(r) as u32,
                        record: r,
                    },
                ),
            )
            &&& scan_end(file, 64) == file.len()
        }),
{
    lemma_scan_continues(data, 64, r);
    let at = scan_end(data, 64) as int;
    let file = data.take(at) + record::record_bytes(r);
    assert(data.take(at).take(at) =~= data.take(at));
    assert(written_at(data.take(at), at, record::record_bytes(r)) =~= file);
    assert(file.take(64) =~= data.take(64));
}

/// A restart after that finds the record too: replaying the continued file adds it
/// to what replaying the torn one gave, at the place where it was written, and its
/// entry id is not given again.
pub proof fn law_restart_finds_what_followed_a_torn_write(
    s: RecoveryModel,
    limit: nat,
    segment_id: u64,
    data: Seq<u8>,
    r: RecordModel,
)
    requires
        scanned_segment(data) is Ok,
        data.len() >= 64,
        record::record_fits(r),
        r.entry_id < u64::MAX,
        scan_end(data, 64) <= u64::MAX,
    ensures
        ({
            let at = scan_end(data, 64);
            let file = written_at(data.take(at as int), at as int, record::record_bytes(r));
            let before = replayed(s, limit, segment_id, scanned_segment(data)->Ok_0);
            let after = replayed(s, limit, segment_id, scanned_segment(file)->Ok_0);
            let key = (r.stream_id, r.stream_lsn);
            &&& scanned_segment(file) is Ok
            &&& after.index == before.index.insert(
                key,
                RecordLocation {
                    segment_id,
                    offset: at as u64,
                    size: record::record_size(r) as u32,
                },
            )
            &&& after.next_entry_id == next_after(before.next_entry_id, r.entry_id)
            &&& after.next_entry_id > r.entry_id
            &&& after.next_entry_id >= before.next_entry_id
        }),
{
    law_log_goes_on_after_torn_write(data, r);
    let at = scan_end(data, 64);
    let found = scanned_segment(data)->Ok_0;
    let item = ScannedModel {
        offset: at as u64,
        size: record::record_size(r) as u32,
        record: r,
    };
    assert(found.push(item).drop_last() =~= found);
    assert(found.push(item).last() == item);
}

/// A segment file that was too short for its header holds the record that is
/// written behind the new header, and nothing else.
pub proof fn law_log_goes_on_after_torn_header(
    shard_id: u16,
    segment_id: u64,
    created: u64,
    r: RecordModel,
)
    requires
        record::record_fits(r),
    ensures
        ({
            let header = segment::segment_header(shard_id, segment_id, created);
            scanned_segment(written_at(header, 64, record::record_bytes(r))) == Ok::<
                Seq<ScannedModel>,
                SegmentError,
            >(seq![ScannedModel { offset: 64, size: record::record_size(r) as u32, record: r }])
        }),
{
    broadcast use crate::be::lemma_be_bytes_len;

    let header = segment::segment_header(shard_id, segment_id, created);
    let file = header + record::record_bytes(r);
    segment::law_segment_header_roundtrip(shard_id, segment_id, created);
    assert(header.take(64) =~= header);
    assert(written_at(header, 64, record::record_bytes(r)) =~= file);
    assert(file.take(64) =~= header);
    lemma_record_at_end(header, r);
}

/// Reading at the location of an append gives the record back, once its bytes
/// are written. The size of a location is a 32-bit number, so this holds of
/// records up to that size.
pub proof fn law_append_is_read_back(
    w: WriterModel,
    r: RecordModel,
    plan: AppendPlan,
    image: Seq<u8>,
)
    requires
        plans_record(w, r, plan),
        record::record_fits(r),
        record::record_size(r) <= u32::MAX,
        plan.location.offset <= image.len(),
    ensures
        reader::read_record_from(
            written_at(image, plan.location.offset as int, plan.data@).subrange(
                plan.location.offset as int,
                plan.location.offset + plan.location.size,
            ),
        ) == Ok::<RecordModel, reader::WalReaderError>(r),
{
    record::lemma_record_len(r);
    let at = plan.location.offset as int;
    let after = written_at(image, at, plan.data@);
    assert(after.subrange(at, at + plan.location.size) =~= record::record_bytes(r) + Seq::<
        u8,
    >::empty());
    record::law_record_roundtrip(r, Seq::empty());
}

proof fn lemma_replayed_index(
    s: RecoveryModel,
    limit: nat,
    segment_id: u64,
    found: Seq<ScannedModel>,
    i: int,
)
    requires
        counters_fit(found),
        0 <= i < found.len(),
    ensures
        replayed(s, limit, segment_id, found).next_entry_id > found[i].record.entry_id,
        replayed(s, limit, segment_id, found).next_entry_id >= s.next_entry_id,
        (forall|j: int|
            i < j < found.len() ==> (#[trigger] found[j]).record.stream_id
                != found[i].record.stream_id || found[j].record.stream_lsn
                != found[i].record.stream_lsn) ==> {
            let key = (found[i].record.stream_id, found[i].record.stream_lsn);
            &&& replayed(s, limit, segment_id, found).index.contains_key(key)
            &&& replayed(s, limit, segment_id, found).index[key] == RecordLocation {
                segment_id,
                offset: found[i].offset,
                size: found[i].size,
            }
        },
    decreases found.len(),
{
    let init = found.drop_last();
    assert forall|j: int| 0 <= j < init.len() implies (#[trigger] init[j]).record.entry_id
        < u64::MAX && init[j].record.stream_lsn < u64::MAX by {
        assert(init[j] == found[j]);
    }
    let last = found.len() - 1;
    assert(found[last].record.entry_id < u64::MAX);
    if init.len() > 0 {
        let k = if i < last {
            i
        } else {
            0
        };
        lemma_replayed_index(s, limit, segment_id, init, k);
        assert(init[k] == found[k]);
        if i < last && (forall|j: int|
            i < j < found.len() ==> (#[trigger] found[j]).record.stream_id
                != found[i].record.stream_id || found[j].record.stream_lsn
                != found[i].record.stream_lsn) {
            assert forall|j: int| i < j < init.len() implies (#[trigger] init[j]).record.stream_id
                != init[i].record.stream_id || init[j].record.stream_lsn
                != init[i].record.stream_lsn by {
                assert(init[j] == found[j]);
            }
            assert(found[last].record.stream_id != found[i].record.stream_id
                || found[last].record.stream_lsn != found[i].record.stream_lsn);
        }
    }
}

/// Replaying a segment keeps the location of every record that it does not hold
/// itself, and never takes the next entry id back.
pub proof fn law_replay_keeps_other_records(
    s: RecoveryModel,
    limit: nat,
    segment_id: u64,
    found: Seq<ScannedModel>,
    key: (u64, u64),
)
    requires
        counters_fit(found),
        forall|i: int|
            0 <= i < found.len() ==> ((#[trigger] found[i]).record.stream_id, found[i].record.stream_lsn)
                != key,
    ensures
        replayed(s, limit, segment_id, found).index.get(key) == s.index.get(key),
        replayed(s, limit, segment_id, found).next_entry_id >= s.next_entry_id,
    decreases found.len(),
{
    if found.len() > 0 {
        let init = found.drop_last();
        assert forall|j: int| 0 <= j < init.len() implies (#[trigger] init[j]).record.entry_id
            < u64::MAX && init[j].record.stream_lsn < u64::MAX && (
            init[j].record.stream_id,
            init[j].record.stream_lsn,
        ) != key by {
            assert(init[j] == found[j]);
        }
        law_replay_keeps_other_records(s, limit, segment_id, init, key);
        assert(found.last() == found[found.len() - 1]);
    }
}

/// Replaying a segment leaves every indexed record committed and below the next
/// LSN of its stream.
pub proof fn law_replayed_index_is_in_bounds(
    s: RecoveryModel,
    limit: nat,
    segment_id: u64,
    found: Seq<ScannedModel>,
)
    requires
        index_in_bounds(s.index, s.streams),
        counters_fit(found),
    ensures
        index_in_bounds(
            replayed(s, limit, segment_id, found).index,
            replayed(s, limit, segment_id, found).streams,
        ),
    decreases found.len(),
{
    if found.len() > 0 {
        let init = found.drop_last();
        assert forall|j: int| 0 <= j < init.len() implies (#[trigger] init[j]).record.entry_id
            < u64::MAX && init[j].record.stream_lsn < u64::MAX by {
            assert(init[j] == found[j]);
        }
        law_replayed_index_is_in_bounds(s, limit, segment_id, init);
        let before = replayed(s, limit, segment_id, init);
        let after = replayed(s, limit, segment_id, found);
        let r = found.last().record;
        assert(found.last() == found[found.len() - 1]);
        assert forall|k: (u64, u64)| #[trigger] after.index.contains_key(k) implies k.1
            < stream_state::stream_or_fresh(after.streams, k.0).next_stream_lsn && k.1
            < stream_state::stream_or_fresh(after.streams, k.0).commit_stream_lsn by {
            if k != (r.stream_id, r.stream_lsn) {
                assert(before.index.contains_key(k));
            }
        }
    }
}

/// After a restart every record that was written is found again under its
/// stream and LSN, unless a later record took its place; reading at the location
/// that was rebuilt gives the record; and no entry id is handed out twice. This
/// holds of segment files whose offsets fit 64 bits and of records whose sizes
/// fit 32 bits.
pub proof fn law_recovery_finds_every_record(
    s: RecoveryModel,
    limit: nat,
    shard_id: u16,
    segment_id: u64,
    created: u64,
    records: Seq<RecordModel>,
    i: int,
)
    requires
        records_fit(records),
        counters_fit(located(records)),
        segment_image(shard_id, segment_id, created, records).len() <= u64::MAX,
        0 <= i < records.len(),
        record::record_size(records[i]) <= u32::MAX,
        forall|j: int|
            i < j < records.len() ==> (#[trigger] records[j]).stream_id != records[i].stream_id
                || records[j].stream_lsn != records[i].stream_lsn,
    ensures
        ({
            let image = segment_image(shard_id, segment_id, created, records);
            let after = replayed(s, limit, segment_id, scanned_segment(image)->Ok_0);
            let key = (records[i].stream_id, records[i].stream_lsn);
            let loc = after.index[key];
            &&& scanned_segment(image) is Ok
            &&& after.index.contains_key(key)
            &&& loc.segment_id == segment_id
            &&& loc.offset + loc.size <= image.len()
            &&& reader::read_record_from(
                image.subrange(loc.offset as int, loc.offset + loc.size),
            ) == Ok::<RecordModel, reader::WalReaderError>(records[i])
            &&& after.next_entry_id > records[i].entry_id
        }),
{
    let image = segment_image(shard_id, segment_id, created, records);
    let r = records[i];
    law_scan_finds_what_was_written(shard_id, segment_id, created, records, r, 0);
    assert(image + record::record_bytes(r).take(0) =~= image);
    let found = located(records);
    assert(found[i].record == r);
    assert forall|j: int| i < j < found.len() implies (#[trigger] found[j]).record.stream_id
        != found[i].record.stream_id || found[j].record.stream_lsn != found[i].record.stream_lsn by {
        assert(found[j].record == records[j]);
    }
    lemma_replayed_index(s, limit, segment_id, found, i);
    lemma_record_in_image(shard_id, segment_id, created, records, i);
    record::law_record_roundtrip(r, Seq::empty());
    assert(record::record_bytes(r) + Seq::<u8>::empty() =~= record::record_bytes(r));
}

proof fn lemma_scan_before(
    shard_id: u16,
    segment_id: u64,
    created: u64,
    records: Seq<RecordModel>,
    tail: Seq<u8>,
    i: int,
)
    requires
        records_fit(records),
        record::decoded_record(tail) is Err,
        0 <= i <= records.len(),
    ensures
        ({
            let image = segment_image(shard_id, segment_id, created, records);
            &&& scanned(image + tail, record_offset(records, i)) == located(records).skip(i)
            &&& scan_end(image + tail, record_offset(records, i)) == image.len()
        }),
    decreases records.len() - i,
{
    let found = located(records);
    let image = segment_image(shard_id, segment_id, created, records);
    let data = image + tail;
    if i == records.len() {
        lemma_image_len(shard_id, segment_id, created, records);
        assert(data.skip(image.len() as int) =~= tail);
        assert(found.skip(i) =~= Seq::empty());
    } else {
        lemma_scan_before(shard_id, segment_id, created, records, tail, i + 1);
        lemma_scan_one(shard_id, segment_id, created, records, tail, i);
        lemma_record_decodes_in_image(shard_id, segment_id, created, records, tail, i);
        assert(found.skip(i) =~= seq![found[i]] + found.skip(i + 1));
    }
}

/// Reading a segment file back ends at the first bytes that are no record, whatever
/// they are and whatever follows them: the records before them are found, each with
/// what was written and where, nothing behind them is, and the file is to be
/// continued there.
pub proof fn law_scan_ends_at_first_bytes_that_are_no_record(
    shard_id: u16,
    segment_id: u64,
    created: u64,
    records: Seq<RecordModel>,
    tail: Seq<u8>,
    i: int,
)
    requires
        records_fit(records),
        record::decoded_record(tail) is Err,
        segment_image(shard_id, segment_id, created, records).len() <= u64::MAX,
    ensures
        ({
            let image = segment_image(shard_id, segment_id, created, records);
            &&& scan_end(image + tail, 64) == image.len()
            &&& scanned_segment(image + tail) matches Ok(found) && {
                &&& found.len() == records.len()
                &&& 0 <= i < records.len() ==> {
                    &&& found[i].record == records[i]
                    &&& found[i].offset >= 64
                    &&& found[i].offset + record::record_bytes(records[i]).len() <= image.len()
                    &&& image.subrange(
                        found[i].offset as int,
                        found[i].offset + record::record_bytes(records[i]).len(),
                    ) == record::record_bytes(records[i])
                }
            }
        }),
{
    broadcast use crate::be::lemma_be_bytes_len;

    let header = segment::segment_header(shard_id, segment_id, created);
    let image = segment_image(shard_id, segment_id, created, records);
    let data = image + tail;
    segment::law_segment_header_roundtrip(shard_id, segment_id, created);
    assert(data.take(64) =~= header);
    lemma_scan_before(shard_id, segment_id, created, records, tail, 0);
    assert(records.take(0) =~= Seq::empty());
    assert(located(records).skip(0) =~= located(records));
    if 0 <= i < records.len() {
        record::lemma_record_len(records[i]);
        lemma_record_in_image(shard_id, segment_id, created, records, i);
    }
}

/// A file that is too short for a header holds no record. One whose header is
/// refused is refused for the same reason.
pub proof fn law_header_is_read_first(data: Seq<u8>)
    ensures
        data.len() < 64 ==> scanned_segment(data) == Ok::<Seq<ScannedModel>, SegmentError>(
            Seq::empty(),
        ),
        data.len() >= 64 ==> (segment::decoded_segment_header(data.take(64)) matches Err(e)
            ==> scanned_segment(data) == Err::<Seq<ScannedModel>, SegmentError>(e)),
        data.len() >= 64 && segment::decoded_segment_header(data.take(64)) is Ok
            ==> scanned_segment(data) is Ok,
{
}

/// The next entry id lies above every one that was found or handed out, and is the
/// lowest that does.
pub proof fn law_next_entry_id_is_free(next: u64, entry_id: u64)
    requires
        entry_id < u64::MAX,
    ensures
        next_after(next, entry_id) > entry_id,
        next_after(next, entry_id) >= next,
        next_after(next, entry_id) == next || next_after(next, entry_id) == entry_id + 1,
{
}

/// A record that is found is indexed where it stands; its stream takes it in as
/// written and committed, with its epoch, its entry id, its LSN and its payload; and
/// its entry id is not handed out again. Every other record stays indexed where it
/// was, and every other stream as it was.
pub proof fn law_found_record_is_taken_in(
    s: RecoveryModel,
    limit: nat,
    segment_id: u64,
    found: ScannedModel,
    key: (u64, u64),
    other: u64,
)
    requires
        found.record.stream_lsn < u64::MAX,
        found.record.entry_id < u64::MAX,
        key != (found.record.stream_id, found.record.stream_lsn),
        other != found.record.stream_id,
    ensures
        ({
            let r = found.record;
            let after = absorbed(s, limit, segment_id, found);
            let b = stream_state::stream_or_fresh(s.streams, r.stream_id);
            let t = after.streams[r.stream_id];
            &&& after.index.contains_key((r.stream_id, r.stream_lsn))
            &&& after.index[(r.stream_id, r.stream_lsn)].segment_id == segment_id
            &&& after.index[(r.stream_id, r.stream_lsn)].offset == found.offset
            &&& after.index[(r.stream_id, r.stream_lsn)].size == found.size
            &&& after.index.contains_key(key) <==> s.index.contains_key(key)
            &&& s.index.contains_key(key) ==> after.index[key] == s.index[key]
            &&& after.streams.contains_key(r.stream_id)
            &&& t.max_epoch == (if b.max_epoch < r.term {
                r.term
            } else {
                b.max_epoch
            })
            &&& t.last_entry_id == (if b.last_entry_id < r.entry_id {
                r.entry_id
            } else {
                b.last_entry_id
            })
            &&& t.next_stream_lsn == (if b.next_stream_lsn <= r.stream_lsn {
                r.stream_lsn + 1
            } else {
                b.next_stream_lsn as int
            })
            &&& t.commit_stream_lsn == (if b.commit_stream_lsn <= r.stream_lsn {
                r.stream_lsn + 1
            } else {
                b.commit_stream_lsn as int
            })
            &&& t.consumed_stream_lsn == b.consumed_stream_lsn
            &&& t.banned == b.banned
            &&& t.last_ack_ns == b.last_ack_ns
            &&& t.tail.len() == (if b.tail.len() < limit {
                b.tail.len() + 1
            } else {
                limit
            })
            &&& t.tail.len() > 0 ==> t.tail.last().stream_lsn == r.stream_lsn
                && t.tail.last().entry_id == r.entry_id && t.tail.last().payload == r.value
            &&& forall|k: int|
                1 <= k < t.tail.len() ==> t.tail[t.tail.len() - 1 - k]
                    == #[trigger] b.tail[b.tail.len() - k]
            &&& after.streams.contains_key(other) <==> s.streams.contains_key(other)
            &&& s.streams.contains_key(other) ==> after.streams[other] == s.streams[other]
            &&& after.next_entry_id > r.entry_id
            &&& after.next_entry_id >= s.next_entry_id
            &&& after.next_entry_id == s.next_entry_id || after.next_entry_id == r.entry_id + 1
        }),
{
    let r = found.record;
    let record = TailModel { stream_lsn: r.stream_lsn, entry_id: r.entry_id, payload: r.value };
    stream_state::law_append_raises_positions(s.streams, limit, r.stream_id, r.term, record);
}

/// Records are taken in one after the other: those of two parts of a segment as those
/// of the whole.
pub proof fn law_replay_goes_record_by_record(
    s: RecoveryModel,
    limit: nat,
    segment_id: u64,
    a: Seq<ScannedModel>,
    b: Seq<ScannedModel>,
    one: ScannedModel,
)
    ensures
        replayed(s, limit, segment_id, a + b) == replayed(
            replayed(s, limit, segment_id, a),
            limit,
            segment_id,
            b,
        ),
        replayed(s, limit, segment_id, seq![one]) == absorbed(s, limit, segment_id, one),
        replayed(s, limit, segment_id, Seq::empty()) == s,
    decreases b.len(),
{
    assert(seq![one].drop_last() =~= Seq::empty());
    assert(replayed(s, limit, segment_id, seq![one].drop_last()) == s);
    if b.len() == 0 {
        assert(a + b =~= a);
    } else {
        law_replay_goes_record_by_record(s, limit, segment_id, a, b.drop_last(), one);
        assert((a + b).drop_last() =~= a + b.drop_last());
        assert((a + b).last() == b.last());
    }
}

/// A writer that is opened continues in the last segment where it is told to, but
/// not before the end of its header; without a segment it starts behind the header of
/// the first one. The segment that follows has the next id.
pub proof fn law_writer_continues_where_the_log_ends(
    shard_id: u16,
    max_segment_bytes: u64,
    segment_id: u64,
    at: u64,
    next_entry_id: u64,
)
    requires
        segment_id < u64::MAX,
    ensures
        ({
            let w = opened(shard_id, max_segment_bytes, Some((segment_id, at)), next_entry_id);
            let n = opened(shard_id, max_segment_bytes, None, next_entry_id);
            &&& w.shard_id == shard_id
            &&& w.max_segment_bytes == max_segment_bytes
            &&& w.next_entry_id == next_entry_id
            &&& w.current_segment_id == segment_id
            &&& w.next_segment_id == segment_id + 1
            &&& at >= 64 ==> w.current_offset == at
            &&& at < 64 ==> w.current_offset == 64
            &&& n.shard_id == shard_id
            &&& n.max_segment_bytes == max_segment_bytes
            &&& n.next_entry_id == next_entry_id
            &&& n.current_segment_id == 0
            &&& n.next_segment_id == 1
            &&& n.current_offset == 64
        }),
{
}

/// Writing moves the position by what was written and nothing else. The segment is
/// full as soon as the position reaches the size that a segment may have; a rotation
/// continues behind the header of the next segment. Neither hands out an entry id;
/// an append hands out one.
pub proof fn law_writer_moves_by_what_is_written(w: WriterModel, written: u64)
    requires
        w.current_offset + written <= u64::MAX,
        w.next_segment_id < u64::MAX,
        w.next_entry_id < u64::MAX,
    ensures
        ({
            let m = after_bytes(w, written);
            let r = after_rotation(w);
            let a = after_entry_id(w);
            &&& m.current_offset == w.current_offset + written
            &&& m.current_segment_id == w.current_segment_id
            &&& m.next_segment_id == w.next_segment_id
            &&& m.next_entry_id == w.next_entry_id
            &&& m.shard_id == w.shard_id && m.max_segment_bytes == w.max_segment_bytes
            &&& is_full(m) <==> w.current_offset + written >= w.max_segment_bytes
            &&& r.current_segment_id == w.next_segment_id
            &&& r.next_segment_id == w.next_segment_id + 1
            &&& r.current_offset == 64
            &&& r.next_entry_id == w.next_entry_id
            &&& r.shard_id == w.shard_id && r.max_segment_bytes == w.max_segment_bytes
            &&& a.next_entry_id == w.next_entry_id + 1
            &&& a.current_segment_id == w.current_segment_id
            &&& a.current_offset == w.current_offset
            &&& a.next_segment_id == w.next_segment_id
            &&& a.shard_id == w.shard_id && a.max_segment_bytes == w.max_segment_bytes
        }),
{
}

/// A plan for a record writes its bytes at the current position of the writer, and says
/// so: the segment, the offset, how many bytes there are, and the entry id.
pub proof fn law_plan_writes_at_the_current_position(
    w: WriterModel,
    r: RecordModel,
    plan: AppendPlan,
)
    requires
        plans_record(w, r, plan),
    ensures
        plan.entry_id == r.entry_id,
        plan.data@ == record::record_bytes(r),
        plan.location.segment_id == w.current_segment_id,
        plan.location.offset == w.current_offset,
        plan.data@.len() <= u32::MAX ==> plan.location.size == plan.data@.len(),
{
    record::lemma_record_len(r);
}

/// A record that was found, as plain values, holds what its fields hold, and several
/// hold each of them in order.
pub proof fn law_found_records_hold_their_fields(
    r: ScannedRecord,
    found: Seq<ScannedRecord>,
    i: int,
)
    ensures
        r@.offset == r.offset,
        r@.size == r.size,
        r@.record == r.record@,
        found_models(found).len() == found.len(),
        0 <= i < found.len() ==> found_models(found)[i] == found[i]@,
{
}

/// Replaying a segment file takes in every record that it holds, in order. A file whose
/// header is refused takes in nothing, and neither does one with a record behind which
/// no entry id or LSN is left.
pub proof fn law_segment_is_replayed_whole_or_not(
    s: RecoveryModel,
    limit: nat,
    segment_id: u64,
    data: Seq<u8>,
    i: int,
)
    ensures
        scanned_segment(data) matches Err(e) ==> replay_result(s, limit, segment_id, data) == (
            Err::<bool, WalWriterError>(WalWriterError::Segment(e)),
            s,
        ),
        scanned_segment(data) matches Ok(found) ==> {
            &&& 0 <= i < found.len() && (found[i].record.entry_id == u64::MAX
                || found[i].record.stream_lsn == u64::MAX) ==> replay_result(
                s,
                limit,
                segment_id,
                data,
            ) == (Ok::<bool, WalWriterError>(false), s)
            &&& (forall|j: int|
                0 <= j < found.len() ==> (#[trigger] found[j]).record.entry_id < u64::MAX
                    && found[j].record.stream_lsn < u64::MAX) ==> replay_result(
                s,
                limit,
                segment_id,
                data,
            ) == (Ok::<bool, WalWriterError>(true), replayed(s, limit, segment_id, found))
        },
{
}

/// An error of the writer is described with that of the segment.
pub proof fn law_writer_error_is_described(e: SegmentError)
    ensures
        writer_error_text(WalWriterError::Segment(e)) == "WAL writer segment: "@
            + segment::segment_error_text(e),
{
}

} // verus!

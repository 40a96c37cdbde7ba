//! What a replica knows of each stream: its epoch, its positions, and a cache
//! of its latest records.

use std::collections::{HashMap, VecDeque};

use bytes::Bytes;
use vstd::prelude::*;
use vstd::string::*;

use crate::be;
use crate::be::{get_u32, get_u64, put_be};
use crate::buffer;
use crate::keys;
use crate::keys::hash_keys;

verus! {

pub type StreamId = u64;

/// The positions of a stream.
#[derive(Debug, Clone, Copy, PartialEq, Eq, Structural)]
pub struct StreamStatus {
    pub stream_id: StreamId,
    pub max_epoch: u64,
    pub next_stream_lsn: u64,
    pub commit_stream_lsn: u64,
    pub consumed_stream_lsn: u64,
    pub last_entry_id: u64,
}

/// A record in the tail cache of a stream.
#[derive(Debug, Clone)]
pub struct TailRecord {
    pub stream_lsn: u64,
    pub entry_id: u64,
    pub payload: Bytes,
}

/// What a cached record holds.
#[verifier::ext_equal]
pub struct TailModel {
    pub stream_lsn: u64,
    pub entry_id: u64,
    pub payload: Seq<u8>,
}

impl View for TailRecord {
    type V = TailModel;

    open spec fn view(&self) -> TailModel {
        TailModel {
            stream_lsn: self.stream_lsn,
            entry_id: self.entry_id,
            payload: buffer::bytes_contents(self.payload),
        }
    }
}

/// What a replica knows of one stream.
#[verifier::ext_equal]
pub struct StreamModel {
    pub max_epoch: u64,
    pub next_stream_lsn: u64,
    pub commit_stream_lsn: u64,
    pub consumed_stream_lsn: u64,
    pub last_entry_id: u64,
    pub tail: Seq<TailModel>,
    /// Whether the stream was given up, so that its writes are refused.
    pub banned: bool,
    /// When the stream was last acknowledged, or when that began to be watched;
    /// zero while it is not.
    pub last_ack_ns: u64,
}

#[derive(Debug, Clone)]
struct StreamReplicaState {
    stream_id: StreamId,
    max_epoch: u64,
    next_stream_lsn: u64,
    commit_stream_lsn: u64,
    consumed_stream_lsn: u64,
    last_entry_id: u64,
    tail_cache: VecDeque<TailRecord>,
    banned: bool,
    last_ack_ns: u64,
}

/// Why an append is refused.
#[derive(Debug, Clone, Copy, PartialEq, Eq, Structural)]
pub enum EpochFenceError {
    Stale { current_epoch: u64, request_epoch: u64 },
}

/// Why bytes are not a snapshot of stream positions.
#[derive(Debug, Clone, Copy, PartialEq, Eq, Structural)]
pub enum SnapshotError {
    TooSmall,
    Truncated,
}

/// The text that describes a snapshot error.
pub open spec fn snapshot_error_text(e: SnapshotError) -> Seq<char> {
    match e {
        SnapshotError::TooSmall => "stream snapshot too small"@,
        SnapshotError::Truncated => "stream snapshot truncated"@,
    }
}

impl SnapshotError {
    /// Describes the error.
    pub fn describe(&self) -> (s: String)
        ensures
            s@ == snapshot_error_text(*self),
    {
        match self {
            SnapshotError::TooSmall => String::from_str("stream snapshot too small"),
            SnapshotError::Truncated => String::from_str("stream snapshot truncated"),
        }
    }
}

/// A stream of which nothing is known yet.
pub open spec fn fresh_stream() -> StreamModel {
    StreamModel {
        max_epoch: 0,
        next_stream_lsn: 0,
        commit_stream_lsn: 0,
        consumed_stream_lsn: 0,
        last_entry_id: 0,
        tail: Seq::empty(),
        banned: false,
        last_ack_ns: 0,
    }
}

/// A stream of the table, or a fresh one if the table has none.
pub open spec fn stream_or_fresh(m: Map<u64, StreamModel>, id: u64) -> StreamModel {
    if m.contains_key(id) {
        m[id]
    } else {
        fresh_stream()
    }
}

/// The last `limit` items of a sequence.
pub open spec fn last_items<T>(s: Seq<T>, limit: nat) -> Seq<T> {
    if s.len() <= limit {
        s
    } else {
        s.skip(s.len() - limit)
    }
}

/// The larger of two numbers.
pub open spec fn max64(a: u64, b: u64) -> u64 {
    if a < b {
        b
    } else {
        a
    }
}

fn larger(a: u64, b: u64) -> (r: u64)
    ensures
        r == max64(a, b),
{
    if a < b {
        b
    } else {
        a
    }
}

/// A tail cache without the records at its front that lie below an LSN.
pub open spec fn unconsumed(tail: Seq<TailModel>, lsn: u64) -> Seq<TailModel>
    decreases tail.len(),
{
    if tail.len() > 0 && tail[0].stream_lsn < lsn {
        unconsumed(tail.skip(1), lsn)
    } else {
        tail
    }
}

/// The first cached record at an LSN.
pub open spec fn tail_at(tail: Seq<TailModel>, lsn: u64) -> Option<TailModel>
    decreases tail.len(),
{
    if tail.len() == 0 {
        None
    } else if tail[0].stream_lsn == lsn {
        Some(tail[0])
    } else {
        tail_at(tail.skip(1), lsn)
    }
}

/// The table after an append of `epoch` took the next LSN of a stream.
pub open spec fn after_allocate(m: Map<u64, StreamModel>, id: u64, epoch: u64) -> Map<
    u64,
    StreamModel,
> {
    let s = stream_or_fresh(m, id);
    m.insert(
        id,
        StreamModel { max_epoch: epoch, next_stream_lsn: (s.next_stream_lsn + 1) as u64, ..s },
    )
}

/// What asking for the next LSN of a stream gives: the LSN and the table after it was
/// taken, or the reason for which it is refused and the table as it was.
pub open spec fn allocation(m: Map<u64, StreamModel>, id: u64, epoch: u64) -> (
    Result<u64, EpochFenceError>,
    Map<u64, StreamModel>,
) {
    let s = stream_or_fresh(m, id);
    if epoch < s.max_epoch {
        (Err(EpochFenceError::Stale { current_epoch: s.max_epoch, request_epoch: epoch }), m)
    } else {
        (Ok(s.next_stream_lsn), after_allocate(m, id, epoch))
    }
}

/// Whether giving an LSN back leaves the stream as it was before it was taken:
/// it is the last one taken, and it is not committed.
pub open spec fn can_roll_back(m: Map<u64, StreamModel>, id: u64, lsn: u64) -> bool {
    &&& m.contains_key(id)
    &&& m[id].next_stream_lsn == (if lsn < u64::MAX {
        (lsn + 1) as u64
    } else {
        u64::MAX
    })
    &&& m[id].commit_stream_lsn <= lsn
}

/// The table after an LSN was given back.
pub open spec fn after_rollback(m: Map<u64, StreamModel>, id: u64, lsn: u64) -> Map<
    u64,
    StreamModel,
> {
    if can_roll_back(m, id, lsn) {
        m.insert(id, StreamModel { next_stream_lsn: lsn, ..m[id] })
    } else {
        m
    }
}

/// The table after a record of a stream was written.
pub open spec fn after_append(
    m: Map<u64, StreamModel>,
    limit: nat,
    id: u64,
    epoch: u64,
    record: TailModel,
) -> Map<u64, StreamModel> {
    let s = stream_or_fresh(m, id);
    m.insert(
        id,
        StreamModel {
            max_epoch: max64(s.max_epoch, epoch),
            last_entry_id: max64(s.last_entry_id, record.entry_id),
            next_stream_lsn: max64(s.next_stream_lsn, (record.stream_lsn + 1) as u64),
            tail: last_items(s.tail.push(record), limit),
            ..s
        },
    )
}

/// The table after a record of a stream was committed.
pub open spec fn after_commit(m: Map<u64, StreamModel>, id: u64, entry_id: u64, lsn: u64) -> Map<
    u64,
    StreamModel,
> {
    let s = stream_or_fresh(m, id);
    m.insert(
        id,
        StreamModel {
            last_entry_id: max64(s.last_entry_id, entry_id),
            commit_stream_lsn: max64(s.commit_stream_lsn, (lsn + 1) as u64),
            ..s
        },
    )
}

/// The table after a consumer acknowledged a stream up to an LSN.
pub open spec fn after_consume(m: Map<u64, StreamModel>, id: u64, lsn: u64) -> Map<
    u64,
    StreamModel,
> {
    let s = stream_or_fresh(m, id);
    let consumed = max64(s.consumed_stream_lsn, lsn);
    m.insert(
        id,
        StreamModel {
            consumed_stream_lsn: consumed,
            tail: unconsumed(s.tail, consumed),
            ..s
        },
    )
}

/// The table after a stream was acknowledged at a time.
pub open spec fn after_ack(m: Map<u64, StreamModel>, id: u64, now_ns: u64) -> Map<
    u64,
    StreamModel,
> {
    m.insert(id, StreamModel { last_ack_ns: now_ns, ..stream_or_fresh(m, id) })
}

/// A stream that was given up: its writes are refused, and all that it holds
/// counts as consumed.
pub open spec fn banned_stream(s: StreamModel) -> StreamModel {
    StreamModel {
        banned: true,
        consumed_stream_lsn: max64(s.consumed_stream_lsn, s.next_stream_lsn),
        ..s
    }
}

/// The table after a stream was given up.
pub open spec fn after_ban(m: Map<u64, StreamModel>, id: u64) -> Map<u64, StreamModel> {
    m.insert(id, banned_stream(stream_or_fresh(m, id)))
}

/// The table after streams were given up, one after the other.
pub open spec fn after_bans(m: Map<u64, StreamModel>, ids: Seq<u64>) -> Map<u64, StreamModel>
    decreases ids.len(),
{
    if ids.len() == 0 {
        m
    } else {
        after_ban(after_bans(m, ids.drop_last()), ids.last())
    }
}

/// A stream after watching its acknowledgements began at a time, or ended. One
/// that is watched already keeps its time.
pub open spec fn watched_stream(s: StreamModel, watch: bool, now_ns: u64) -> StreamModel {
    StreamModel {
        last_ack_ns: if !watch {
            0
        } else if s.last_ack_ns == 0 {
            now_ns
        } else {
            s.last_ack_ns
        },
        ..s
    }
}

/// The table after watching the acknowledgements of all streams began, or ended.
pub open spec fn after_watch(m: Map<u64, StreamModel>, watch: bool, now_ns: u64) -> Map<
    u64,
    StreamModel,
> {
    m.map_values(|s: StreamModel| watched_stream(s, watch, now_ns))
}

/// The table after a record of a stream was found in the log.
pub open spec fn after_recovery(
    m: Map<u64, StreamModel>,
    limit: nat,
    id: u64,
    epoch: u64,
    record: TailModel,
) -> Map<u64, StreamModel> {
    let s = after_append(m, limit, id, epoch, record)[id];
    m.insert(
        id,
        StreamModel {
            commit_stream_lsn: max64(s.commit_stream_lsn, (record.stream_lsn + 1) as u64),
            ..s
        },
    )
}

/// The positions of a stream.
pub open spec fn status_of(id: u64, s: StreamModel) -> StreamStatus {
    StreamStatus {
        stream_id: id,
        max_epoch: s.max_epoch,
        next_stream_lsn: s.next_stream_lsn,
        commit_stream_lsn: s.commit_stream_lsn,
        consumed_stream_lsn: s.consumed_stream_lsn,
        last_entry_id: s.last_entry_id,
    }
}

/// The streams that a list of positions names.
pub open spec fn status_ids(statuses: Seq<StreamStatus>) -> Seq<u64> {
    statuses.map_values(|s: StreamStatus| s.stream_id)
}

/// Whether `statuses` holds the positions of every stream, each once.
pub open spec fn lists_statuses(m: Map<u64, StreamModel>, statuses: Seq<StreamStatus>) -> bool {
    &&& keys::lists(status_ids(statuses), m.dom())
    &&& forall|i: int|
        0 <= i < statuses.len() ==> #[trigger] statuses[i] == status_of(
            statuses[i].stream_id,
            m[statuses[i].stream_id],
        )
}

/// The positions of one stream as a snapshot stores them.
pub open spec fn status_bytes(s: StreamStatus) -> Seq<u8> {
    be::be_bytes(s.stream_id as nat, 8) + be::be_bytes(s.max_epoch as nat, 8) + be::be_bytes(
        s.next_stream_lsn as nat,
        8,
    ) + be::be_bytes(s.commit_stream_lsn as nat, 8) + be::be_bytes(
        s.consumed_stream_lsn as nat,
        8,
    ) + be::be_bytes(s.last_entry_id as nat, 8)
}

/// The positions of several streams, one after the other.
pub open spec fn status_rows(statuses: Seq<StreamStatus>) -> Seq<u8>
    decreases statuses.len(),
{
    if statuses.len() == 0 {
        Seq::empty()
    } else {
        status_rows(statuses.drop_last()) + status_bytes(statuses.last())
    }
}

/// A snapshot: how many streams it holds, and their positions.
pub open spec fn snapshot_bytes(statuses: Seq<StreamStatus>) -> Seq<u8> {
    be::be_bytes(statuses.len(), 4) + status_rows(statuses)
}

/// The stream that row `i` of a snapshot names.
pub open spec fn row_id(buf: Seq<u8>, i: int) -> u64 {
    be::field64(buf, 4 + 48 * i)
}

/// What row `i` of a snapshot says of its stream.
pub open spec fn row_stream(buf: Seq<u8>, i: int) -> StreamModel {
    StreamModel {
        max_epoch: be::field64(buf, 4 + 48 * i + 8),
        next_stream_lsn: be::field64(buf, 4 + 48 * i + 16),
        commit_stream_lsn: be::field64(buf, 4 + 48 * i + 24),
        consumed_stream_lsn: be::field64(buf, 4 + 48 * i + 32),
        last_entry_id: be::field64(buf, 4 + 48 * i + 40),
        tail: Seq::empty(),
        banned: false,
        last_ack_ns: 0,
    }
}

/// The streams of the first `n` rows of a snapshot; of two rows with one
/// stream the later one counts.
pub open spec fn rows_read(buf: Seq<u8>, n: nat) -> Map<u64, StreamModel>
    decreases n,
{
    if n == 0 {
        Map::empty()
    } else {
        rows_read(buf, (n - 1) as nat).insert(row_id(buf, n - 1), row_stream(buf, n - 1))
    }
}

/// What decoding a snapshot gives.
pub open spec fn decoded_snapshot(buf: Seq<u8>) -> Result<Map<u64, StreamModel>, SnapshotError> {
    if buf.len() == 0 {
        Ok(Map::empty())
    } else if buf.len() < 4 {
        Err(SnapshotError::TooSmall)
    } else if buf.len() < 4 + 48 * be::field32(buf, 0) {
        Err(SnapshotError::Truncated)
    } else {
        Ok(rows_read(buf, be::field32(buf, 0) as nat))
    }
}

impl StreamReplicaState {
    spec fn model(self) -> StreamModel {
        StreamModel {
            max_epoch: self.max_epoch,
            next_stream_lsn: self.next_stream_lsn,
            commit_stream_lsn: self.commit_stream_lsn,
            consumed_stream_lsn: self.consumed_stream_lsn,
            last_entry_id: self.last_entry_id,
            tail: self.tail_cache@.map_values(|r: TailRecord| r@),
            banned: self.banned,
            last_ack_ns: self.last_ack_ns,
        }
    }

    fn new(stream_id: StreamId) -> (s: Self)
        ensures
            s.stream_id == stream_id,
            s.model() == fresh_stream(),
    {
        let s = Self {
            stream_id,
            max_epoch: 0,
            next_stream_lsn: 0,
            commit_stream_lsn: 0,
            consumed_stream_lsn: 0,
            last_entry_id: 0,
            tail_cache: VecDeque::new(),
            banned: false,
            last_ack_ns: 0,
        };
        assert(s.model().tail =~= fresh_stream().tail);
        s
    }

    /// Adds a record to the tail cache and drops the oldest ones above `limit`.
    fn push_tail(&mut self, limit: usize, record: TailRecord)
        ensures
            final(self).stream_id == old(self).stream_id,
            final(self).model() == (StreamModel {
                tail: last_items(old(self).model().tail.push(record@), limit as nat),
                ..old(self).model()
            }),
            final(self).tail_cache@.len() <= limit,
    {
        self.tail_cache.push_back(record);
        let ghost all = self.tail_cache@;
        while self.tail_cache.len() > limit
            invariant
                self.stream_id == old(self).stream_id,
                self.max_epoch == old(self).max_epoch,
                self.next_stream_lsn == old(self).next_stream_lsn,
                self.commit_stream_lsn == old(self).commit_stream_lsn,
                self.consumed_stream_lsn == old(self).consumed_stream_lsn,
                self.last_entry_id == old(self).last_entry_id,
                self.banned == old(self).banned,
                self.last_ack_ns == old(self).last_ack_ns,
                self.tail_cache@.len() <= all.len(),
                self.tail_cache@ == all.skip(all.len() - self.tail_cache@.len()),
                all.len() > limit ==> self.tail_cache@.len() >= limit,
                all.len() <= limit ==> self.tail_cache@.len() == all.len(),
            decreases self.tail_cache@.len(),
        {
            let _ = self.tail_cache.pop_front();
            assert(self.tail_cache@ =~= all.skip(all.len() - self.tail_cache@.len()));
        }
        proof {
            assert(all.map_values(|r: TailRecord| r@) =~= old(self).model().tail.push(record@));
            assert(self.model().tail =~= last_items(
                old(self).model().tail.push(record@),
                limit as nat,
            ));
        }
    }

    fn status(&self) -> (s: StreamStatus)
        ensures
            s == status_of(self.stream_id, self.model()),
    {
        StreamStatus {
            stream_id: self.stream_id,
            max_epoch: self.max_epoch,
            next_stream_lsn: self.next_stream_lsn,
            commit_stream_lsn: self.commit_stream_lsn,
            consumed_stream_lsn: self.consumed_stream_lsn,
            last_entry_id: self.last_entry_id,
        }
    }
}

/// What a replica knows of its streams, by stream id.
pub struct StreamStateTable {
    streams: HashMap<StreamId, StreamReplicaState>,
    tail_cache_limit: usize,
}

impl View for StreamStateTable {
    type V = Map<u64, StreamModel>;

    closed spec fn view(&self) -> Map<u64, StreamModel> {
        self.streams@.map_values(|s: StreamReplicaState| s.model())
    }
}

impl Default for StreamStateTable {
    fn default() -> (table: Self)
        ensures
            table.wf(),
            table@ == Map::<u64, StreamModel>::empty(),
            table.limit() == 0,
    {
        Self::new(0)
    }
}

impl StreamStateTable {
    /// How many records the tail cache of a stream holds at most.
    pub closed spec fn limit(&self) -> usize {
        self.tail_cache_limit
    }

    /// Every stream is filed under its own id, and no tail cache is above the limit.
    pub closed spec fn wf(&self) -> bool {
        forall|id: u64| #[trigger]
            self.streams@.contains_key(id) ==> self.streams@[id].stream_id == id
                && self.streams@[id].tail_cache@.len() <= self.tail_cache_limit
    }

    /// No tail cache is above the limit.
    pub proof fn law_tail_is_bounded(&self, id: u64)
        requires
            self.wf(),
            self@.contains_key(id),
        ensures
            self@[id].tail.len() <= self.limit(),
    {
    }

    /// A table without streams.
    pub fn new(tail_cache_limit: usize) -> (table: Self)
        ensures
            table.wf(),
            table@ == Map::<u64, StreamModel>::empty(),
            table.limit() == tail_cache_limit,
    {
        broadcast use vstd::std_specs::hash::group_hash_axioms;

        let table = Self { streams: HashMap::new(), tail_cache_limit };
        assert(table@ =~= Map::<u64, StreamModel>::empty());
        table
    }

    /// Takes the state of a stream out of the table, fresh if it is not there.
    fn take_stream(&mut self, stream_id: StreamId) -> (state: StreamReplicaState)
        requires
            old(self).wf(),
        ensures
            final(self).wf(),
            final(self).limit() == old(self).limit(),
            final(self)@ == old(self)@.remove(stream_id),
            state.stream_id == stream_id,
            state.model() == stream_or_fresh(old(self)@, stream_id),
            state.tail_cache@.len() <= old(self).limit(),
    {
        broadcast use vstd::std_specs::hash::group_hash_axioms;

        let r = self.streams.remove(&stream_id);
        assert(self@ =~= old(self)@.remove(stream_id));
        match r {
            Some(state) => state,
            None => {
                let state = StreamReplicaState::new(stream_id);
                assert(state.model().tail.len() == state.tail_cache@.len());
                state
            },
        }
    }

    /// Puts the state of a stream into the table.
    fn put_stream(&mut self, state: StreamReplicaState)
        requires
            old(self).wf(),
            state.tail_cache@.len() <= old(self).limit(),
        ensures
            final(self).wf(),
            final(self).limit() == old(self).limit(),
            final(self)@ == old(self)@.insert(state.stream_id, state.model()),
    {
        broadcast use vstd::std_specs::hash::group_hash_axioms;

        let stream_id: u64 = state.stream_id;
        self.streams.insert(stream_id, state);
        assert(self@ =~= old(self)@.insert(stream_id, state.model()));
    }

    /// Takes the next LSN of a stream for an append of `epoch`. An epoch below
    /// the highest one seen is refused, and the table stays as it is.
    pub fn allocate_append(&mut self, stream_id: StreamId, epoch: u64) -> (r: Result<
        u64,
        EpochFenceError,
    >)
        requires
            old(self).wf(),
            epoch >= stream_or_fresh(old(self)@, stream_id).max_epoch ==> stream_or_fresh(
                old(self)@,
                stream_id,
            ).next_stream_lsn < u64::MAX,
        ensures
            final(self).wf(),
            final(self).limit() == old(self).limit(),
            epoch < stream_or_fresh(old(self)@, stream_id).max_epoch ==> {
                &&& r == Err::<u64, EpochFenceError>(
                    EpochFenceError::Stale {
                        current_epoch: old(self)@[stream_id].max_epoch,
                        request_epoch: epoch,
                    },
                )
                &&& final(self)@ == old(self)@
            },
            epoch >= stream_or_fresh(old(self)@, stream_id).max_epoch ==> {
                &&& r == Ok::<u64, EpochFenceError>(
                    stream_or_fresh(old(self)@, stream_id).next_stream_lsn,
                )
                &&& final(self)@ == after_allocate(old(self)@, stream_id, epoch)
            },
            (r, final(self)@) == allocation(old(self)@, stream_id, epoch),
    {
        let mut state = self.take_stream(stream_id);
        let stream_lsn: u64 = state.next_stream_lsn;
        if epoch < state.max_epoch {
            let current_epoch: u64 = state.max_epoch;
            self.put_stream(state);
            assert(self@ =~= old(self)@);
            return Err(EpochFenceError::Stale { current_epoch, request_epoch: epoch });
        }
        state.max_epoch = epoch;
        state.next_stream_lsn = state.next_stream_lsn + 1;
        self.put_stream(state);
        assert(self@ =~= after_allocate(old(self)@, stream_id, epoch));
        Ok(stream_lsn)
    }

    /// Gives the LSN of an append that did not commit back, if it is the last
    /// one that was taken.
    pub fn rollback_uncommitted_append(&mut self, stream_id: StreamId, stream_lsn: u64)
        requires
            old(self).wf(),
        ensures
            final(self).wf(),
            final(self).limit() == old(self).limit(),
            final(self)@ == after_rollback(old(self)@, stream_id, stream_lsn),
    {
        broadcast use vstd::std_specs::hash::group_hash_axioms;

        if self.streams.contains_key(&stream_id) {
            let mut state = self.take_stream(stream_id);
            let expected_next: u64 = if stream_lsn < u64::MAX {
                stream_lsn + 1
            } else {
                u64::MAX
            };
            if state.next_stream_lsn == expected_next && state.commit_stream_lsn <= stream_lsn {
                state.next_stream_lsn = stream_lsn;
            }
            self.put_stream(state);
            assert(self@ =~= after_rollback(old(self)@, stream_id, stream_lsn));
        }
    }

    /// Notes that a record of a stream was written.
    pub fn mark_appended(
        &mut self,
        stream_id: StreamId,
        epoch: u64,
        entry_id: u64,
        stream_lsn: u64,
        payload: Bytes,
    )
        requires
            old(self).wf(),
            stream_lsn < u64::MAX,
        ensures
            final(self).wf(),
            final(self).limit() == old(self).limit(),
            final(self)@ == after_append(
                old(self)@,
                old(self).limit() as nat,
                stream_id,
                epoch,
                (TailModel { stream_lsn, entry_id, payload: buffer::bytes_contents(payload) }),
            ),
    {
        let mut state = self.take_stream(stream_id);
        state.max_epoch = larger(state.max_epoch, epoch);
        state.last_entry_id = larger(state.last_entry_id, entry_id);
        state.next_stream_lsn = larger(state.next_stream_lsn, stream_lsn + 1);
        state.push_tail(self.tail_cache_limit, TailRecord { stream_lsn, entry_id, payload });
        self.put_stream(state);
        assert(self@ =~= after_append(
            old(self)@,
            old(self).limit() as nat,
            stream_id,
            epoch,
            TailModel { stream_lsn, entry_id, payload: buffer::bytes_contents(payload) },
        ));
    }

    /// Notes that a record of a stream is committed.
    pub fn mark_committed(&mut self, stream_id: StreamId, entry_id: u64, stream_lsn: u64)
        requires
            old(self).wf(),
            stream_lsn < u64::MAX,
        ensures
            final(self).wf(),
            final(self).limit() == old(self).limit(),
            final(self)@ == after_commit(old(self)@, stream_id, entry_id, stream_lsn),
    {
        let mut state = self.take_stream(stream_id);
        state.last_entry_id = larger(state.last_entry_id, entry_id);
        state.commit_stream_lsn = larger(state.commit_stream_lsn, stream_lsn + 1);
        self.put_stream(state);
        assert(self@ =~= after_commit(old(self)@, stream_id, entry_id, stream_lsn));
    }

    /// Notes that a stream was consumed up to an LSN and drops what was
    /// consumed from the front of the tail cache. Returns how far the stream is
    /// consumed.
    pub fn advance_consumed(&mut self, stream_id: StreamId, consumed_stream_lsn: u64) -> (r: u64)
        requires
            old(self).wf(),
        ensures
            final(self).wf(),
            final(self).limit() == old(self).limit(),
            r == max64(
                stream_or_fresh(old(self)@, stream_id).consumed_stream_lsn,
                consumed_stream_lsn,
            ),
            final(self)@ == after_consume(old(self)@, stream_id, consumed_stream_lsn),
    {
        let mut state = self.take_stream(stream_id);
        let consumed: u64 = larger(state.consumed_stream_lsn, consumed_stream_lsn);
        state.consumed_stream_lsn = consumed;
        let ghost start = state;
        while state.tail_cache.len() > 0 && state.tail_cache[0].stream_lsn < consumed
            invariant
                state.stream_id == start.stream_id,
                state.max_epoch == start.max_epoch,
                state.next_stream_lsn == start.next_stream_lsn,
                state.commit_stream_lsn == start.commit_stream_lsn,
                state.consumed_stream_lsn == start.consumed_stream_lsn,
                state.last_entry_id == start.last_entry_id,
                state.banned == start.banned,
                state.last_ack_ns == start.last_ack_ns,
                state.tail_cache@.len() <= start.tail_cache@.len(),
                unconsumed(state.model().tail, consumed) == unconsumed(
                    start.model().tail,
                    consumed,
                ),
            decreases state.tail_cache@.len(),
        {
            let ghost before = state.model().tail;
            let _ = state.tail_cache.pop_front();
            assert(state.model().tail =~= before.skip(1));
        }
        self.put_stream(state);
        assert(self@ =~= after_consume(old(self)@, stream_id, consumed_stream_lsn));
        consumed
    }

    /// Notes that a stream was acknowledged at a time.
    pub fn note_ack(&mut self, stream_id: StreamId, now_ns: u64)
        requires
            old(self).wf(),
        ensures
            final(self).wf(),
            final(self).limit() == old(self).limit(),
            final(self)@ == after_ack(old(self)@, stream_id, now_ns),
    {
        let mut state = self.take_stream(stream_id);
        state.last_ack_ns = now_ns;
        self.put_stream(state);
        assert(self@ =~= after_ack(old(self)@, stream_id, now_ns));
    }

    /// Gives a stream up: its writes are refused from now on, and all that it
    /// holds counts as consumed.
    pub fn ban_stream(&mut self, stream_id: StreamId)
        requires
            old(self).wf(),
        ensures
            final(self).wf(),
            final(self).limit() == old(self).limit(),
            final(self)@ == after_ban(old(self)@, stream_id),
    {
        let mut state = self.take_stream(stream_id);
        state.banned = true;
        state.consumed_stream_lsn = larger(state.consumed_stream_lsn, state.next_stream_lsn);
        self.put_stream(state);
        assert(self@ =~= after_ban(old(self)@, stream_id));
    }

    /// Begins to watch the acknowledgements of all streams at a time, or ends it.
    pub fn watch_acks(&mut self, watch: bool, now_ns: u64)
        requires
            old(self).wf(),
        ensures
            final(self).wf(),
            final(self).limit() == old(self).limit(),
            final(self)@ == after_watch(old(self)@, watch, now_ns),
    {
        broadcast use vstd::std_specs::hash::group_hash_axioms;

        let ids: Vec<u64> = hash_keys(&self.streams);
        let ghost m = self@;
        let mut i: usize = 0;
        assert(m.dom() =~= self.streams@.dom());
        while i < ids.len()
            invariant
                self.wf(),
                self.limit() == old(self).limit(),
                i <= ids@.len(),
                keys::lists(ids@, m.dom()),
                self@.dom() == m.dom(),
                forall|j: int|
                    0 <= j < i ==> self@[#[trigger] ids@[j]] == watched_stream(
                        m[ids@[j]],
                        watch,
                        now_ns,
                    ),
                forall|j: int|
                    i <= j < ids@.len() ==> self@[#[trigger] ids@[j]] == m[ids@[j]],
            decreases ids@.len() - i,
        {
            let id: u64 = ids[i];
            assert(ids@.to_set().contains(ids@[i as int]));
            let ghost before = self@;
            let mut state = self.take_stream(id);
            if !watch {
                state.last_ack_ns = 0;
            } else if state.last_ack_ns == 0 {
                state.last_ack_ns = now_ns;
            }
            self.put_stream(state);
            assert(self@ =~= before.insert(id, watched_stream(m[id], watch, now_ns)));
            assert(self@.dom() =~= m.dom());
            i = i + 1;
        }
        assert(self@ =~= after_watch(m, watch, now_ns)) by {
            assert forall|id: u64| #[trigger] m.contains_key(id) implies self@[id]
                == watched_stream(m[id], watch, now_ns) by {
                assert(ids@.to_set().contains(id));
                let j = choose|j: int| 0 <= j < ids@.len() && ids@[j] == id;
                assert(self@[ids@[j]] == watched_stream(m[ids@[j]], watch, now_ns));
            }
        }
    }

    /// Whether a stream was given up.
    pub fn is_banned(&self, stream_id: StreamId) -> (r: bool)
        ensures
            r == stream_or_fresh(self@, stream_id).banned,
    {
        broadcast use vstd::std_specs::hash::group_hash_axioms;

        match self.streams.get(&stream_id) {
            Some(state) => state.banned,
            None => false,
        }
    }

    /// When a stream was last acknowledged, or when that began to be watched.
    pub fn last_ack_ns(&self, stream_id: StreamId) -> (t: u64)
        ensures
            t == stream_or_fresh(self@, stream_id).last_ack_ns,
    {
        broadcast use vstd::std_specs::hash::group_hash_axioms;

        match self.streams.get(&stream_id) {
            Some(state) => state.last_ack_ns,
            None => 0,
        }
    }

    /// Reads a record of a stream from the tail cache.
    pub fn read_from_tail(&self, stream_id: StreamId, stream_lsn: u64) -> (r: Option<TailRecord>)
        requires
            self.wf(),
        ensures
            match r {
                Some(record) => tail_at(stream_or_fresh(self@, stream_id).tail, stream_lsn)
                    == Some(record@),
                None => tail_at(stream_or_fresh(self@, stream_id).tail, stream_lsn) is None,
            },
    {
        broadcast use vstd::std_specs::hash::group_hash_axioms;

        match self.streams.get(&stream_id) {
            Some(state) => {
                let ghost tail = state.model().tail;
                let mut i: usize = 0;
                assert(tail.skip(0) =~= tail);
                while i < state.tail_cache.len()
                    invariant
                        i <= state.tail_cache@.len(),
                        tail == state.model().tail,
                        tail == stream_or_fresh(self@, stream_id).tail,
                        tail_at(tail.skip(i as int), stream_lsn) == tail_at(tail, stream_lsn),
                    decreases state.tail_cache@.len() - i,
                {
                    let record: &TailRecord = &state.tail_cache[i];
                    assert(tail.skip(i as int)[0] == record@);
                    if record.stream_lsn == stream_lsn {
                        let found = TailRecord {
                            stream_lsn: record.stream_lsn,
                            entry_id: record.entry_id,
                            payload: record.payload.clone(),
                        };
                        assert(found@ == record@);
                        return Some(found);
                    }
                    assert(tail.skip(i as int).skip(1) =~= tail.skip(i + 1));
                    i = i + 1;
                }
                None
            },
            None => None,
        }
    }

    /// Notes a record that was found in the log.
    pub fn observe_recovered(
        &mut self,
        stream_id: StreamId,
        epoch: u64,
        entry_id: u64,
        stream_lsn: u64,
        payload: Bytes,
    )
        requires
            old(self).wf(),
            stream_lsn < u64::MAX,
        ensures
            final(self).wf(),
            final(self).limit() == old(self).limit(),
            final(self)@ == after_recovery(
                old(self)@,
                old(self).limit() as nat,
                stream_id,
                epoch,
                (TailModel { stream_lsn, entry_id, payload: buffer::bytes_contents(payload) }),
            ),
    {
        let mut state = self.take_stream(stream_id);
        state.max_epoch = larger(state.max_epoch, epoch);
        state.last_entry_id = larger(state.last_entry_id, entry_id);
        state.next_stream_lsn = larger(state.next_stream_lsn, stream_lsn + 1);
        state.commit_stream_lsn = larger(state.commit_stream_lsn, stream_lsn + 1);
        state.push_tail(self.tail_cache_limit, TailRecord { stream_lsn, entry_id, payload });
        self.put_stream(state);
        assert(self@ =~= after_recovery(
            old(self)@,
            old(self).limit() as nat,
            stream_id,
            epoch,
            TailModel { stream_lsn, entry_id, payload: buffer::bytes_contents(payload) },
        ));
    }

    /// The positions of a stream.
    pub fn status(&self, stream_id: StreamId) -> (r: Option<StreamStatus>)
        requires
            self.wf(),
        ensures
            r == (if self@.contains_key(stream_id) {
                Some(status_of(stream_id, self@[stream_id]))
            } else {
                None
            }),
    {
        broadcast use vstd::std_specs::hash::group_hash_axioms;

        match self.streams.get(&stream_id) {
            Some(state) => Some(state.status()),
            None => None,
        }
    }

    /// The highest epoch of a stream.
    pub fn current_epoch(&self, stream_id: StreamId) -> (r: u64)
        ensures
            r == stream_or_fresh(self@, stream_id).max_epoch,
    {
        broadcast use vstd::std_specs::hash::group_hash_axioms;

        match self.streams.get(&stream_id) {
            Some(state) => state.max_epoch,
            None => 0,
        }
    }

    /// The positions of all streams, in no particular order.
    pub fn all_statuses(&self) -> (statuses: Vec<StreamStatus>)
        requires
            self.wf(),
        ensures
            lists_statuses(self@, statuses@),
    {
        broadcast use vstd::std_specs::hash::group_hash_axioms;

        let ids: Vec<u64> = hash_keys(&self.streams);
        let mut statuses: Vec<StreamStatus> = Vec::new();
        let mut i: usize = 0;
        while i < ids.len()
            invariant
                self.wf(),
                i <= ids@.len(),
                keys::lists(ids@, self.streams@.dom()),
                statuses@.len() == i,
                forall|j: int|
                    0 <= j < i ==> #[trigger] statuses@[j] == status_of(ids@[j], self@[ids@[j]]),
            decreases ids@.len() - i,
        {
            assert(ids@.to_set().contains(ids@[i as int]));
            match self.streams.get(&ids[i]) {
                Some(state) => {
                    statuses.push(state.status());
                },
                None => {},
            }
            i = i + 1;
        }
        assert(status_ids(statuses@) =~= ids@);
        assert(self@.dom() =~= self.streams@.dom());
        statuses
    }

    /// Encodes the positions of all streams.
    pub fn encode_snapshot(&self) -> (buf: Vec<u8>)
        requires
            self.wf(),
        ensures
            exists|statuses: Seq<StreamStatus>| #[trigger]
                lists_statuses(self@, statuses) && buf@ == snapshot_bytes(statuses),
    {
        let statuses: Vec<StreamStatus> = self.all_statuses();
        let mut buf: Vec<u8> = Vec::new();
        put_be(&mut buf, statuses.len() as u64, 4);
        let mut i: usize = 0;
        assert(statuses@.take(0) =~= Seq::empty());
        assert(buf@ =~= be::be_bytes(statuses@.len(), 4) + status_rows(statuses@.take(0)));
        while i < statuses.len()
            invariant
                i <= statuses@.len(),
                buf@ == be::be_bytes(statuses@.len(), 4) + status_rows(statuses@.take(i as int)),
            decreases statuses@.len() - i,
        {
            let status: StreamStatus = statuses[i];
            let ghost before = buf@;
            put_be(&mut buf, status.stream_id, 8);
            put_be(&mut buf, status.max_epoch, 8);
            put_be(&mut buf, status.next_stream_lsn, 8);
            put_be(&mut buf, status.commit_stream_lsn, 8);
            put_be(&mut buf, status.consumed_stream_lsn, 8);
            put_be(&mut buf, status.last_entry_id, 8);
            proof {
                let next = statuses@.take(i + 1);
                assert(next.drop_last() =~= statuses@.take(i as int));
                assert(next.last() == status);
                assert(buf@ =~= before + status_bytes(status));
                assert(buf@ =~= be::be_bytes(statuses@.len(), 4) + status_rows(next));
            }
            i = i + 1;
        }
        assert(statuses@.take(i as int) =~= statuses@);
        buf
    }

    /// Decodes the positions of all streams into a table with empty tail caches.
    pub fn decode_snapshot(tail_cache_limit: usize, buf: &[u8]) -> (r: Result<Self, SnapshotError>)
        ensures
            match r {
                Ok(table) => {
                    &&& table.wf()
                    &&& table.limit() == tail_cache_limit
                    &&& decoded_snapshot(buf@) == Ok::<Map<u64, StreamModel>, SnapshotError>(table@)
                },
                Err(e) => decoded_snapshot(buf@) == Err::<Map<u64, StreamModel>, SnapshotError>(e),
            },
    {
        let mut table = Self::new(tail_cache_limit);
        if buf.len() == 0 {
            return Ok(table);
        }
        if buf.len() < 4 {
            return Err(SnapshotError::TooSmall);
        }
        let count: u32 = get_u32(buf, 0);
        let mut at: usize = 4;
        let mut i: u32 = 0;
        while i < count
            invariant
                i <= count,
                count == be::field32(buf@, 0),
                buf@.len() >= 4,
                at == 4 + 48 * i,
                at <= buf.len(),
                table.wf(),
                table.limit() == tail_cache_limit,
                table@ == rows_read(buf@, i as nat),
            decreases count - i,
        {
            if buf.len() - at < 48 {
                return Err(SnapshotError::Truncated);
            }
            let state = StreamReplicaState {
                stream_id: get_u64(buf, at),
                max_epoch: get_u64(buf, at + 8),
                next_stream_lsn: get_u64(buf, at + 16),
                commit_stream_lsn: get_u64(buf, at + 24),
                consumed_stream_lsn: get_u64(buf, at + 32),
                last_entry_id: get_u64(buf, at + 40),
                tail_cache: VecDeque::new(),
                banned: false,
                last_ack_ns: 0,
            };
            assert(state.model().tail =~= Seq::empty());
            table.put_stream(state);
            at = at + 48;
            i = i + 1;
        }
        Ok(table)
    }

    /// The highest entry id of all streams.
    pub fn max_entry_id(&self) -> (r: Option<u64>)
        ensures
            r is None <==> self@.is_empty(),
            r matches Some(m) ==> {
                &&& exists|id: u64| #[trigger] self@.contains_key(id) && self@[id].last_entry_id == m
                &&& forall|id: u64| #[trigger]
                    self@.contains_key(id) ==> self@[id].last_entry_id <= m
            },
    {
        broadcast use vstd::std_specs::hash::group_hash_axioms;

        let ids: Vec<u64> = hash_keys(&self.streams);
        let mut best: Option<u64> = None;
        let mut i: usize = 0;
        while i < ids.len()
            invariant
                i <= ids@.len(),
                keys::lists(ids@, self.streams@.dom()),
                best is None <==> i == 0,
                best matches Some(m) ==> {
                    &&& exists|id: u64| #[trigger]
                        self@.contains_key(id) && self@[id].last_entry_id == m
                    &&& forall|j: int| 0 <= j < i ==> self@[#[trigger] ids@[j]].last_entry_id <= m
                },
            decreases ids@.len() - i,
        {
            assert(ids@.to_set().contains(ids@[i as int]));
            match self.streams.get(&ids[i]) {
                Some(state) => {
                    assert(self@.contains_key(ids@[i as int]));
                    best = match best {
                        Some(m) => Some(larger(m, state.last_entry_id)),
                        None => Some(state.last_entry_id),
                    };
                },
                None => {},
            }
            i = i + 1;
        }
        proof {
            assert forall|id: u64| #[trigger] self@.contains_key(id) implies ids@.contains(id) by {
                assert(ids@.to_set().contains(id));
            }
            if i == 0 {
                assert(self@.dom() =~= Set::empty());
            }
        }
        best
    }

    /// The number of streams.
    pub fn len(&self) -> (n: usize)
        ensures
            n == self@.len(),
    {
        broadcast use vstd::std_specs::hash::group_hash_axioms;

        assert(self@.dom() =~= self.streams@.dom());
        self.streams.len()
    }
}

/// Two appends of one stream in a row take consecutive LSNs.
pub proof fn law_appends_take_consecutive_lsns(m: Map<u64, StreamModel>, id: u64, epoch: u64)
    requires
        stream_or_fresh(m, id).next_stream_lsn < u64::MAX,
    ensures
        stream_or_fresh(after_allocate(m, id, epoch), id).next_stream_lsn == stream_or_fresh(
            m,
            id,
        ).next_stream_lsn + 1,
{
}

/// Giving back the LSN that was just taken restores the positions of the
/// stream; the epoch that took it stays the highest one seen.
pub proof fn law_rollback_undoes_allocation(m: Map<u64, StreamModel>, id: u64, epoch: u64)
    requires
        stream_or_fresh(m, id).next_stream_lsn < u64::MAX,
        stream_or_fresh(m, id).commit_stream_lsn <= stream_or_fresh(m, id).next_stream_lsn,
    ensures
        after_rollback(
            after_allocate(m, id, epoch),
            id,
            stream_or_fresh(m, id).next_stream_lsn,
        ) == m.insert(id, (StreamModel { max_epoch: epoch, ..stream_or_fresh(m, id) })),
{
    assert(after_rollback(
        after_allocate(m, id, epoch),
        id,
        stream_or_fresh(m, id).next_stream_lsn,
    ) =~= m.insert(id, StreamModel { max_epoch: epoch, ..stream_or_fresh(m, id) }));
}

/// Whether going from `a` to `b` never takes an epoch, a commit or consumed
/// position or an entry id back, in any stream.
pub open spec fn never_goes_back(a: Map<u64, StreamModel>, b: Map<u64, StreamModel>) -> bool {
    forall|id: u64|
        {
            let s = stream_or_fresh(a, id);
            let t = #[trigger] stream_or_fresh(b, id);
            &&& s.max_epoch <= t.max_epoch
            &&& s.commit_stream_lsn <= t.commit_stream_lsn
            &&& s.consumed_stream_lsn <= t.consumed_stream_lsn
            &&& s.last_entry_id <= t.last_entry_id
        }
}

/// No operation takes an epoch, a commit or consumed position or an entry id
/// back; an append does so only if its epoch is below the highest one seen,
/// and it is refused then.
pub proof fn law_positions_never_go_back(
    m: Map<u64, StreamModel>,
    limit: nat,
    id: u64,
    epoch: u64,
    lsn: u64,
    record: TailModel,
)
    ensures
        epoch >= stream_or_fresh(m, id).max_epoch ==> never_goes_back(
            m,
            after_allocate(m, id, epoch),
        ),
        never_goes_back(m, after_rollback(m, id, lsn)),
        never_goes_back(m, after_append(m, limit, id, epoch, record)),
        never_goes_back(m, after_commit(m, id, record.entry_id, lsn)),
        never_goes_back(m, after_consume(m, id, lsn)),
        never_goes_back(m, after_ban(m, id)),
        never_goes_back(m, after_recovery(m, limit, id, epoch, record)),
{
}

/// Whether no stream is committed beyond its next LSN.
pub open spec fn commits_in_bounds(m: Map<u64, StreamModel>) -> bool {
    forall|id: u64| #[trigger]
        m.contains_key(id) ==> m[id].commit_stream_lsn <= m[id].next_stream_lsn
}

/// No operation commits a stream beyond its next LSN, if what is committed was
/// appended before. In particular a rollback never gives a committed LSN back.
pub proof fn law_commits_stay_in_bounds(
    m: Map<u64, StreamModel>,
    limit: nat,
    id: u64,
    epoch: u64,
    lsn: u64,
    record: TailModel,
)
    requires
        commits_in_bounds(m),
        record.stream_lsn < u64::MAX,
    ensures
        stream_or_fresh(m, id).next_stream_lsn < u64::MAX ==> commits_in_bounds(
            after_allocate(m, id, epoch),
        ),
        commits_in_bounds(after_rollback(m, id, lsn)),
        commits_in_bounds(after_append(m, limit, id, epoch, record)),
        lsn < stream_or_fresh(m, id).next_stream_lsn ==> commits_in_bounds(
            after_commit(m, id, record.entry_id, lsn),
        ),
        commits_in_bounds(after_consume(m, id, lsn)),
        commits_in_bounds(after_ban(m, id)),
        commits_in_bounds(after_recovery(m, limit, id, epoch, record)),
        commits_in_bounds(
            after_commit(
                after_append(m, limit, id, epoch, record),
                id,
                record.entry_id,
                record.stream_lsn,
            ),
        ),
{
}

/// An operation on one stream leaves every other stream as it is.
pub proof fn law_streams_are_independent(
    m: Map<u64, StreamModel>,
    limit: nat,
    id: u64,
    epoch: u64,
    lsn: u64,
    record: TailModel,
    other: u64,
)
    requires
        other != id,
    ensures
        after_allocate(m, id, epoch).get(other) == m.get(other),
        after_rollback(m, id, lsn).get(other) == m.get(other),
        after_append(m, limit, id, epoch, record).get(other) == m.get(other),
        after_commit(m, id, record.entry_id, lsn).get(other) == m.get(other),
        after_consume(m, id, lsn).get(other) == m.get(other),
        after_ack(m, id, lsn).get(other) == m.get(other),
        after_ban(m, id).get(other) == m.get(other),
        after_recovery(m, limit, id, epoch, record).get(other) == m.get(other),
{
}

/// A record found in the log leaves the table as its append and its commit did.
pub proof fn law_recovery_repeats_append_and_commit(
    m: Map<u64, StreamModel>,
    limit: nat,
    id: u64,
    epoch: u64,
    record: TailModel,
)
    ensures
        after_recovery(m, limit, id, epoch, record) == after_commit(
            after_append(m, limit, id, epoch, record),
            id,
            record.entry_id,
            record.stream_lsn,
        ),
{
    assert(after_recovery(m, limit, id, epoch, record) =~= after_commit(
        after_append(m, limit, id, epoch, record),
        id,
        record.entry_id,
        record.stream_lsn,
    ));
}

proof fn lemma_tail_at_push(tail: Seq<TailModel>, record: TailModel)
    requires
        tail_at(tail, record.stream_lsn) is None,
    ensures
        tail_at(tail.push(record), record.stream_lsn) == Some(record),
    decreases tail.len(),
{
    if tail.len() > 0 {
        lemma_tail_at_push(tail.skip(1), record);
        assert(tail.push(record).skip(1) =~= tail.skip(1).push(record));
    }
}

proof fn lemma_tail_at_skip(tail: Seq<TailModel>, n: int, lsn: u64)
    requires
        0 <= n <= tail.len(),
        tail_at(tail, lsn) is None,
    ensures
        tail_at(tail.skip(n), lsn) is None,
    decreases n,
{
    if n > 0 {
        lemma_tail_at_skip(tail.skip(1), n - 1, lsn);
        assert(tail.skip(1).skip(n - 1) =~= tail.skip(n));
    } else {
        assert(tail.skip(0) =~= tail);
    }
}

/// The tail cache gives the record back that was just appended, if it may hold
/// one at all and held none at that LSN.
pub proof fn law_append_is_read_back(
    m: Map<u64, StreamModel>,
    limit: nat,
    id: u64,
    epoch: u64,
    record: TailModel,
)
    requires
        limit > 0,
        tail_at(stream_or_fresh(m, id).tail, record.stream_lsn) is None,
    ensures
        tail_at(
            stream_or_fresh(after_append(m, limit, id, epoch, record), id).tail,
            record.stream_lsn,
        ) == Some(record),
{
    let tail = stream_or_fresh(m, id).tail;
    let all = tail.push(record);
    let n = if all.len() <= limit {
        0
    } else {
        all.len() - limit
    };
    lemma_tail_at_skip(tail, n, record.stream_lsn);
    lemma_tail_at_push(tail.skip(n), record);
    assert(all.skip(n) =~= tail.skip(n).push(record));
    assert(all.skip(0) =~= all);
}

/// The table after records of one stream were written, each with its epoch.
pub open spec fn after_appends(
    m: Map<u64, StreamModel>,
    limit: nat,
    id: u64,
    appends: Seq<(u64, TailModel)>,
) -> Map<u64, StreamModel>
    decreases appends.len(),
{
    if appends.len() == 0 {
        m
    } else {
        after_append(
            after_appends(m, limit, id, appends.drop_last()),
            limit,
            id,
            appends.last().0,
            appends.last().1,
        )
    }
}

/// Whether `x` is the largest of the numbers that `f` gives for some appends.
pub open spec fn is_largest(
    appends: Seq<(u64, TailModel)>,
    f: spec_fn((u64, TailModel)) -> int,
    x: int,
) -> bool {
    &&& exists|i: int| 0 <= i < appends.len() && f(#[trigger] appends[i]) == x
    &&& forall|i: int| 0 <= i < appends.len() ==> f(#[trigger] appends[i]) <= x
}

proof fn lemma_largest_push(
    appends: Seq<(u64, TailModel)>,
    f: spec_fn((u64, TailModel)) -> int,
    x: int,
)
    requires
        appends.len() > 0,
        appends.len() > 1 ==> is_largest(appends.drop_last(), f, x),
    ensures
        is_largest(
            appends,
            f,
            if appends.len() > 1 && x > f(appends.last()) {
                x
            } else {
                f(appends.last())
            },
        ),
{
    let init = appends.drop_last();
    let last = appends.len() - 1;
    let y = if appends.len() > 1 && x > f(appends.last()) {
        x
    } else {
        f(appends.last())
    };
    assert forall|i: int| 0 <= i < appends.len() implies f(#[trigger] appends[i]) <= y by {
        if i < last {
            assert(init[i] == appends[i]);
        }
    }
    if y == f(appends.last()) {
        assert(f(appends[last]) == y);
    } else {
        let i = choose|i: int| 0 <= i < init.len() && f(#[trigger] init[i]) == x;
        assert(f(appends[i]) == y);
    }
}

/// The records of appends.
pub open spec fn appended_records(appends: Seq<(u64, TailModel)>) -> Seq<TailModel> {
    appends.map_values(|a: (u64, TailModel)| a.1)
}

pub(crate) proof fn lemma_tail_at(tail: Seq<TailModel>, lsn: u64)
    ensures
        tail_at(tail, lsn) is None <==> forall|i: int|
            0 <= i < tail.len() ==> (#[trigger] tail[i]).stream_lsn != lsn,
    decreases tail.len(),
{
    if tail.len() > 0 && tail[0].stream_lsn != lsn {
        let rest = tail.skip(1);
        lemma_tail_at(rest, lsn);
        assert forall|i: int| 0 <= i < rest.len() implies rest[i] == #[trigger] tail[i + 1] by {}
        if tail_at(tail, lsn) is None {
            assert forall|i: int| 0 <= i < tail.len() implies (#[trigger] tail[i]).stream_lsn
                != lsn by {
                if i > 0 {
                    assert(rest[i - 1] == tail[i]);
                }
            }
        }
    }
}

pub(crate) proof fn lemma_tail_holds(tail: Seq<TailModel>, i: int)
    requires
        0 <= i < tail.len(),
        forall|j: int| 0 <= j < i ==> (#[trigger] tail[j]).stream_lsn != tail[i].stream_lsn,
    ensures
        tail_at(tail, tail[i].stream_lsn) == Some(tail[i]),
    decreases i,
{
    if i > 0 {
        let rest = tail.skip(1);
        assert(rest[i - 1] == tail[i]);
        assert forall|j: int| 0 <= j < i - 1 implies (#[trigger] rest[j]).stream_lsn != rest[i
            - 1].stream_lsn by {
            assert(rest[j] == tail[j + 1]);
        }
        lemma_tail_holds(rest, i - 1);
        assert(tail[0].stream_lsn != tail[i].stream_lsn);
    }
}

proof fn lemma_appends(limit: nat, id: u64, appends: Seq<(u64, TailModel)>)
    requires
        appends.len() > 0,
        forall|i: int| 0 <= i < appends.len() ==> (#[trigger] appends[i]).1.stream_lsn < u64::MAX,
    ensures
        ({
            let t = after_appends(Map::empty(), limit, id, appends);
            let s = t[id];
            &&& t.dom() == set![id]
            &&& s.tail == last_items(appended_records(appends), limit)
            &&& s.commit_stream_lsn == 0
            &&& s.consumed_stream_lsn == 0
            &&& is_largest(appends, |a: (u64, TailModel)| a.0 as int, s.max_epoch as int)
            &&& is_largest(
                appends,
                |a: (u64, TailModel)| a.1.entry_id as int,
                s.last_entry_id as int,
            )
            &&& is_largest(
                appends,
                |a: (u64, TailModel)| a.1.stream_lsn + 1,
                s.next_stream_lsn as int,
            )
        }),
    decreases appends.len(),
{
    let init = appends.drop_last();
    let before = after_appends(Map::empty(), limit, id, init);
    let t = after_appends(Map::empty(), limit, id, appends);
    let b = stream_or_fresh(before, id);
    let a = appends.last();
    assert(a == appends[appends.len() - 1]);
    if init.len() > 0 {
        assert forall|i: int| 0 <= i < init.len() implies (#[trigger] init[i]).1.stream_lsn
            < u64::MAX by {
            assert(init[i] == appends[i]);
        }
        lemma_appends(limit, id, init);
        assert(before.dom().contains(id));
    } else {
        assert(before == Map::<u64, StreamModel>::empty());
        assert(last_items(appended_records(init), limit) =~= Seq::empty());
    }
    assert(t.dom() =~= set![id]);
    let all = appended_records(appends);
    assert(appended_records(init).push(a.1) =~= all);
    assert(last_items(b.tail.push(a.1), limit) =~= last_items(all, limit));
    lemma_largest_push(appends, |a: (u64, TailModel)| a.0 as int, b.max_epoch as int);
    lemma_largest_push(appends, |a: (u64, TailModel)| a.1.entry_id as int, b.last_entry_id as int);
    lemma_largest_push(
        appends,
        |a: (u64, TailModel)| a.1.stream_lsn + 1,
        b.next_stream_lsn as int,
    );
}

/// Of the records of a stream that were written to a new table, the cache gives
/// back the last ones, as many as it may hold, and none of the earlier ones. The
/// stream has the highest epoch and entry id that was written, the next LSN is
/// one above the highest, and nothing is committed; no other stream is known.
pub proof fn law_last_appends_are_read_back(limit: nat, id: u64, appends: Seq<(u64, TailModel)>)
    requires
        appends.len() > 0,
        forall|i: int| 0 <= i < appends.len() ==> (#[trigger] appends[i]).1.stream_lsn < u64::MAX,
        forall|i: int, j: int|
            0 <= i < j < appends.len() ==> (#[trigger] appends[i]).1.stream_lsn != (
            #[trigger] appends[j]).1.stream_lsn,
    ensures
        ({
            let t = after_appends(Map::empty(), limit, id, appends);
            let s = t[id];
            &&& t.dom() == set![id]
            &&& forall|i: int|
                0 <= i < appends.len() ==> tail_at(
                    s.tail,
                    (#[trigger] appends[i]).1.stream_lsn,
                ) == (if i >= appends.len() - limit {
                    Some(appends[i].1)
                } else {
                    None
                })
            &&& is_largest(appends, |a: (u64, TailModel)| a.0 as int, s.max_epoch as int)
            &&& is_largest(
                appends,
                |a: (u64, TailModel)| a.1.entry_id as int,
                s.last_entry_id as int,
            )
            &&& is_largest(
                appends,
                |a: (u64, TailModel)| a.1.stream_lsn + 1,
                s.next_stream_lsn as int,
            )
            &&& s.commit_stream_lsn == 0
            &&& s.consumed_stream_lsn == 0
        }),
{
    lemma_appends(limit, id, appends);
    let t = after_appends(Map::empty(), limit, id, appends);
    let tail = t[id].tail;
    let all = appended_records(appends);
    let first = if all.len() <= limit {
        0
    } else {
        all.len() - limit
    };
    assert forall|k: int| 0 <= k < tail.len() implies #[trigger] tail[k] == appends[first
        + k].1 by {}
    assert forall|i: int| 0 <= i < appends.len() implies tail_at(
        tail,
        (#[trigger] appends[i]).1.stream_lsn,
    ) == (if i >= appends.len() - limit {
        Some(appends[i].1)
    } else {
        None
    }) by {
        let lsn = appends[i].1.stream_lsn;
        if i >= first {
            assert(tail[i - first] == appends[i].1);
            assert forall|j: int| 0 <= j < i - first implies (#[trigger] tail[j]).stream_lsn
                != tail[i - first].stream_lsn by {
                assert(tail[j] == appends[first + j].1);
            }
            lemma_tail_holds(tail, i - first);
        } else {
            lemma_tail_at(tail, lsn);
            assert forall|k: int| 0 <= k < tail.len() implies (#[trigger] tail[k]).stream_lsn
                != lsn by {
                assert(tail[k] == appends[first + k].1);
            }
        }
    }
}

/// Acknowledging a stream up to an LSN keeps every cached record at or above it
/// readable.
pub proof fn law_unconsumed_records_stay(tail: Seq<TailModel>, consumed: u64, lsn: u64)
    requires
        consumed <= lsn,
    ensures
        tail_at(unconsumed(tail, consumed), lsn) == tail_at(tail, lsn),
    decreases tail.len(),
{
    if tail.len() > 0 && tail[0].stream_lsn < consumed {
        law_unconsumed_records_stay(tail.skip(1), consumed, lsn);
    }
}

/// A table with the positions of its streams only. A snapshot does not hold their
/// tail caches, nor which of them were given up or watched: the position to which
/// a stream that was given up counts as consumed is among its positions.
pub open spec fn without_tails(m: Map<u64, StreamModel>) -> Map<u64, StreamModel> {
    m.map_values(
        |s: StreamModel|
            StreamModel { tail: Seq::empty(), banned: false, last_ack_ns: 0, ..s },
    )
}

proof fn lemma_status_rows(statuses: Seq<StreamStatus>, i: int)
    ensures
        status_rows(statuses).len() == 48 * statuses.len(),
        0 <= i < statuses.len() ==> status_rows(statuses).subrange(48 * i, 48 * i + 48)
            == status_bytes(statuses[i]),
    decreases statuses.len(),
{
    broadcast use crate::be::lemma_be_bytes_len;

    if statuses.len() > 0 {
        let init = statuses.drop_last();
        lemma_status_rows(init, i);
        if 0 <= i < init.len() {
            assert(status_rows(statuses).subrange(48 * i, 48 * i + 48) =~= status_rows(
                init,
            ).subrange(48 * i, 48 * i + 48));
        } else if i == init.len() {
            assert(status_rows(statuses).subrange(48 * i, 48 * i + 48) =~= status_bytes(
                statuses[i],
            ));
        }
    }
}

proof fn lemma_row_fields(statuses: Seq<StreamStatus>, i: int)
    requires
        0 <= i < statuses.len(),
    ensures
        row_id(snapshot_bytes(statuses), i) == statuses[i].stream_id,
        status_of(statuses[i].stream_id, row_stream(snapshot_bytes(statuses), i)) == statuses[i],
{
    broadcast use crate::be::lemma_be_bytes_len;

    let buf = snapshot_bytes(statuses);
    let s = statuses[i];
    lemma_status_rows(statuses, i);
    let at = 4 + 48 * i;
    let row = status_bytes(s);
    assert(buf.subrange(at, at + 48) =~= status_rows(statuses).subrange(48 * i, 48 * i + 48));
    assert forall|k: int| 0 <= k <= 40 implies #[trigger] buf.subrange(at + k, at + k + 8)
        == row.subrange(k, k + 8) by {
        assert(buf.subrange(at, at + 48).subrange(k, k + 8) =~= buf.subrange(at + k, at + k + 8));
    }
    assert(row.subrange(0, 8) =~= be::be_bytes(s.stream_id as nat, 8));
    assert(row.subrange(8, 16) =~= be::be_bytes(s.max_epoch as nat, 8));
    assert(row.subrange(16, 24) =~= be::be_bytes(s.next_stream_lsn as nat, 8));
    assert(row.subrange(24, 32) =~= be::be_bytes(s.commit_stream_lsn as nat, 8));
    assert(row.subrange(32, 40) =~= be::be_bytes(s.consumed_stream_lsn as nat, 8));
    assert(row.subrange(40, 48) =~= be::be_bytes(s.last_entry_id as nat, 8));
    assert(buf.subrange(at + 0, at + 0 + 8) == row.subrange(0, 8));
    be::lemma_field64(buf, at, s.stream_id);
    be::lemma_field64(buf, at + 8, s.max_epoch);
    be::lemma_field64(buf, at + 16, s.next_stream_lsn);
    be::lemma_field64(buf, at + 24, s.commit_stream_lsn);
    be::lemma_field64(buf, at + 32, s.consumed_stream_lsn);
    be::lemma_field64(buf, at + 40, s.last_entry_id);
}

proof fn lemma_rows_read(m: Map<u64, StreamModel>, statuses: Seq<StreamStatus>, n: nat)
    requires
        lists_statuses(m, statuses),
        n <= statuses.len(),
    ensures
        forall|id: u64|
            rows_read(snapshot_bytes(statuses), n).contains_key(id) <==> status_ids(
                statuses,
            ).take(n as int).contains(id),
        forall|id: u64| #[trigger]
            rows_read(snapshot_bytes(statuses), n).contains_key(id) ==> rows_read(
                snapshot_bytes(statuses),
                n,
            )[id] == without_tails(m)[id],
    decreases n,
{
    let buf = snapshot_bytes(statuses);
    let ids = status_ids(statuses);
    if n > 0 {
        let i = n - 1;
        lemma_rows_read(m, statuses, i as nat);
        lemma_row_fields(statuses, i);
        let id = statuses[i].stream_id;
        assert(ids[i] == id);
        assert(ids.to_set().contains(id));
        assert(ids.take(n as int) =~= ids.take(i).push(id));
        assert(row_stream(buf, i) == without_tails(m)[id]);
        assert forall|k: u64| rows_read(buf, n).contains_key(k) <==> ids.take(n as int).contains(
            k,
        ) by {
            if ids.take(i).contains(k) {
                let j = choose|j: int| 0 <= j < i && ids.take(i)[j] == k;
                assert(ids.take(n as int)[j] == k);
            }
            assert(ids.take(n as int)[i] == id);
        }
        assert forall|k: u64| #[trigger] rows_read(buf, n).contains_key(k) implies rows_read(
            buf,
            n,
        )[k] == without_tails(m)[k] by {
            if k != id {
                assert(rows_read(buf, i as nat).contains_key(k));
            }
        }
    }
}

/// Decoding an encoded snapshot gives all positions back. The count of a
/// snapshot is a 32-bit number, so it holds for no more streams than that.
pub proof fn law_snapshot_roundtrip(m: Map<u64, StreamModel>, statuses: Seq<StreamStatus>)
    requires
        lists_statuses(m, statuses),
        statuses.len() <= u32::MAX,
    ensures
        decoded_snapshot(snapshot_bytes(statuses)) == Ok::<Map<u64, StreamModel>, SnapshotError>(
            without_tails(m),
        ),
{
    broadcast use crate::be::lemma_be_bytes_len;

    let buf = snapshot_bytes(statuses);
    let ids = status_ids(statuses);
    lemma_status_rows(statuses, 0);
    lemma_rows_read(m, statuses, statuses.len());
    assert(buf.subrange(0, 4) =~= be::be_bytes(statuses.len(), 4));
    be::lemma_field32(buf, 0, statuses.len() as u32);
    assert(ids.take(statuses.len() as int) =~= ids);
    assert forall|id: u64| rows_read(buf, statuses.len()).contains_key(id) <==> without_tails(
        m,
    ).contains_key(id) by {
        assert(ids.contains(id) <==> ids.to_set().contains(id));
    }
    assert(rows_read(buf, statuses.len()) =~= without_tails(m));
}

/// Whether the positions of a stream take a record into account.
pub open spec fn accounts_for(
    m: Map<u64, StreamModel>,
    id: u64,
    epoch: u64,
    entry_id: u64,
    lsn: u64,
) -> bool {
    &&& m.contains_key(id)
    &&& m[id].max_epoch >= epoch
    &&& m[id].last_entry_id >= entry_id
    &&& m[id].next_stream_lsn > lsn
    &&& m[id].commit_stream_lsn > lsn
}

/// A record that was found in the log is accounted for from then on, whatever
/// happens: also in the table that a snapshot gives back.
pub proof fn law_recovered_record_stays_accounted_for(
    m: Map<u64, StreamModel>,
    limit: nat,
    id: u64,
    epoch: u64,
    record: TailModel,
    other: u64,
    other_epoch: u64,
    other_lsn: u64,
    other_record: TailModel,
)
    requires
        record.stream_lsn < u64::MAX,
        stream_or_fresh(m, other).next_stream_lsn < u64::MAX,
    ensures
        ({
            let lsn = record.stream_lsn;
            let entry_id = record.entry_id;
            let after = after_recovery(m, limit, id, epoch, record);
            accounts_for(after, id, epoch, entry_id, lsn)
        }),
        accounts_for(m, id, epoch, record.entry_id, record.stream_lsn) ==> {
            let lsn = record.stream_lsn;
            let entry_id = record.entry_id;
            &&& other_epoch >= stream_or_fresh(m, other).max_epoch ==> accounts_for(
                after_allocate(m, other, other_epoch),
                id,
                epoch,
                entry_id,
                lsn,
            )
            &&& accounts_for(after_rollback(m, other, other_lsn), id, epoch, entry_id, lsn)
            &&& accounts_for(
                after_append(m, limit, other, other_epoch, other_record),
                id,
                epoch,
                entry_id,
                lsn,
            )
            &&& accounts_for(
                after_commit(m, other, other_record.entry_id, other_lsn),
                id,
                epoch,
                entry_id,
                lsn,
            )
            &&& accounts_for(after_consume(m, other, other_lsn), id, epoch, entry_id, lsn)
            &&& accounts_for(after_ban(m, other), id, epoch, entry_id, lsn)
            &&& accounts_for(
                after_recovery(m, limit, other, other_epoch, other_record),
                id,
                epoch,
                entry_id,
                lsn,
            )
            &&& accounts_for(without_tails(m), id, epoch, entry_id, lsn)
        },
{
}

/// Replaying a record that is accounted for changes no position of any stream: a
/// log can be replayed over a snapshot that covers part of it.
pub proof fn law_replay_changes_no_position(
    m: Map<u64, StreamModel>,
    limit: nat,
    id: u64,
    epoch: u64,
    record: TailModel,
    other: u64,
)
    requires
        accounts_for(m, id, epoch, record.entry_id, record.stream_lsn),
    ensures
        after_recovery(m, limit, id, epoch, record).dom() == m.dom(),
        status_of(other, stream_or_fresh(after_recovery(m, limit, id, epoch, record), other))
            == status_of(other, stream_or_fresh(m, other)),
{
    assert(after_recovery(m, limit, id, epoch, record).dom() =~= m.dom());
}

/// The table after streams were given up: those are, and no others changed.
pub proof fn law_bans_are_targeted(m: Map<u64, StreamModel>, ids: Seq<u64>, id: u64)
    ensures
        stream_or_fresh(after_bans(m, ids), id) == (if ids.contains(id) {
            banned_stream(stream_or_fresh(m, id))
        } else {
            stream_or_fresh(m, id)
        }),
        after_bans(m, ids).contains_key(id) <==> m.contains_key(id) || ids.contains(id),
    decreases ids.len(),
{
    if ids.len() > 0 {
        let init = ids.drop_last();
        law_bans_are_targeted(m, init, id);
        if ids.contains(id) && !init.contains(id) {
            let j = choose|j: int| 0 <= j < ids.len() && ids[j] == id;
            if j < init.len() {
                assert(init[j] == id);
            }
        }
        if init.contains(id) {
            let j = choose|j: int| 0 <= j < init.len() && init[j] == id;
            assert(ids[j] == id);
        }
        assert(ids[ids.len() - 1] == ids.last());
    }
}

/// A record of a stream with its epoch.
pub struct FoundRecord {
    pub stream_id: u64,
    pub epoch: u64,
    pub record: TailModel,
}

/// The table after records were found in the log, in order.
pub open spec fn after_recoveries(
    m: Map<u64, StreamModel>,
    limit: nat,
    found: Seq<FoundRecord>,
) -> Map<u64, StreamModel>
    decreases found.len(),
{
    if found.len() == 0 {
        m
    } else {
        let r = found.last();
        after_recovery(
            after_recoveries(m, limit, found.drop_last()),
            limit,
            r.stream_id,
            r.epoch,
            r.record,
        )
    }
}

/// The table after records were appended and committed, in order.
pub open spec fn after_applies(
    m: Map<u64, StreamModel>,
    limit: nat,
    applied: Seq<FoundRecord>,
) -> Map<u64, StreamModel>
    decreases applied.len(),
{
    if applied.len() == 0 {
        m
    } else {
        let r = applied.last();
        after_commit(
            after_append(
                after_applies(m, limit, applied.drop_last()),
                limit,
                r.stream_id,
                r.epoch,
                r.record,
            ),
            r.stream_id,
            r.record.entry_id,
            r.record.stream_lsn,
        )
    }
}

/// Whether two tables hold the same streams at the same positions.
pub open spec fn same_positions(a: Map<u64, StreamModel>, b: Map<u64, StreamModel>) -> bool {
    &&& a.dom() == b.dom()
    &&& forall|id: u64| #[trigger]
        a.contains_key(id) ==> status_of(id, a[id]) == status_of(id, b[id])
}

proof fn lemma_replay_of_accounted(m: Map<u64, StreamModel>, limit: nat, early: Seq<FoundRecord>)
    requires
        forall|i: int|
            0 <= i < early.len() ==> accounts_for(
                m,
                (#[trigger] early[i]).stream_id,
                early[i].epoch,
                early[i].record.entry_id,
                early[i].record.stream_lsn,
            ),
    ensures
        same_positions(after_recoveries(without_tails(m), limit, early), m),
    decreases early.len(),
{
    if early.len() == 0 {
        assert(without_tails(m).dom() =~= m.dom());
    } else {
        let init = early.drop_last();
        let r = early.last();
        assert forall|i: int| 0 <= i < init.len() implies accounts_for(
            m,
            (#[trigger] init[i]).stream_id,
            init[i].epoch,
            init[i].record.entry_id,
            init[i].record.stream_lsn,
        ) by {
            assert(init[i] == early[i]);
        }
        lemma_replay_of_accounted(m, limit, init);
        assert(r == early[early.len() - 1]);
        let before = after_recoveries(without_tails(m), limit, init);
        assert(before.contains_key(r.stream_id));
        assert(status_of(r.stream_id, before[r.stream_id]) == status_of(
            r.stream_id,
            m[r.stream_id],
        ));
        let after = after_recoveries(without_tails(m), limit, early);
        assert(after.dom() =~= m.dom());
        assert forall|id: u64| #[trigger] after.contains_key(id) implies status_of(id, after[id])
            == status_of(id, m[id]) by {
            assert(before.contains_key(id));
        }
    }
}

/// A restart over a snapshot: replaying the whole log over the positions that the
/// snapshot holds, first the records that it covers and then the later ones,
/// leaves every stream at the positions that it had after the later ones were
/// applied to the table of which the snapshot was taken.
pub proof fn law_restart_over_snapshot(
    m: Map<u64, StreamModel>,
    limit: nat,
    early: Seq<FoundRecord>,
    later: Seq<FoundRecord>,
)
    requires
        forall|i: int|
            0 <= i < early.len() ==> accounts_for(
                m,
                (#[trigger] early[i]).stream_id,
                early[i].epoch,
                early[i].record.entry_id,
                early[i].record.stream_lsn,
            ),
    ensures
        same_positions(
            after_recoveries(without_tails(m), limit, early + later),
            after_applies(m, limit, later),
        ),
    decreases later.len(),
{
    if later.len() == 0 {
        assert(early + later =~= early);
        lemma_replay_of_accounted(m, limit, early);
    } else {
        let init = later.drop_last();
        let r = later.last();
        law_restart_over_snapshot(m, limit, early, init);
        assert((early + later).drop_last() =~= early + init);
        assert((early + later).last() == r);
        let a0 = after_recoveries(without_tails(m), limit, early + init);
        let b0 = after_applies(m, limit, init);
        let a = after_recoveries(without_tails(m), limit, early + later);
        let b = after_applies(m, limit, later);
        assert(a0.contains_key(r.stream_id) <==> b0.contains_key(r.stream_id));
        assert(a0.contains_key(r.stream_id) ==> status_of(r.stream_id, a0[r.stream_id])
            == status_of(r.stream_id, b0[r.stream_id]));
        assert(a.dom() =~= b.dom());
        assert forall|id: u64| #[trigger] a.contains_key(id) implies status_of(id, a[id])
            == status_of(id, b[id]) by {
            if id != r.stream_id {
                assert(a0.contains_key(id));
            }
        }
    }
}

/// A stream that the table has is found there; one that it has not is at the start
/// of everything, holds no record and is not given up.
pub proof fn law_unknown_stream_is_at_its_start(m: Map<u64, StreamModel>, id: u64)
    ensures
        m.contains_key(id) ==> stream_or_fresh(m, id) == m[id],
        !m.contains_key(id) ==> {
            let s = stream_or_fresh(m, id);
            &&& s.max_epoch == 0
            &&& s.next_stream_lsn == 0
            &&& s.commit_stream_lsn == 0
            &&& s.consumed_stream_lsn == 0
            &&& s.last_entry_id == 0
            &&& s.tail.len() == 0
            &&& !s.banned
            &&& s.last_ack_ns == 0
        },
{
}

/// Taking an LSN moves the next one by one and notes the epoch; nothing else of the
/// stream changes.
pub proof fn law_allocation_moves_next_lsn(m: Map<u64, StreamModel>, id: u64, epoch: u64)
    requires
        stream_or_fresh(m, id).next_stream_lsn < u64::MAX,
    ensures
        ({
            let s = stream_or_fresh(m, id);
            let t = after_allocate(m, id, epoch);
            &&& t.dom() == m.dom().insert(id)
            &&& t[id].next_stream_lsn == s.next_stream_lsn + 1
            &&& t[id].max_epoch == epoch
            &&& t[id].commit_stream_lsn == s.commit_stream_lsn
            &&& t[id].consumed_stream_lsn == s.consumed_stream_lsn
            &&& t[id].last_entry_id == s.last_entry_id
            &&& t[id].tail == s.tail
            &&& t[id].banned == s.banned
            &&& t[id].last_ack_ns == s.last_ack_ns
        }),
{
    assert(after_allocate(m, id, epoch).dom() =~= m.dom().insert(id));
}

/// Only the LSN that was taken last can be given back, and only while it is not
/// committed: the stream then continues at it, and nothing else changes. Giving back
/// any other one changes nothing at all.
pub proof fn law_only_last_uncommitted_lsn_is_given_back(
    m: Map<u64, StreamModel>,
    id: u64,
    lsn: u64,
)
    requires
        lsn < u64::MAX,
    ensures
        m.contains_key(id) && m[id].next_stream_lsn == lsn + 1 && m[id].commit_stream_lsn <= lsn
            ==> {
            let t = after_rollback(m, id, lsn);
            &&& t.dom() == m.dom()
            &&& t[id].next_stream_lsn == lsn
            &&& t[id].max_epoch == m[id].max_epoch
            &&& t[id].commit_stream_lsn == m[id].commit_stream_lsn
            &&& t[id].consumed_stream_lsn == m[id].consumed_stream_lsn
            &&& t[id].last_entry_id == m[id].last_entry_id
            &&& t[id].tail == m[id].tail
            &&& t[id].banned == m[id].banned
            &&& t[id].last_ack_ns == m[id].last_ack_ns
        },
        !(m.contains_key(id) && m[id].next_stream_lsn == lsn + 1 && m[id].commit_stream_lsn <= lsn)
            ==> after_rollback(m, id, lsn) == m,
{
    assert(m.contains_key(id) ==> m.insert(id, m[id]).dom() =~= m.dom());
    if can_roll_back(m, id, lsn) {
        assert(after_rollback(m, id, lsn).dom() =~= m.dom());
    }
}

/// A record that is written raises the epoch, the last entry id and the next LSN of
/// its stream to its own, if they are below, and goes to the end of the tail cache,
/// which keeps its last records, as many as it may hold. Nothing is committed or
/// consumed by it.
pub proof fn law_append_raises_positions(
    m: Map<u64, StreamModel>,
    limit: nat,
    id: u64,
    epoch: u64,
    record: TailModel,
)
    requires
        record.stream_lsn < u64::MAX,
    ensures
        ({
            let s = stream_or_fresh(m, id);
            let t = after_append(m, limit, id, epoch, record);
            &&& t.dom() == m.dom().insert(id)
            &&& t[id].max_epoch == (if s.max_epoch < epoch {
                epoch
            } else {
                s.max_epoch
            })
            &&& t[id].last_entry_id == (if s.last_entry_id < record.entry_id {
                record.entry_id
            } else {
                s.last_entry_id
            })
            &&& t[id].next_stream_lsn == (if s.next_stream_lsn <= record.stream_lsn {
                record.stream_lsn + 1
            } else {
                s.next_stream_lsn as int
            })
            &&& t[id].commit_stream_lsn == s.commit_stream_lsn
            &&& t[id].consumed_stream_lsn == s.consumed_stream_lsn
            &&& t[id].banned == s.banned
            &&& t[id].last_ack_ns == s.last_ack_ns
            &&& t[id].tail.len() == (if s.tail.len() < limit {
                s.tail.len() + 1
            } else {
                limit
            })
            &&& t[id].tail.len() > 0 ==> t[id].tail.last() == record
            &&& forall|k: int|
                1 <= k < t[id].tail.len() ==> t[id].tail[t[id].tail.len() - 1 - k]
                    == #[trigger] s.tail[s.tail.len() - k]
        }),
{
    assert(after_append(m, limit, id, epoch, record).dom() =~= m.dom().insert(id));
}

/// A record that is committed raises the commit position to the LSN behind it and
/// the last entry id to its own, if they are below. Nothing else changes.
pub proof fn law_commit_raises_positions(
    m: Map<u64, StreamModel>,
    id: u64,
    entry_id: u64,
    lsn: u64,
)
    requires
        lsn < u64::MAX,
    ensures
        ({
            let s = stream_or_fresh(m, id);
            let t = after_commit(m, id, entry_id, lsn);
            &&& t.dom() == m.dom().insert(id)
            &&& t[id].commit_stream_lsn == (if s.commit_stream_lsn <= lsn {
                lsn + 1
            } else {
                s.commit_stream_lsn as int
            })
            &&& t[id].last_entry_id == (if s.last_entry_id < entry_id {
                entry_id
            } else {
                s.last_entry_id
            })
            &&& t[id].max_epoch == s.max_epoch
            &&& t[id].next_stream_lsn == s.next_stream_lsn
            &&& t[id].consumed_stream_lsn == s.consumed_stream_lsn
            &&& t[id].tail == s.tail
            &&& t[id].banned == s.banned
            &&& t[id].last_ack_ns == s.last_ack_ns
        }),
{
    assert(after_commit(m, id, entry_id, lsn).dom() =~= m.dom().insert(id));
}

proof fn lemma_unconsumed(tail: Seq<TailModel>, lsn: u64) -> (k: int)
    ensures
        0 <= k <= tail.len(),
        unconsumed(tail, lsn) == tail.skip(k),
        forall|i: int| 0 <= i < k ==> (#[trigger] tail[i]).stream_lsn < lsn,
        k < tail.len() ==> tail[k].stream_lsn >= lsn,
    decreases tail.len(),
{
    if tail.len() > 0 && tail[0].stream_lsn < lsn {
        let rest = tail.skip(1);
        let k = lemma_unconsumed(rest, lsn);
        assert(rest.skip(k) =~= tail.skip(k + 1));
        assert forall|i: int| 0 <= i < k + 1 implies (#[trigger] tail[i]).stream_lsn < lsn by {
            if i > 0 {
                assert(rest[i - 1] == tail[i]);
            }
        }
        k + 1
    } else {
        assert(tail.skip(0) =~= tail);
        0
    }
}

/// A stream that is acknowledged up to an LSN is consumed up to it, or further if it
/// was before. Of the tail cache it loses the front up to the first record that was
/// not consumed, and nothing else; no other position moves.
pub proof fn law_acknowledged_stream_is_consumed(m: Map<u64, StreamModel>, id: u64, lsn: u64) -> (k:
    int)
    ensures
        ({
            let s = stream_or_fresh(m, id);
            let t = after_consume(m, id, lsn);
            &&& t.dom() == m.dom().insert(id)
            &&& t[id].consumed_stream_lsn >= lsn
            &&& t[id].consumed_stream_lsn >= s.consumed_stream_lsn
            &&& t[id].consumed_stream_lsn == lsn || t[id].consumed_stream_lsn
                == s.consumed_stream_lsn
            &&& t[id].tail.len() > 0 ==> t[id].tail[0].stream_lsn >= t[id].consumed_stream_lsn
            &&& 0 <= k <= s.tail.len()
            &&& t[id].tail == s.tail.skip(k)
            &&& forall|i: int|
                0 <= i < k ==> (#[trigger] s.tail[i]).stream_lsn < t[id].consumed_stream_lsn
            &&& t[id].max_epoch == s.max_epoch
            &&& t[id].next_stream_lsn == s.next_stream_lsn
            &&& t[id].commit_stream_lsn == s.commit_stream_lsn
            &&& t[id].last_entry_id == s.last_entry_id
            &&& t[id].banned == s.banned
            &&& t[id].last_ack_ns == s.last_ack_ns
        }),
{
    assert(after_consume(m, id, lsn).dom() =~= m.dom().insert(id));
    let s = stream_or_fresh(m, id);
    lemma_unconsumed(s.tail, after_consume(m, id, lsn)[id].consumed_stream_lsn)
}

/// Acknowledging a stream twice is acknowledging it once, up to the further LSN.
pub proof fn law_acknowledgements_add_up(m: Map<u64, StreamModel>, id: u64, a: u64, b: u64)
    ensures
        after_consume(after_consume(m, id, a), id, b) == after_consume(
            m,
            id,
            if a < b {
                b
            } else {
                a
            },
        ),
{
    let s = stream_or_fresh(m, id);
    let once = after_consume(m, id, a);
    let twice = after_consume(once, id, b);
    let both = after_consume(
        m,
        id,
        if a < b {
            b
        } else {
            a
        },
    );
    let j = lemma_unconsumed(s.tail, once[id].consumed_stream_lsn);
    let k = lemma_unconsumed(once[id].tail, twice[id].consumed_stream_lsn);
    let l = lemma_unconsumed(s.tail, both[id].consumed_stream_lsn);
    assert(twice[id].consumed_stream_lsn == both[id].consumed_stream_lsn);
    assert(j + k == l) by {
        if j + k < l {
            assert(s.tail[j + k] == once[id].tail[k]);
        }
        if l < j + k {
            if l >= j {
                assert(s.tail[l] == once[id].tail[l - j]);
            }
        }
    }
    assert(once[id].tail.skip(k) =~= s.tail.skip(l));
    assert(twice =~= both);
}

/// Noting an acknowledgement notes its time and changes nothing else.
pub proof fn law_acknowledgement_is_dated(m: Map<u64, StreamModel>, id: u64, now_ns: u64)
    ensures
        ({
            let s = stream_or_fresh(m, id);
            let t = after_ack(m, id, now_ns);
            &&& t.dom() == m.dom().insert(id)
            &&& t[id].last_ack_ns == now_ns
            &&& t[id].max_epoch == s.max_epoch
            &&& t[id].next_stream_lsn == s.next_stream_lsn
            &&& t[id].commit_stream_lsn == s.commit_stream_lsn
            &&& t[id].consumed_stream_lsn == s.consumed_stream_lsn
            &&& t[id].last_entry_id == s.last_entry_id
            &&& t[id].tail == s.tail
            &&& t[id].banned == s.banned
        }),
{
    assert(after_ack(m, id, now_ns).dom() =~= m.dom().insert(id));
}

/// Giving a stream up makes everything that it holds count as consumed, up to the
/// next LSN at least; nothing else of it changes, and doing so twice is doing so
/// once.
pub proof fn law_given_up_stream_holds_nothing(m: Map<u64, StreamModel>, id: u64)
    ensures
        ({
            let s = stream_or_fresh(m, id);
            let t = after_ban(m, id);
            &&& t.dom() == m.dom().insert(id)
            &&& t[id].banned
            &&& t[id].consumed_stream_lsn >= s.next_stream_lsn
            &&& t[id].consumed_stream_lsn >= s.consumed_stream_lsn
            &&& t[id].consumed_stream_lsn == s.next_stream_lsn || t[id].consumed_stream_lsn
                == s.consumed_stream_lsn
            &&& t[id].max_epoch == s.max_epoch
            &&& t[id].next_stream_lsn == s.next_stream_lsn
            &&& t[id].commit_stream_lsn == s.commit_stream_lsn
            &&& t[id].last_entry_id == s.last_entry_id
            &&& t[id].tail == s.tail
            &&& t[id].last_ack_ns == s.last_ack_ns
            &&& after_ban(t, id) == t
        }),
{
    assert(after_ban(m, id).dom() =~= m.dom().insert(id));
    assert(after_ban(after_ban(m, id), id) =~= after_ban(m, id));
}

/// Watching begins at the given time for every stream that was not watched, and
/// leaves the time of those that were; ending it forgets all times. Nothing else
/// changes.
pub proof fn law_watching_keeps_times(
    m: Map<u64, StreamModel>,
    watch: bool,
    now_ns: u64,
    id: u64,
)
    ensures
        after_watch(m, watch, now_ns).dom() == m.dom(),
        m.contains_key(id) ==> {
            let s = m[id];
            let t = after_watch(m, watch, now_ns)[id];
            &&& !watch ==> t.last_ack_ns == 0
            &&& watch && s.last_ack_ns == 0 ==> t.last_ack_ns == now_ns
            &&& watch && s.last_ack_ns > 0 ==> t.last_ack_ns == s.last_ack_ns
            &&& t.max_epoch == s.max_epoch
            &&& t.next_stream_lsn == s.next_stream_lsn
            &&& t.commit_stream_lsn == s.commit_stream_lsn
            &&& t.consumed_stream_lsn == s.consumed_stream_lsn
            &&& t.last_entry_id == s.last_entry_id
            &&& t.tail == s.tail
            &&& t.banned == s.banned
        },
{
    assert(after_watch(m, watch, now_ns).dom() =~= m.dom());
}

/// The cache gives the first record that it holds at an LSN, with all that it
/// carries, and nothing if it holds none there.
pub proof fn law_cache_gives_first_record_at_lsn(tail: Seq<TailModel>, lsn: u64, i: int)
    ensures
        0 <= i < tail.len() && tail[i].stream_lsn == lsn && (forall|j: int|
            0 <= j < i ==> (#[trigger] tail[j]).stream_lsn != lsn) ==> tail_at(tail, lsn) == Some(
            tail[i],
        ),
        (forall|j: int| 0 <= j < tail.len() ==> (#[trigger] tail[j]).stream_lsn != lsn)
            ==> tail_at(tail, lsn) is None,
{
    lemma_tail_at(tail, lsn);
    if 0 <= i < tail.len() && tail[i].stream_lsn == lsn && (forall|j: int|
        0 <= j < i ==> (#[trigger] tail[j]).stream_lsn != lsn) {
        lemma_tail_holds(tail, i);
    }
}

/// The positions that are reported of a stream are its own, each in its place.
pub proof fn law_positions_are_reported_as_they_are(id: u64, s: StreamModel)
    ensures
        status_of(id, s).stream_id == id,
        status_of(id, s).max_epoch == s.max_epoch,
        status_of(id, s).next_stream_lsn == s.next_stream_lsn,
        status_of(id, s).commit_stream_lsn == s.commit_stream_lsn,
        status_of(id, s).consumed_stream_lsn == s.consumed_stream_lsn,
        status_of(id, s).last_entry_id == s.last_entry_id,
{
}

/// The table that a snapshot gives back has the streams of the table of which it was
/// taken, each at its positions, with empty tail caches; none of them is given up or
/// watched.
pub proof fn law_snapshot_keeps_positions(
    m: Map<u64, StreamModel>,
    statuses: Seq<StreamStatus>,
    id: u64,
)
    requires
        lists_statuses(m, statuses),
        statuses.len() <= u32::MAX,
    ensures
        decoded_snapshot(snapshot_bytes(statuses)) matches Ok(t) && {
            &&& t.dom() == m.dom()
            &&& m.contains_key(id) ==> {
                &&& t[id].max_epoch == m[id].max_epoch
                &&& t[id].next_stream_lsn == m[id].next_stream_lsn
                &&& t[id].commit_stream_lsn == m[id].commit_stream_lsn
                &&& t[id].consumed_stream_lsn == m[id].consumed_stream_lsn
                &&& t[id].last_entry_id == m[id].last_entry_id
                &&& t[id].tail.len() == 0
                &&& !t[id].banned
                &&& t[id].last_ack_ns == 0
            }
        },
{
    law_snapshot_roundtrip(m, statuses);
    assert(without_tails(m).dom() =~= m.dom());
}

/// The layout of a snapshot: the number of streams in four bytes, then a row of six
/// numbers of eight bytes for each, most significant byte first: its id, its epoch,
/// its next, committed and consumed LSN, and its last entry id.
pub proof fn law_snapshot_layout(statuses: Seq<StreamStatus>, i: int)
    requires
        0 <= i < statuses.len() <= u32::MAX,
    ensures
        ({
            let buf = snapshot_bytes(statuses);
            let at = 4 + 48 * i;
            &&& buf.len() == 4 + 48 * statuses.len()
            &&& be::be_value(buf.subrange(0, 4)) == statuses.len()
            &&& be::be_value(buf.subrange(at, at + 8)) == statuses[i].stream_id
            &&& be::be_value(buf.subrange(at + 8, at + 16)) == statuses[i].max_epoch
            &&& be::be_value(buf.subrange(at + 16, at + 24)) == statuses[i].next_stream_lsn
            &&& be::be_value(buf.subrange(at + 24, at + 32)) == statuses[i].commit_stream_lsn
            &&& be::be_value(buf.subrange(at + 32, at + 40)) == statuses[i].consumed_stream_lsn
            &&& be::be_value(buf.subrange(at + 40, at + 48)) == statuses[i].last_entry_id
        }),
{
    broadcast use crate::be::lemma_be_bytes_len;

    let buf = snapshot_bytes(statuses);
    let s = statuses[i];
    lemma_status_rows(statuses, i);
    be::lemma_be_capacities();
    let at = 4 + 48 * i;
    let row = status_bytes(s);
    assert(buf.subrange(0, 4) =~= be::be_bytes(statuses.len(), 4));
    be::lemma_be_value_of_bytes(statuses.len(), 4);
    assert(buf.subrange(at, at + 48) =~= status_rows(statuses).subrange(48 * i, 48 * i + 48));
    assert forall|k: int| 0 <= k <= 40 implies #[trigger] buf.subrange(at + k, at + k + 8)
        == row.subrange(k, k + 8) by {
        assert(buf.subrange(at, at + 48).subrange(k, k + 8) =~= buf.subrange(at + k, at + k + 8));
    }
    assert(buf.subrange(at + 0, at + 0 + 8) == row.subrange(0, 8));
    assert(buf.subrange(at + 8, at + 8 + 8) == row.subrange(8, 16));
    assert(buf.subrange(at + 16, at + 16 + 8) == row.subrange(16, 24));
    assert(buf.subrange(at + 24, at + 24 + 8) == row.subrange(24, 32));
    assert(buf.subrange(at + 32, at + 32 + 8) == row.subrange(32, 40));
    assert(buf.subrange(at + 40, at + 40 + 8) == row.subrange(40, 48));
    assert(row.subrange(0, 8) =~= be::be_bytes(s.stream_id as nat, 8));
    assert(row.subrange(8, 16) =~= be::be_bytes(s.max_epoch as nat, 8));
    assert(row.subrange(16, 24) =~= be::be_bytes(s.next_stream_lsn as nat, 8));
    assert(row.subrange(24, 32) =~= be::be_bytes(s.commit_stream_lsn as nat, 8));
    assert(row.subrange(32, 40) =~= be::be_bytes(s.consumed_stream_lsn as nat, 8));
    assert(row.subrange(40, 48) =~= be::be_bytes(s.last_entry_id as nat, 8));
    be::lemma_be_value_of_bytes(s.stream_id as nat, 8);
    be::lemma_be_value_of_bytes(s.max_epoch as nat, 8);
    be::lemma_be_value_of_bytes(s.next_stream_lsn as nat, 8);
    be::lemma_be_value_of_bytes(s.commit_stream_lsn as nat, 8);
    be::lemma_be_value_of_bytes(s.consumed_stream_lsn as nat, 8);
    be::lemma_be_value_of_bytes(s.last_entry_id as nat, 8);
}

/// No bytes are a snapshot of no stream. Otherwise a snapshot has the number of its
/// streams and a row for each; if the number or a row is missing, it is refused, and
/// bytes behind the rows do not matter.
pub proof fn law_broken_snapshot_is_refused(buf: Seq<u8>)
    ensures
        buf.len() == 0 ==> decoded_snapshot(buf) == Ok::<Map<u64, StreamModel>, SnapshotError>(
            Map::empty(),
        ),
        0 < buf.len() < 4 ==> decoded_snapshot(buf) == Err::<Map<u64, StreamModel>, SnapshotError>(
            SnapshotError::TooSmall,
        ),
        buf.len() >= 4 ==> {
            let count = be::be_value(buf.subrange(0, 4));
            &&& buf.len() < 4 + 48 * count ==> decoded_snapshot(buf) == Err::<
                Map<u64, StreamModel>,
                SnapshotError,
            >(SnapshotError::Truncated)
            &&& buf.len() >= 4 + 48 * count ==> decoded_snapshot(buf) is Ok
        },
{
    if buf.len() >= 4 {
        be::lemma_be_capacities();
        be::lemma_be_value_bound(buf.subrange(0, 4));
    }
}

/// A cached record as plain values holds what its fields hold.
pub proof fn law_cached_record_holds_its_fields(r: TailRecord)
    ensures
        r@.stream_lsn == r.stream_lsn,
        r@.entry_id == r.entry_id,
        r@.payload == buffer::bytes_contents(r.payload),
{
}

/// The last items of a sequence are the last ones, as many as the limit or all of
/// them.
pub proof fn law_last_items<T>(s: Seq<T>, limit: nat, k: int)
    ensures
        last_items(s, limit).len() == (if s.len() < limit {
            s.len()
        } else {
            limit
        }),
        0 <= k < last_items(s, limit).len() ==> last_items(s, limit)[last_items(s, limit).len() - 1
            - k] == s[s.len() - 1 - k],
{
}

/// An append is refused exactly if its epoch is below the highest one seen of its
/// stream; the refusal names both, and nothing changes. Otherwise it gets the next LSN,
/// and the append after it the one behind that.
pub proof fn law_stale_append_is_refused(m: Map<u64, StreamModel>, id: u64, epoch: u64, later: u64)
    requires
        m.contains_key(id) ==> m[id].next_stream_lsn < u64::MAX,
        later >= epoch,
    ensures
        m.contains_key(id) && epoch < m[id].max_epoch ==> allocation(m, id, epoch) == (
            Err::<u64, EpochFenceError>(
                EpochFenceError::Stale { current_epoch: m[id].max_epoch, request_epoch: epoch },
            ),
            m,
        ),
        !(m.contains_key(id) && epoch < m[id].max_epoch) ==> {
            let (r, t) = allocation(m, id, epoch);
            let (again, _) = allocation(t, id, later);
            &&& r matches Ok(lsn) && again matches Ok(next) && {
                &&& m.contains_key(id) ==> lsn == m[id].next_stream_lsn
                &&& !m.contains_key(id) ==> lsn == 0
                &&& next == lsn + 1
            }
            &&& t.contains_key(id) && t[id].max_epoch == epoch
        },
{
}

/// A list of the positions of all streams names every stream of the table, once, with
/// its own positions, and no other.
pub proof fn law_every_stream_is_listed_once(
    m: Map<u64, StreamModel>,
    statuses: Seq<StreamStatus>,
    id: u64,
    i: int,
    j: int,
)
    requires
        lists_statuses(m, statuses),
    ensures
        m.contains_key(id) ==> exists|k: int|
            0 <= k < statuses.len() && (#[trigger] statuses[k]).stream_id == id,
        0 <= i < j < statuses.len() ==> statuses[i].stream_id != statuses[j].stream_id,
        0 <= i < statuses.len() ==> {
            let s = m[statuses[i].stream_id];
            &&& m.contains_key(statuses[i].stream_id)
            &&& statuses[i].max_epoch == s.max_epoch
            &&& statuses[i].next_stream_lsn == s.next_stream_lsn
            &&& statuses[i].commit_stream_lsn == s.commit_stream_lsn
            &&& statuses[i].consumed_stream_lsn == s.consumed_stream_lsn
            &&& statuses[i].last_entry_id == s.last_entry_id
        },
{
    let ids = status_ids(statuses);
    if m.contains_key(id) {
        assert(ids.to_set().contains(id));
        let k = choose|k: int| 0 <= k < ids.len() && ids[k] == id;
        assert(statuses[k].stream_id == id);
    }
    if 0 <= i < j < statuses.len() {
        assert(ids[i] != ids[j]);
    }
    if 0 <= i < statuses.len() {
        assert(ids.to_set().contains(ids[i]));
    }
}

/// A snapshot that cannot be read is described by where it ends.
pub proof fn law_snapshot_error_is_described(e: SnapshotError)
    ensures
        e == SnapshotError::TooSmall ==> snapshot_error_text(e) == "stream snapshot too small"@,
        e == SnapshotError::Truncated ==> snapshot_error_text(e) == "stream snapshot truncated"@,
{
}

} // verus!

//! What a shard does with client requests, committed entries, timers and changes
//! of leadership.
//!
//! The engine decides; its caller runs the raft state machine, the log files and
//! the channels, and hands back what came of it.

use std::collections::{HashMap, HashSet};
use std::time::Duration;

use bytes::Bytes;
use vstd::prelude::*;

use crate::buffer;
use crate::buffer::bytes_new;
use crate::channel;
use crate::channel::{ReplyModel, ShardRequest, ShardResponse};
use crate::clock;
use crate::clock::duration_nanos;
use crate::keys;
use crate::keys::hash_keys;
use crate::order;
use crate::protocol::codec;
use crate::protocol::codec::encode_stream_status_payload;
use crate::protocol::types::{
    OpCode, RequestModel, Response, ResponseModel, Status, StreamStatusPayload,
};
use crate::replication::command;
use crate::replication::command::{
    decode_append_command, encode_append_command, AppendCommand, CommandError, CommandModel,
};
use crate::replication::messages::EntryKind;
use crate::shard::stream_state;
use crate::shard::stream_state::{
    EpochFenceError, StreamModel, StreamStateTable, StreamStatus, TailModel,
};
use crate::wal::index;
use crate::wal::index::{RecordLocation, StreamLogIndex};
use crate::wal::reader;
use crate::wal::reader::{locate_record, read_record};
use crate::wal::segment;
use crate::wal::segment::list_segments;
use crate::wal::writer;

verus! {

/// A client write that was proposed and is not yet applied.
#[derive(Debug, Clone, Copy, PartialEq, Eq, Structural)]
pub struct PendingClientWrite {
    pub connection_id: u64,
    pub stream_id: u64,
    pub epoch: u64,
    pub stream_lsn: u64,
}

/// The role of a replica in its group.
#[derive(Debug, Clone, Copy, PartialEq, Eq, Structural)]
pub enum Role {
    Follower,
    Candidate,
    Leader,
    PreCandidate,
}

/// What the engine reads of the raft state machine.
#[derive(Debug, Clone, Copy, PartialEq, Eq, Structural)]
pub struct RaftStatus {
    pub role: Role,
    pub leader_id: u64,
    pub committed: u64,
    pub applied: u64,
}

/// A record that is to be read from the log for a client.
#[derive(Debug, Clone, Copy, PartialEq, Eq, Structural)]
pub struct RecordRead {
    pub connection_id: u64,
    pub stream_id: u64,
    pub stream_lsn: u64,
    pub location: RecordLocation,
}

/// What is to be done for a client request.
pub enum Action {
    /// Send a response.
    Respond(ShardResponse),
    /// Propose a command to the group.
    Propose(Vec<u8>),
    /// Read a record from the log, and finish with `finish_read`.
    ReadRecord(RecordRead),
}

/// What is to be done, as plain values.
pub enum ActionModel {
    Respond(ReplyModel),
    Propose(Seq<u8>),
    ReadRecord(RecordRead),
}

impl View for Action {
    type V = ActionModel;

    open spec fn view(&self) -> ActionModel {
        match self {
            Action::Respond(r) => ActionModel::Respond(r@),
            Action::Propose(data) => ActionModel::Propose(data@),
            Action::ReadRecord(read) => ActionModel::ReadRecord(*read),
        }
    }
}

/// A snapshot that is to be taken: of what, where, and what it covers.
pub struct SnapshotPlan {
    pub index: u64,
    pub data: Vec<u8>,
    pub compact_index: u64,
}

/// Where a raft message goes.
#[derive(Debug, Clone, Copy, PartialEq, Eq, Structural)]
pub enum MessageRoute {
    /// To the state machine of this very replica.
    Local,
    /// To a peer, over the transport.
    Peer { group_id: u16, target_id: u64 },
}

/// The state of an engine.
#[verifier::ext_equal]
pub struct EngineModel {
    pub shard_id: u16,
    pub node_id: u64,
    pub index: Map<(u64, u64), RecordLocation>,
    pub streams: Map<u64, StreamModel>,
    pub tail_limit: usize,
    pub request_seq: u64,
    pub pending: Map<u64, PendingClientWrite>,
    pub campaigned: bool,
    pub observed_role: Role,
    pub observed_leader_id: u64,
}

/// Every pending write holds an LSN that was taken, no two the same one, and its
/// request id was handed out.
pub open spec fn pending_wf(e: EngineModel) -> bool {
    &&& forall|id: u64| #[trigger]
        e.pending.contains_key(id) ==> {
            &&& id <= e.request_seq
            &&& e.pending[id].stream_lsn < stream_state::stream_or_fresh(
                e.streams,
                e.pending[id].stream_id,
            ).next_stream_lsn
        }
    &&& distinct_lsns(e.pending)
}

/// Whether no two pending writes hold the same LSN of a stream.
pub open spec fn distinct_lsns(pending: Map<u64, PendingClientWrite>) -> bool {
    forall|a: u64, b: u64|
        #![trigger pending.contains_key(a), pending.contains_key(b)]
        pending.contains_key(a) && pending.contains_key(b) && a != b ==> (pending[a].stream_id
            != pending[b].stream_id || pending[a].stream_lsn != pending[b].stream_lsn)
}

/// A response.
pub open spec fn reply(
    connection_id: u64,
    status: Status,
    epoch: u64,
    offset: u64,
    payload: Seq<u8>,
) -> ReplyModel {
    ReplyModel { connection_id, response: ResponseModel { status, epoch, offset, payload } }
}

/// The response of a replica that does not lead its group: it names the leader.
pub open spec fn not_leader_reply(connection_id: u64, epoch: u64, leader_id: u64) -> ReplyModel {
    reply(connection_id, Status::ErrNotLeader, epoch, leader_id, Seq::empty())
}

/// What a write comes to. One of a stale epoch is fenced off, and so is one to a
/// stream that was given up.
pub open spec fn write_outcome(
    e: EngineModel,
    connection_id: u64,
    req: RequestModel,
    raft: RaftStatus,
) -> (EngineModel, ActionModel) {
    let s = stream_state::stream_or_fresh(e.streams, req.stream_id);
    if raft.role != Role::Leader {
        (e, ActionModel::Respond(not_leader_reply(connection_id, 0, raft.leader_id)))
    } else if req.epoch < s.max_epoch || s.banned {
        (
            e,
            ActionModel::Respond(
                reply(connection_id, Status::ErrEpochFenced, s.max_epoch, 0, Seq::empty()),
            ),
        )
    } else {
        let request_id = (e.request_seq + 1) as u64;
        (
            EngineModel {
                streams: stream_state::after_allocate(e.streams, req.stream_id, req.epoch),
                request_seq: request_id,
                pending: e.pending.insert(
                    request_id,
                    PendingClientWrite {
                        connection_id,
                        stream_id: req.stream_id,
                        epoch: req.epoch,
                        stream_lsn: s.next_stream_lsn,
                    },
                ),
                ..e
            },
            ActionModel::Propose(
                command::command_bytes(
                    CommandModel {
                        request_id,
                        stream_id: req.stream_id,
                        epoch: req.epoch,
                        stream_lsn: s.next_stream_lsn,
                        payload: req.payload,
                    },
                ),
            ),
        )
    }
}

/// What a read comes to on the leader: nothing that is not committed is shown;
/// the tail cache answers first, then the log.
pub open spec fn read_outcome(
    e: EngineModel,
    connection_id: u64,
    stream_id: u64,
    stream_lsn: u64,
) -> ActionModel {
    let s = stream_state::stream_or_fresh(e.streams, stream_id);
    let tail = stream_state::tail_at(s.tail, stream_lsn);
    if e.streams.contains_key(stream_id) && stream_lsn >= s.commit_stream_lsn {
        ActionModel::Respond(
            reply(connection_id, Status::ErrNotFound, s.max_epoch, stream_lsn, Seq::empty()),
        )
    } else if tail is Some {
        ActionModel::Respond(
            reply(
                connection_id,
                Status::Success,
                s.max_epoch,
                tail->0.stream_lsn,
                tail->0.payload,
            ),
        )
    } else if e.index.contains_key((stream_id, stream_lsn)) {
        ActionModel::ReadRecord(
            RecordRead {
                connection_id,
                stream_id,
                stream_lsn,
                location: e.index[(stream_id, stream_lsn)],
            },
        )
    } else {
        ActionModel::Respond(
            reply(connection_id, Status::ErrNotFound, s.max_epoch, stream_lsn, Seq::empty()),
        )
    }
}

/// What an acknowledgement that arrives at a time comes to.
pub open spec fn ack_outcome(
    e: EngineModel,
    connection_id: u64,
    req: RequestModel,
    now_ns: u64,
) -> (EngineModel, ActionModel) {
    let s = stream_state::stream_or_fresh(e.streams, req.stream_id);
    (
        EngineModel {
            streams: stream_state::after_ack(
                stream_state::after_consume(e.streams, req.stream_id, req.offset),
                req.stream_id,
                now_ns,
            ),
            ..e
        },
        ActionModel::Respond(
            reply(
                connection_id,
                Status::Success,
                s.max_epoch,
                stream_state::max64(s.consumed_stream_lsn, req.offset),
                Seq::empty(),
            ),
        ),
    )
}

/// What a question for the positions of a stream comes to.
pub open spec fn status_outcome(
    e: EngineModel,
    connection_id: u64,
    stream_id: u64,
    raft: RaftStatus,
) -> ActionModel {
    if e.streams.contains_key(stream_id) {
        let s = e.streams[stream_id];
        ActionModel::Respond(
            reply(
                connection_id,
                Status::Success,
                s.max_epoch,
                s.next_stream_lsn,
                codec::stream_status_bytes(
                    StreamStatusPayload {
                        next_stream_lsn: s.next_stream_lsn,
                        commit_stream_lsn: s.commit_stream_lsn,
                        consumed_stream_lsn: s.consumed_stream_lsn,
                        commit_index: raft.committed,
                        last_applied: raft.applied,
                    },
                ),
            ),
        )
    } else {
        ActionModel::Respond(reply(connection_id, Status::Success, 0, 0, Seq::empty()))
    }
}

/// What a client request comes to: the state of the engine after it, and what is
/// to be done.
pub open spec fn request_outcome(
    e: EngineModel,
    connection_id: u64,
    req: RequestModel,
    raft: RaftStatus,
    now_ns: u64,
) -> (EngineModel, ActionModel) {
    match req.op {
        OpCode::Write => write_outcome(e, connection_id, req, raft),
        OpCode::Read => if raft.role != Role::Leader {
            (e, ActionModel::Respond(not_leader_reply(connection_id, 0, raft.leader_id)))
        } else {
            (e, read_outcome(e, connection_id, req.stream_id, req.offset))
        },
        OpCode::Ack => ack_outcome(e, connection_id, req, now_ns),
        OpCode::GetStatus => (e, status_outcome(e, connection_id, req.stream_id, raft)),
    }
}

/// Whether a request takes an LSN.
pub open spec fn takes_lsn(e: EngineModel, req: RequestModel, raft: RaftStatus) -> bool {
    &&& req.op == OpCode::Write
    &&& raft.role == Role::Leader
    &&& req.epoch >= stream_state::stream_or_fresh(e.streams, req.stream_id).max_epoch
    &&& !stream_state::stream_or_fresh(e.streams, req.stream_id).banned
}

/// Whether there is a request id and an LSN left for a request that takes them.
pub open spec fn has_room_for(e: EngineModel, req: RequestModel, raft: RaftStatus) -> bool {
    takes_lsn(e, req, raft) ==> {
        &&& e.request_seq < u64::MAX
        &&& stream_state::stream_or_fresh(e.streams, req.stream_id).next_stream_lsn < u64::MAX
    }
}

/// The response to a read after the log was asked: `bytes` is what stands at the
/// location of the record, if it could be read.
pub open spec fn read_reply(e: EngineModel, read: RecordRead, bytes: Option<Seq<u8>>) -> ReplyModel {
    let s = stream_state::stream_or_fresh(e.streams, read.stream_id);
    let not_found = reply(
        read.connection_id,
        Status::ErrNotFound,
        s.max_epoch,
        read.stream_lsn,
        Seq::empty(),
    );
    match bytes {
        None => not_found,
        Some(b) => match reader::read_record_from(b) {
            Ok(r) => reply(read.connection_id, Status::Success, r.term, r.stream_lsn, r.value),
            Err(_) => not_found,
        },
    }
}

/// The command that a committed entry carries, if it carries one.
pub open spec fn entry_command(kind: EntryKind, data: Seq<u8>) -> Result<
    Option<CommandModel>,
    CommandError,
> {
    if data.len() == 0 || kind != EntryKind::Normal {
        Ok(None)
    } else {
        match command::decoded_command(data) {
            Ok(cmd) => Ok(Some(cmd)),
            Err(e) => Err(e),
        }
    }
}

/// Reads the command that a committed entry carries. Empty entries and changes of
/// the group carry none.
pub fn committed_command(kind: EntryKind, data: &[u8]) -> (r: Result<
    Option<AppendCommand>,
    CommandError,
>)
    ensures
        match r {
            Ok(Some(cmd)) => entry_command(kind, data@) == Ok::<
                Option<CommandModel>,
                CommandError,
            >(Some(cmd@)),
            Ok(None) => entry_command(kind, data@) == Ok::<Option<CommandModel>, CommandError>(
                None,
            ),
            Err(e) => entry_command(kind, data@) == Err::<Option<CommandModel>, CommandError>(e),
        },
{
    if data.len() == 0 {
        return Ok(None);
    }
    if kind != EntryKind::Normal {
        return Ok(None);
    }
    match decode_append_command(data) {
        Ok(cmd) => Ok(Some(cmd)),
        Err(e) => Err(e),
    }
}

/// The state of an engine after the record of a command was written to the log.
pub open spec fn after_apply(
    e: EngineModel,
    raft_index: u64,
    cmd: CommandModel,
    location: RecordLocation,
) -> EngineModel {
    let record = TailModel {
        stream_lsn: cmd.stream_lsn,
        entry_id: raft_index,
        payload: cmd.payload,
    };
    EngineModel {
        index: e.index.insert((cmd.stream_id, cmd.stream_lsn), location),
        streams: stream_state::after_commit(
            stream_state::after_append(
                e.streams,
                e.tail_limit as nat,
                cmd.stream_id,
                cmd.epoch,
                record,
            ),
            cmd.stream_id,
            raft_index,
            cmd.stream_lsn,
        ),
        pending: e.pending.remove(cmd.request_id),
        ..e
    }
}

/// The response to a write whose command was applied, if its client waits here.
pub open spec fn applied_reply(e: EngineModel, cmd: CommandModel) -> Option<ReplyModel> {
    if e.pending.contains_key(cmd.request_id) {
        let p = e.pending[cmd.request_id];
        Some(reply(p.connection_id, Status::Success, p.epoch, p.stream_lsn, Seq::empty()))
    } else {
        None
    }
}

/// An index without the records that were consumed.
pub open spec fn unconsumed_index(
    index: Map<(u64, u64), RecordLocation>,
    streams: Map<u64, StreamModel>,
) -> Map<(u64, u64), RecordLocation> {
    index.restrict(
        Set::new(
            |k: (u64, u64)|
                k.1 >= stream_state::stream_or_fresh(streams, k.0).consumed_stream_lsn,
        ),
    )
}

/// Whether a stream lags: it was not acknowledged for longer than a limit, and it
/// holds a record that was not consumed outside the segment that is written to.
pub open spec fn is_laggard(
    e: EngineModel,
    id: u64,
    now_ns: u64,
    limit_ns: u64,
    current_segment_id: u64,
) -> bool {
    let s = stream_state::stream_or_fresh(e.streams, id);
    &&& now_ns - s.last_ack_ns > limit_ns
    &&& index::has_record_outside(e.index, id, s.consumed_stream_lsn, current_segment_id)
}

/// The streams that lag.
pub open spec fn laggard_set(
    e: EngineModel,
    now_ns: u64,
    limit_ns: u64,
    current_segment_id: u64,
) -> Set<u64> {
    Set::new(|id: u64| is_laggard(e, id, now_ns, limit_ns, current_segment_id))
}

/// An engine that watches the acknowledgements of its streams, or does not.
pub open spec fn watching(e: EngineModel, watch: bool, now_ns: u64) -> EngineModel {
    EngineModel { streams: stream_state::after_watch(e.streams, watch, now_ns), ..e }
}

/// An engine after streams were given up.
pub open spec fn after_fencing(e: EngineModel, ids: Seq<u64>) -> EngineModel {
    EngineModel { streams: stream_state::after_bans(e.streams, ids), ..e }
}

/// An engine after its index was trimmed.
pub open spec fn trimmed(e: EngineModel) -> EngineModel {
    EngineModel { index: unconsumed_index(e.index, e.streams), ..e }
}

/// Whether a segment may be removed: it is not written to, and no indexed record
/// lies in it.
pub open spec fn is_dead(
    index: Map<(u64, u64), RecordLocation>,
    current_segment_id: u64,
    segment_id: u64,
) -> bool {
    segment_id != current_segment_id && !index::live_segments(index).contains(segment_id)
}

/// Whether `a` goes before `b` when pending writes are given up: by stream, the
/// latest LSN first.
pub open spec fn goes_before(a: PendingClientWrite, b: PendingClientWrite) -> bool {
    a.stream_id < b.stream_id || (a.stream_id == b.stream_id && a.stream_lsn > b.stream_lsn)
}

/// Whether `list` holds the pending writes in the order in which they are given
/// up.
pub open spec fn lists_pending(
    pending: Map<u64, PendingClientWrite>,
    list: Seq<PendingClientWrite>,
) -> bool {
    &&& forall|i: int, j: int| 0 <= i < j < list.len() ==> goes_before(list[i], list[j])
    &&& forall|id: u64| #[trigger] pending.contains_key(id) ==> list.contains(pending[id])
    &&& forall|i: int| 0 <= i < list.len() ==> pending.contains_value(#[trigger] list[i])
}

/// The streams after the LSNs of writes were given back, in order.
pub open spec fn given_back(
    streams: Map<u64, StreamModel>,
    list: Seq<PendingClientWrite>,
) -> Map<u64, StreamModel>
    decreases list.len(),
{
    if list.len() == 0 {
        streams
    } else {
        stream_state::after_rollback(
            given_back(streams, list.drop_last()),
            list.last().stream_id,
            list.last().stream_lsn,
        )
    }
}

/// The responses to writes that are given up.
pub open spec fn given_up_replies(list: Seq<PendingClientWrite>, leader_id: u64) -> Seq<
    ReplyModel,
> {
    list.map_values(
        |p: PendingClientWrite| not_leader_reply(p.connection_id, p.epoch, leader_id),
    )
}

/// Whether a change of role or leader means that the pending writes are lost.
pub open spec fn loses_leadership(e: EngineModel, role: Role) -> bool {
    e.observed_role == Role::Leader && role != Role::Leader
}

/// Whether a snapshot is due: enough entries were applied since the last one.
pub open spec fn snapshot_is_due(applied: u64, snapshot_index: u64) -> bool {
    applied >= snapshot_index + SNAPSHOT_INTERVAL
}

/// Where a raft message to a replica goes.
pub open spec fn message_route(e: EngineModel, to: u64) -> MessageRoute {
    if to == e.node_id {
        MessageRoute::Local
    } else {
        MessageRoute::Peer { group_id: e.shard_id, target_id: to }
    }
}

/// Whether a replica is to stand for election when some nanoseconds passed since the
/// start.
pub open spec fn campaign_is_due(e: EngineModel, since_start: u128) -> bool {
    !e.campaigned && e.node_id == 1 && since_start >= CAMPAIGN_DELAY_NS
}

/// Whether the raft state machine is to be ticked when some nanoseconds passed since
/// the last time.
pub open spec fn tick_is_due(since_last_tick: u128) -> bool {
    since_last_tick >= TICK_INTERVAL_NS
}

/// Whether garbage is to be collected when some nanoseconds passed since the last time.
pub open spec fn gc_is_due(since_last_gc: u128, gc_interval_us: u64) -> bool {
    since_last_gc >= 1000 * gc_interval_us
}

/// The engine of one shard.
pub struct ShardEngine {
    shard_id: u16,
    node_id: u64,
    index: StreamLogIndex,
    streams: StreamStateTable,
    request_seq: u64,
    pending_writes: HashMap<u64, PendingClientWrite>,
    bootstrapped_campaign: bool,
    observed_role: Role,
    observed_leader_id: u64,
}

impl View for ShardEngine {
    type V = EngineModel;

    closed spec fn view(&self) -> EngineModel {
        EngineModel {
            shard_id: self.shard_id,
            node_id: self.node_id,
            index: self.index@,
            streams: self.streams@,
            tail_limit: self.streams.limit(),
            request_seq: self.request_seq,
            pending: self.pending_writes@,
            campaigned: self.bootstrapped_campaign,
            observed_role: self.observed_role,
            observed_leader_id: self.observed_leader_id,
        }
    }
}

fn respond(
    connection_id: u64,
    status: Status,
    epoch: u64,
    offset: u64,
    payload: Bytes,
) -> (r: ShardResponse)
    ensures
        r@ == reply(connection_id, status, epoch, offset, buffer::bytes_contents(payload)),
{
    ShardResponse { connection_id, response: Response { status, epoch, offset, payload } }
}

impl ShardEngine {
    /// The tables are well-formed, and so are the pending writes.
    pub closed spec fn wf(&self) -> bool {
        &&& self.streams.wf()
        &&& pending_wf(self@)
    }

    /// An engine that continues from what was recovered.
    pub fn open(
        shard_id: u16,
        node_id: u64,
        index: StreamLogIndex,
        streams: StreamStateTable,
    ) -> (e: Self)
        requires
            streams.wf(),
        ensures
            e.wf(),
            e@ == (EngineModel {
                shard_id,
                node_id,
                index: index@,
                streams: streams@,
                tail_limit: streams.limit(),
                request_seq: 0,
                pending: Map::empty(),
                campaigned: false,
                observed_role: Role::Follower,
                observed_leader_id: 0,
            }),
    {
        broadcast use vstd::std_specs::hash::group_hash_axioms;

        let e = ShardEngine {
            shard_id,
            node_id,
            index,
            streams,
            request_seq: 0,
            pending_writes: HashMap::new(),
            bootstrapped_campaign: false,
            observed_role: Role::Follower,
            observed_leader_id: 0,
        };
        assert(e@.pending =~= Map::empty());
        e
    }

    /// Decides what a client request that arrives at a time comes to.
    pub fn handle_client_request(
        &mut self,
        req: ShardRequest,
        raft: &RaftStatus,
        now_ns: u64,
    ) -> (a: Action)
        requires
            old(self).wf(),
            has_room_for(old(self)@, req.request@, *raft),
        ensures
            final(self).wf(),
            (final(self)@, a@) == request_outcome(
                old(self)@,
                req.connection_id,
                req.request@,
                *raft,
                now_ns,
            ),
    {
        broadcast use vstd::std_specs::hash::group_hash_axioms;

        let connection_id: u64 = req.connection_id;
        let request = req.request;
        match request.op {
            OpCode::Write => {
                if raft.role != Role::Leader {
                    return Action::Respond(self.not_leader(connection_id, raft.leader_id));
                }
                if self.streams.is_banned(request.stream_id) {
                    let epoch: u64 = self.streams.current_epoch(request.stream_id);
                    return Action::Respond(
                        respond(connection_id, Status::ErrEpochFenced, epoch, 0, bytes_new()),
                    );
                }
                let stream_lsn: u64 = match self.streams.allocate_append(
                    request.stream_id,
                    request.epoch,
                ) {
                    Ok(stream_lsn) => stream_lsn,
                    Err(EpochFenceError::Stale { current_epoch, request_epoch: _ }) => {
                        return Action::Respond(
                            respond(
                                connection_id,
                                Status::ErrEpochFenced,
                                current_epoch,
                                0,
                                bytes_new(),
                            ),
                        );
                    },
                };
                self.request_seq = self.request_seq + 1;
                let request_id: u64 = self.request_seq;
                let cmd = AppendCommand {
                    request_id,
                    stream_id: request.stream_id,
                    epoch: request.epoch,
                    stream_lsn,
                    payload: request.payload,
                };
                self.pending_writes.insert(
                    request_id,
                    PendingClientWrite {
                        connection_id,
                        stream_id: cmd.stream_id,
                        epoch: cmd.epoch,
                        stream_lsn: cmd.stream_lsn,
                    },
                );
                proof {
                    let e = old(self)@;
                    let after = write_outcome(e, connection_id, req.request@, *raft).0;
                    lemma_write_keeps_pending(e, connection_id, req.request@, *raft);
                    assert(self@ =~= after);
                }
                Action::Propose(encode_append_command(&cmd))
            },
            OpCode::Read => {
                if raft.role != Role::Leader {
                    return Action::Respond(self.not_leader(connection_id, raft.leader_id));
                }
                self.read_stream(connection_id, request.stream_id, request.offset)
            },
            OpCode::Ack => {
                let consumed: u64 = self.streams.advance_consumed(
                    request.stream_id,
                    request.offset,
                );
                self.streams.note_ack(request.stream_id, now_ns);
                let epoch: u64 = self.streams.current_epoch(request.stream_id);
                Action::Respond(
                    respond(connection_id, Status::Success, epoch, consumed, bytes_new()),
                )
            },
            OpCode::GetStatus => {
                match self.streams.status(request.stream_id) {
                    Some(status) => {
                        let meta = StreamStatusPayload {
                            next_stream_lsn: status.next_stream_lsn,
                            commit_stream_lsn: status.commit_stream_lsn,
                            consumed_stream_lsn: status.consumed_stream_lsn,
                            commit_index: raft.committed,
                            last_applied: raft.applied,
                        };
                        Action::Respond(
                            respond(
                                connection_id,
                                Status::Success,
                                status.max_epoch,
                                status.next_stream_lsn,
                                encode_stream_status_payload(&meta),
                            ),
                        )
                    },
                    None => Action::Respond(
                        respond(connection_id, Status::Success, 0, 0, bytes_new()),
                    ),
                }
            },
        }
    }

    /// Whether there is a request id and an LSN left for a request that takes
    /// them.
    pub fn has_room(&self, req: &ShardRequest, raft: &RaftStatus) -> (r: bool)
        requires
            self.wf(),
        ensures
            r == has_room_for(self@, req.request@, *raft),
    {
        let stream_id: u64 = req.request.stream_id;
        if req.request.op != OpCode::Write || raft.role != Role::Leader || req.request.epoch
            < self.streams.current_epoch(stream_id) || self.streams.is_banned(stream_id) {
            return true;
        }
        let next: u64 = match self.streams.status(stream_id) {
            Some(status) => status.next_stream_lsn,
            None => 0,
        };
        self.request_seq < u64::MAX && next < u64::MAX
    }

    fn not_leader(&self, connection_id: u64, leader_id: u64) -> (r: ShardResponse)
        ensures
            r@ == not_leader_reply(connection_id, 0, leader_id),
    {
        respond(connection_id, Status::ErrNotLeader, 0, leader_id, bytes_new())
    }

    /// Decides what a read comes to on the leader.
    pub fn read_stream(&self, connection_id: u64, stream_id: u64, stream_lsn: u64) -> (a: Action)
        requires
            self.wf(),
        ensures
            a@ == read_outcome(self@, connection_id, stream_id, stream_lsn),
    {
        match self.streams.status(stream_id) {
            Some(status) => {
                if stream_lsn >= status.commit_stream_lsn {
                    return Action::Respond(
                        respond(
                            connection_id,
                            Status::ErrNotFound,
                            status.max_epoch,
                            stream_lsn,
                            bytes_new(),
                        ),
                    );
                }
            },
            None => {},
        }
        let epoch: u64 = self.streams.current_epoch(stream_id);
        match self.streams.read_from_tail(stream_id, stream_lsn) {
            Some(tail) => {
                return Action::Respond(
                    respond(connection_id, Status::Success, epoch, tail.stream_lsn, tail.payload),
                );
            },
            None => {},
        }
        match locate_record(stream_id, stream_lsn, &self.index) {
            Ok(location) => Action::ReadRecord(
                RecordRead { connection_id, stream_id, stream_lsn, location },
            ),
            Err(_) => Action::Respond(
                respond(connection_id, Status::ErrNotFound, epoch, stream_lsn, bytes_new()),
            ),
        }
    }

    /// Answers a read with what stands in the log at the location of the record;
    /// `None` says that it could not be read.
    pub fn finish_read(&self, read: &RecordRead, bytes: Option<&[u8]>) -> (r: ShardResponse)
        requires
            self.wf(),
        ensures
            r@ == read_reply(
                self@,
                *read,
                match bytes {
                    Some(b) => Some(b@),
                    None => None,
                },
            ),
    {
        match bytes {
            Some(b) => {
                match read_record(b) {
                    Ok(rec) => {
                        return respond(
                            read.connection_id,
                            Status::Success,
                            rec.term,
                            rec.stream_lsn,
                            rec.value,
                        );
                    },
                    Err(_) => {},
                }
            },
            None => {},
        }
        let epoch: u64 = self.streams.current_epoch(read.stream_id);
        respond(read.connection_id, Status::ErrNotFound, epoch, read.stream_lsn, bytes_new())
    }

    /// Takes in a command whose record was written to the log. Returns the
    /// response to the client that waits for it, if one does here.
    pub fn finish_apply(
        &mut self,
        raft_index: u64,
        cmd: &AppendCommand,
        location: RecordLocation,
    ) -> (r: Option<ShardResponse>)
        requires
            old(self).wf(),
            cmd.stream_lsn < u64::MAX,
        ensures
            final(self).wf(),
            final(self)@ == after_apply(old(self)@, raft_index, cmd@, location),
            match r {
                Some(response) => applied_reply(old(self)@, cmd@) == Some(response@),
                None => applied_reply(old(self)@, cmd@) is None,
            },
    {
        broadcast use vstd::std_specs::hash::group_hash_axioms;

        self.index.insert(cmd.stream_id, cmd.stream_lsn, location);
        self.streams.mark_appended(
            cmd.stream_id,
            cmd.epoch,
            raft_index,
            cmd.stream_lsn,
            cmd.payload.clone(),
        );
        self.streams.mark_committed(cmd.stream_id, raft_index, cmd.stream_lsn);
        let waiting: Option<PendingClientWrite> = self.pending_writes.remove(&cmd.request_id);
        assert(self@.pending =~= old(self)@.pending.remove(cmd.request_id));
        assert(self@ =~= after_apply(old(self)@, raft_index, cmd@, location));
        match waiting {
            Some(p) => Some(
                respond(p.connection_id, Status::Success, p.epoch, p.stream_lsn, bytes_new()),
            ),
            None => None,
        }
    }

    /// The snapshot that is due when enough entries were applied since the last
    /// one.
    pub fn snapshot_plan(&self, applied: u64, snapshot_index: u64) -> (r: Option<SnapshotPlan>)
        requires
            self.wf(),
            snapshot_index <= u64::MAX - SNAPSHOT_INTERVAL,
            applied < u64::MAX,
        ensures
            r is Some <==> applied >= snapshot_index + SNAPSHOT_INTERVAL,
            r is Some <==> snapshot_is_due(applied, snapshot_index),
            r matches Some(plan) ==> {
                &&& plan.index == applied
                &&& plan.compact_index == applied + 1
                &&& exists|statuses: Seq<StreamStatus>| #[trigger]
                    stream_state::lists_statuses(self@.streams, statuses) && plan.data@
                        == stream_state::snapshot_bytes(statuses)
            },
    {
        if applied < snapshot_index + SNAPSHOT_INTERVAL {
            return None;
        }
        let data: Vec<u8> = self.streams.encode_snapshot();
        assert(self@.streams == self.streams@);
        Some(SnapshotPlan { index: applied, data, compact_index: applied + 1 })
    }

    /// The streams that lag, in no particular order.
    pub fn laggards(&self, now_ns: u64, limit_ns: u64, current_segment_id: u64) -> (ids: Vec<u64>)
        requires
            self.wf(),
        ensures
            keys::lists(ids@, laggard_set(self@, now_ns, limit_ns, current_segment_id)),
    {
        let streams: Vec<u64> = self.index.stream_ids();
        let ghost all = laggard_set(self@, now_ns, limit_ns, current_segment_id);
        let mut ids: Vec<u64> = Vec::new();
        let mut i: usize = 0;
        while i < streams.len()
            invariant
                i <= streams@.len(),
                self.wf(),
                keys::lists(streams@, index::indexed_streams(self@.index)),
                all == laggard_set(self@, now_ns, limit_ns, current_segment_id),
                ids@.no_duplicates(),
                forall|k: int|
                    0 <= k < ids@.len() ==> streams@.take(i as int).contains(#[trigger] ids@[k])
                        && all.contains(ids@[k]),
                forall|j: int|
                    0 <= j < i && all.contains(#[trigger] streams@[j]) ==> ids@.contains(
                        streams@[j],
                    ),
            decreases streams@.len() - i,
        {
            let id: u64 = streams[i];
            let ghost before = ids@;
            proof {
                let now = streams@.take(i as int);
                let next = streams@.take(i + 1);
                assert forall|x: u64| now.contains(x) implies next.contains(x) by {
                    let j = choose|j: int| 0 <= j < now.len() && now[j] == x;
                    assert(next[j] == x);
                }
                assert(next[i as int] == id);
                assert(!now.contains(id)) by {
                    if now.contains(id) {
                        let j = choose|j: int| 0 <= j < now.len() && now[j] == id;
                        assert(streams@[j] == streams@[i as int]);
                    }
                }
            }
            if self.lags(id, now_ns, limit_ns, current_segment_id) {
                ids.push(id);
                assert(ids@[before.len() as int] == id);
            }
            proof {
                assert forall|j: int|
                    0 <= j <= i && all.contains(#[trigger] streams@[j]) implies ids@.contains(
                    streams@[j],
                ) by {
                    if j < i {
                        let k = choose|k: int| 0 <= k < before.len() && before[k] == streams@[j];
                        assert(ids@[k] == streams@[j]);
                    }
                }
            }
            i = i + 1;
        }
        assert(ids@.to_set() =~= all) by {
            assert forall|id: u64| all.contains(id) implies ids@.to_set().contains(id) by {
                assert(index::indexed_streams(self@.index).contains(id));
                assert(streams@.to_set().contains(id));
                let j = choose|j: int| 0 <= j < streams@.len() && streams@[j] == id;
                assert(ids@.contains(streams@[j]));
            }
        }
        ids
    }

    fn lags(&self, id: u64, now_ns: u64, limit_ns: u64, current_segment_id: u64) -> (r: bool)
        requires
            self.wf(),
        ensures
            r == is_laggard(self@, id, now_ns, limit_ns, current_segment_id),
    {
        let last: u64 = self.streams.last_ack_ns(id);
        let consumed: u64 = match self.streams.status(id) {
            Some(status) => status.consumed_stream_lsn,
            None => 0,
        };
        now_ns > last && now_ns - last > limit_ns && self.index.holds_outside(
            id,
            consumed,
            current_segment_id,
        )
    }

    /// Gives up the streams that lag, so that they no longer keep segments from
    /// being removed. Clients read from the leader and acknowledge there, so only
    /// the leader watches its streams and gives up any; a stream is watched from
    /// the first call on that sees it. Returns the streams that were given up.
    pub fn fence_laggards(
        &mut self,
        role: Role,
        now_ns: u64,
        limit_ns: u64,
        current_segment_id: u64,
    ) -> (ids: Vec<u64>)
        requires
            old(self).wf(),
        ensures
            final(self).wf(),
            role != Role::Leader ==> {
                &&& ids@.len() == 0
                &&& final(self)@ == watching(old(self)@, false, now_ns)
            },
            role == Role::Leader ==> {
                let seen = watching(old(self)@, true, now_ns);
                &&& keys::lists(ids@, laggard_set(seen, now_ns, limit_ns, current_segment_id))
                &&& final(self)@ == after_fencing(seen, ids@)
            },
    {
        let watch: bool = role == Role::Leader;
        self.streams.watch_acks(watch, now_ns);
        let ghost seen = watching(old(self)@, watch, now_ns);
        assert(self@ =~= seen);
        assert(pending_wf(seen)) by {
            lemma_same_next(old(self)@, seen);
        }
        if !watch {
            return Vec::new();
        }
        let ids: Vec<u64> = self.laggards(now_ns, limit_ns, current_segment_id);
        let mut i: usize = 0;
        assert(ids@.take(0) =~= Seq::empty());
        while i < ids.len()
            invariant
                i <= ids@.len(),
                self.streams.wf(),
                pending_wf(seen),
                self@ == after_fencing(seen, ids@.take(i as int)),
            decreases ids@.len() - i,
        {
            let ghost before = self@;
            self.streams.ban_stream(ids[i]);
            proof {
                let next = ids@.take(i + 1);
                assert(next.drop_last() =~= ids@.take(i as int));
                assert(next.last() == ids@[i as int]);
                assert(self@ =~= after_fencing(seen, next));
            }
            i = i + 1;
        }
        proof {
            assert(ids@.take(i as int) =~= ids@);
            assert forall|id: u64| #[trigger]
                stream_state::stream_or_fresh(self@.streams, id).next_stream_lsn
                    == stream_state::stream_or_fresh(seen.streams, id).next_stream_lsn by {
                stream_state::law_bans_are_targeted(seen.streams, ids@, id);
            }
            lemma_same_next(seen, self@);
        }
        ids
    }

    /// Drops the records that were consumed from the index.
    pub fn trim_index(&mut self)
        requires
            old(self).wf(),
        ensures
            final(self).wf(),
            final(self)@ == trimmed(old(self)@),
    {
        let statuses: Vec<StreamStatus> = self.streams.all_statuses();
        let ghost before = self@;
        let ghost all = statuses@;
        let mut i: usize = 0;
        while i < statuses.len()
            invariant
                i <= statuses@.len(),
                all == statuses@,
                stream_state::lists_statuses(before.streams, all),
                self.streams.wf(),
                pending_wf(before),
                self@ == (EngineModel { index: self@.index, ..before }),
                self@.index == before.index.restrict(
                    Set::new(
                        |k: (u64, u64)|
                            stream_state::status_ids(all.take(i as int)).contains(k.0) ==> k.1
                                >= before.streams[k.0].consumed_stream_lsn,
                    ),
                ),
            decreases statuses@.len() - i,
        {
            let status: StreamStatus = statuses[i];
            let ghost index = self@.index;
            let ghost done = stream_state::status_ids(all.take(i as int));
            let ghost next = stream_state::status_ids(all.take(i + 1));
            proof {
                let ids = stream_state::status_ids(all);
                assert(ids[i as int] == status.stream_id);
                assert(next =~= done.push(status.stream_id));
                assert(all[i as int] == status);
                assert(!done.contains(status.stream_id)) by {
                    assert forall|j: int| 0 <= j < done.len() implies done[j]
                        != status.stream_id by {
                        assert(ids[j] == done[j]);
                        assert(ids[j] != ids[i as int]);
                    }
                }
                assert forall|id: u64| next.contains(id) <==> done.contains(id) || id
                    == status.stream_id by {
                    if done.contains(id) {
                        let j = choose|j: int| 0 <= j < done.len() && done[j] == id;
                        assert(next[j] == id);
                    }
                    assert(next[i as int] == status.stream_id);
                }
            }
            if status.consumed_stream_lsn > 0 {
                self.index.truncate_stream_before(status.stream_id, status.consumed_stream_lsn);
            }
            assert(self@.index =~= before.index.restrict(
                Set::new(
                    |k: (u64, u64)|
                        next.contains(k.0) ==> k.1 >= before.streams[k.0].consumed_stream_lsn,
                ),
            ));
            i = i + 1;
        }
        proof {
            assert(all.take(i as int) =~= all);
            let ids = stream_state::status_ids(all);
            assert forall|id: u64| ids.contains(id) <==> before.streams.contains_key(id) by {
                assert(ids.contains(id) <==> ids.to_set().contains(id));
            }
            assert(self@.index =~= unconsumed_index(before.index, before.streams));
        }
    }

    /// The segment files of this shard that may be removed, given the file names
    /// of its directory and the segment that is written to: ids, ascending, each
    /// with the position of its file in `names`.
    pub fn dead_segments(&self, names: &Vec<String>, current_segment_id: u64) -> (dead: Vec<
        (u64, usize),
    >)
        ensures
            order::ordered(dead@),
            forall|k: int|
                0 <= k < dead@.len() ==> (#[trigger] dead@[k]).1 < names@.len()
                    && segment::listed_segment(names@, self@.shard_id, dead@[k].1 as int) == Some(
                    dead@[k].0,
                ) && is_dead(self@.index, current_segment_id, dead@[k].0),
            forall|i: int|
                0 <= i < names@.len() ==> ((#[trigger] segment::listed_segment(
                    names@,
                    self@.shard_id,
                    i,
                )) matches Some(segment_id) ==> is_dead(
                    self@.index,
                    current_segment_id,
                    segment_id,
                ) ==> dead@.contains((segment_id, i as usize))),
    {
        broadcast use vstd::std_specs::hash::group_hash_axioms;

        let live: HashSet<u64> = self.index.live_segment_ids();
        let segments: Vec<(u64, usize)> = list_segments(names, self.shard_id);
        let mut dead: Vec<(u64, usize)> = Vec::new();
        let mut i: usize = 0;
        while i < segments.len()
            invariant
                i <= segments@.len(),
                live@ == index::live_segments(self@.index),
                order::ordered(segments@),
                order::ordered(dead@),
                forall|k: int|
                    0 <= k < dead@.len() ==> segments@.take(i as int).contains(#[trigger] dead@[k])
                        && is_dead(self@.index, current_segment_id, dead@[k].0),
                forall|k: int|
                    0 <= k < i && is_dead(
                        self@.index,
                        current_segment_id,
                        (#[trigger] segments@[k]).0,
                    ) ==> dead@.contains(segments@[k]),
            decreases segments@.len() - i,
        {
            let (segment_id, at): (u64, usize) = segments[i];
            let ghost before = dead@;
            proof {
                let now = segments@.take(i as int);
                let next = segments@.take(i + 1);
                assert forall|x: (u64, usize)| now.contains(x) implies next.contains(x) by {
                    let j = choose|j: int| 0 <= j < now.len() && now[j] == x;
                    assert(next[j] == x);
                }
                assert(next[i as int] == segments@[i as int]);
            }
            if segment_id != current_segment_id && !live.contains(&segment_id) {
                dead.push((segment_id, at));
                proof {
                    assert forall|a: int, b: int| 0 <= a < b < dead@.len() implies (dead@[a].0
                        < dead@[b].0 || (dead@[a].0 == dead@[b].0 && dead@[a].1 < dead@[b].1)) by {
                        if b == before.len() {
                            assert(segments@.take(i as int).contains(before[a]));
                            let j = choose|j: int|
                                0 <= j < i && segments@.take(i as int)[j] == before[a];
                            assert(segments@[j] == before[a]);
                        }
                    }
                    assert(dead@[before.len() as int] == segments@[i as int]);
                }
            }
            proof {
                assert forall|k: int|
                    0 <= k <= i && is_dead(
                        self@.index,
                        current_segment_id,
                        (#[trigger] segments@[k]).0,
                    ) implies dead@.contains(segments@[k]) by {
                    if k < i {
                        let j = choose|j: int| 0 <= j < before.len() && before[j] == segments@[k];
                        assert(dead@[j] == segments@[k]);
                    }
                }
            }
            i = i + 1;
        }
        proof {
            assert(segments@.take(i as int) =~= segments@);
            assert forall|k: int| 0 <= k < names@.len() implies ((
            #[trigger] segment::listed_segment(names@, self@.shard_id, k)) matches Some(
                segment_id,
            ) ==> is_dead(self@.index, current_segment_id, segment_id) ==> dead@.contains(
                (segment_id, k as usize),
            )) by {
                let found = segment::listed_segment(names@, self@.shard_id, k);
                if found is Some && is_dead(self@.index, current_segment_id, found->0) {
                    assert(segments@.contains((found->0, k as usize)));
                    let j = choose|j: int|
                        0 <= j < segments@.len() && segments@[j] == (found->0, k as usize);
                    assert(dead@.contains(segments@[j]));
                }
            }
            assert forall|k: int| 0 <= k < dead@.len() implies (#[trigger] dead@[k]).1
                < names@.len() && segment::listed_segment(
                names@,
                self@.shard_id,
                dead@[k].1 as int,
            ) == Some(dead@[k].0) by {
                assert(segments@.contains(dead@[k]));
                let j = choose|j: int| 0 <= j < segments@.len() && segments@[j] == dead@[k];
                assert(segments@[j].1 < names@.len());
            }
        }
        dead
    }

    /// Takes note of the role and the leader. A leader that steps down gives its
    /// pending writes up: their LSNs go back, and their clients are told who
    /// leads. Returns the responses.
    pub fn log_raft_state_if_changed(&mut self, role: Role, leader_id: u64) -> (replies: Vec<
        ShardResponse,
    >)
        requires
            old(self).wf(),
        ensures
            final(self).wf(),
            !loses_leadership(old(self)@, role) ==> {
                &&& replies@.len() == 0
                &&& final(self)@ == (EngineModel {
                    observed_role: role,
                    observed_leader_id: leader_id,
                    ..old(self)@
                })
            },
            loses_leadership(old(self)@, role) ==> exists|list: Seq<PendingClientWrite>|
                #[trigger] lists_pending(old(self)@.pending, list) && channel::reply_models(
                    replies@,
                ) == given_up_replies(list, leader_id) && final(self)@ == (EngineModel {
                    streams: given_back(old(self)@.streams, list),
                    pending: Map::empty(),
                    observed_role: role,
                    observed_leader_id: leader_id,
                    ..old(self)@
                }),
    {
        let mut replies: Vec<ShardResponse> = Vec::new();
        if role != self.observed_role || leader_id != self.observed_leader_id {
            if self.observed_role == Role::Leader && role != Role::Leader {
                replies = self.fail_pending_writes_not_leader(leader_id);
            }
            self.observed_role = role;
            self.observed_leader_id = leader_id;
        }
        replies
    }

    /// Gives the pending writes up: by stream, the latest LSN first.
    fn fail_pending_writes_not_leader(&mut self, leader_id: u64) -> (replies: Vec<ShardResponse>)
        requires
            old(self).wf(),
        ensures
            final(self).wf(),
            exists|list: Seq<PendingClientWrite>| #[trigger]
                lists_pending(old(self)@.pending, list) && channel::reply_models(replies@)
                    == given_up_replies(list, leader_id) && final(self)@ == (EngineModel {
                    streams: given_back(old(self)@.streams, list),
                    pending: Map::empty(),
                    ..old(self)@
                }),
    {
        broadcast use vstd::std_specs::hash::group_hash_axioms;

        assert(self@.pending == self.pending_writes@);
        let list: Vec<PendingClientWrite> = sorted_pending(&self.pending_writes);
        self.pending_writes.clear();
        let mut replies: Vec<ShardResponse> = Vec::new();
        let ghost all = list@;
        let ghost streams = self.streams@;
        let ghost limit = self.streams.limit();
        let mut i: usize = 0;
        assert(all.take(0) =~= Seq::empty());
        assert(channel::reply_models(replies@) =~= given_up_replies(all.take(0), leader_id));
        while i < list.len()
            invariant
                i <= list@.len(),
                all == list@,
                self.streams.wf(),
                self.streams.limit() == limit,
                self.streams@ == given_back(streams, all.take(i as int)),
                self.shard_id == old(self).shard_id,
                self.node_id == old(self).node_id,
                self.index == old(self).index,
                self.request_seq == old(self).request_seq,
                self.pending_writes@ == Map::<u64, PendingClientWrite>::empty(),
                self.bootstrapped_campaign == old(self).bootstrapped_campaign,
                self.observed_role == old(self).observed_role,
                self.observed_leader_id == old(self).observed_leader_id,
                channel::reply_models(replies@) == given_up_replies(
                    all.take(i as int),
                    leader_id,
                ),
            decreases list@.len() - i,
        {
            let p: PendingClientWrite = list[i];
            self.streams.rollback_uncommitted_append(p.stream_id, p.stream_lsn);
            let ghost before = channel::reply_models(replies@);
            let r: ShardResponse = respond(
                p.connection_id,
                Status::ErrNotLeader,
                p.epoch,
                leader_id,
                bytes_new(),
            );
            replies.push(r);
            proof {
                let next = all.take(i + 1);
                assert(next.drop_last() =~= all.take(i as int));
                assert(channel::reply_models(replies@) =~= before.push(r@));
                assert(given_up_replies(next, leader_id) =~= given_up_replies(
                    all.take(i as int),
                    leader_id,
                ).push(r@));
            }
            i = i + 1;
        }
        assert(all.take(i as int) =~= all);
        assert(self@ =~= EngineModel {
            streams: given_back(old(self)@.streams, all),
            pending: Map::empty(),
            ..old(self)@
        });
        replies
    }

    /// Whether the raft state machine is to be ticked.
    pub fn tick_due(&self, since_last_tick: Duration) -> (r: bool)
        ensures
            r == (clock::nanos_of(since_last_tick) >= TICK_INTERVAL_NS),
            r == tick_is_due(clock::nanos_of(since_last_tick)),
    {
        duration_nanos(since_last_tick) >= TICK_INTERVAL_NS as u128
    }

    /// Whether this replica is to stand for election: the first one does so once,
    /// some time after the start.
    pub fn campaign_due(&self, since_start: Duration) -> (r: bool)
        ensures
            r == (!self@.campaigned && self@.node_id == 1 && clock::nanos_of(since_start)
                >= CAMPAIGN_DELAY_NS),
            r == campaign_is_due(self@, clock::nanos_of(since_start)),
    {
        !self.bootstrapped_campaign && self.node_id == 1 && duration_nanos(since_start)
            >= CAMPAIGN_DELAY_NS as u128
    }

    /// Takes note that this replica stood for election.
    pub fn note_campaign(&mut self)
        requires
            old(self).wf(),
        ensures
            final(self).wf(),
            final(self)@ == (EngineModel { campaigned: true, ..old(self)@ }),
    {
        self.bootstrapped_campaign = true;
    }

    /// Whether garbage is to be collected.
    pub fn gc_due(&self, since_last_gc: Duration, gc_interval_us: u64) -> (r: bool)
        ensures
            r == (clock::nanos_of(since_last_gc) >= 1000 * gc_interval_us),
            r == gc_is_due(clock::nanos_of(since_last_gc), gc_interval_us),
    {
        duration_nanos(since_last_gc) >= 1000 * gc_interval_us as u128
    }

    /// Where a raft message to a replica goes.
    pub fn route_message(&self, to: u64) -> (r: MessageRoute)
        ensures
            r == (if to == self@.node_id {
                MessageRoute::Local
            } else {
                MessageRoute::Peer { group_id: self@.shard_id, target_id: to }
            }),
            r == message_route(self@, to),
    {
        if to == self.node_id {
            MessageRoute::Local
        } else {
            MessageRoute::Peer { group_id: self.shard_id, target_id: to }
        }
    }
}

/// How many entries are applied between two snapshots.
pub const SNAPSHOT_INTERVAL: u64 = 64;

/// The time between two ticks of the raft state machine: 100 ms.
pub const TICK_INTERVAL_NS: u64 = 100_000_000;

/// The time after which the first replica stands for election: 1500 ms.
pub const CAMPAIGN_DELAY_NS: u64 = 1_500_000_000;

/// The pending writes in the order in which they are given up.
fn sorted_pending(pending: &HashMap<u64, PendingClientWrite>) -> (list: Vec<PendingClientWrite>)
    requires
        distinct_lsns(pending@),
    ensures
        lists_pending(pending@, list@),
{
    broadcast use vstd::std_specs::hash::group_hash_axioms;

    let ids: Vec<u64> = hash_keys(pending);
    let mut list: Vec<PendingClientWrite> = Vec::new();
    let mut i: usize = 0;
    while i < ids.len()
        invariant
            i <= ids@.len(),
            keys::lists(ids@, pending@.dom()),
            distinct_lsns(pending@),
            forall|x: int, y: int| 0 <= x < y < list@.len() ==> goes_before(list@[x], list@[y]),
            forall|j: int| 0 <= j < i ==> list@.contains(pending@[#[trigger] ids@[j]]),
            forall|k: int|
                0 <= k < list@.len() ==> exists|j: int|
                    0 <= j < i && pending@[#[trigger] ids@[j]] == #[trigger] list@[k],
        decreases ids@.len() - i,
    {
        assert(ids@.to_set().contains(ids@[i as int]));
        match pending.get(&ids[i]) {
            Some(found) => {
                let p: PendingClientWrite = *found;
                let ghost before = list@;
                let mut at: usize = list.len();
                while at > 0 && (p.stream_id < list[at - 1].stream_id || (p.stream_id == list[at
                    - 1].stream_id && p.stream_lsn > list[at - 1].stream_lsn))
                    invariant
                        at <= list@.len(),
                        list@ == before,
                        forall|k: int| at <= k < before.len() ==> goes_before(p, before[k]),
                    decreases at,
                {
                    at = at - 1;
                }
                proof {
                    if at > 0 {
                        let j = choose|j: int|
                            0 <= j < i && pending@[#[trigger] ids@[j]] == before[at - 1];
                        assert(ids@.to_set().contains(ids@[j]));
                        assert(pending@.contains_key(ids@[j]) && pending@.contains_key(
                            ids@[i as int],
                        ));
                        assert(goes_before(before[at - 1], p));
                    }
                }
                list.insert(at, p);
                proof {
                    lemma_insert_pending(before, at as int, p);
                    assert(list@[at as int] == p);
                    assert forall|j: int| 0 <= j <= i implies list@.contains(
                        pending@[#[trigger] ids@[j]],
                    ) by {
                        if j < i {
                            let k = choose|k: int|
                                0 <= k < before.len() && before[k] == pending@[ids@[j]];
                            assert(list@[k] == before[k] || list@[k + 1] == before[k]);
                        }
                    }
                    assert forall|k: int| 0 <= k < list@.len() implies exists|j: int|
                        0 <= j <= i && pending@[#[trigger] ids@[j]] == #[trigger] list@[k] by {
                        if k == at {
                            assert(pending@[ids@[i as int]] == list@[k]);
                        } else {
                            let k0 = if k < at {
                                k
                            } else {
                                k - 1
                            };
                            assert(list@[k] == before[k0]);
                            let j = choose|j: int|
                                0 <= j < i && pending@[#[trigger] ids@[j]] == before[k0];
                            assert(pending@[ids@[j]] == list@[k]);
                        }
                    }
                }
            },
            None => {},
        }
        i = i + 1;
    }
    proof {
        assert forall|id: u64| #[trigger] pending@.contains_key(id) implies list@.contains(
            pending@[id],
        ) by {
            assert(ids@.to_set().contains(id));
            let j = choose|j: int| 0 <= j < ids@.len() && ids@[j] == id;
            assert(list@.contains(pending@[ids@[j]]));
        }
        assert forall|k: int| 0 <= k < list@.len() implies pending@.contains_value(
            #[trigger] list@[k],
        ) by {
            let j = choose|j: int|
                0 <= j < ids@.len() && pending@[#[trigger] ids@[j]] == list@[k];
            assert(ids@.to_set().contains(ids@[j]));
            assert(pending@.dom().contains(ids@[j]));
        }
    }
    list
}

proof fn lemma_same_next(a: EngineModel, b: EngineModel)
    requires
        pending_wf(a),
        a.pending == b.pending,
        a.request_seq == b.request_seq,
        forall|id: u64| #[trigger]
            stream_state::stream_or_fresh(b.streams, id).next_stream_lsn
                == stream_state::stream_or_fresh(a.streams, id).next_stream_lsn,
    ensures
        pending_wf(b),
{
    assert forall|id: u64| #[trigger] b.pending.contains_key(id) implies id <= b.request_seq
        && b.pending[id].stream_lsn < stream_state::stream_or_fresh(
        b.streams,
        b.pending[id].stream_id,
    ).next_stream_lsn by {
        assert(a.pending.contains_key(id));
    }
}

proof fn lemma_write_keeps_pending(
    e: EngineModel,
    connection_id: u64,
    req: RequestModel,
    raft: RaftStatus,
)
    requires
        pending_wf(e),
        takes_lsn(e, req, raft),
        e.request_seq < u64::MAX,
        stream_state::stream_or_fresh(e.streams, req.stream_id).next_stream_lsn < u64::MAX,
    ensures
        pending_wf(write_outcome(e, connection_id, req, raft).0),
{
    let t = write_outcome(e, connection_id, req, raft).0;
    let new_id = t.request_seq;
    assert forall|id: u64| #[trigger] t.pending.contains_key(id) implies id <= t.request_seq
        && t.pending[id].stream_lsn < stream_state::stream_or_fresh(
        t.streams,
        t.pending[id].stream_id,
    ).next_stream_lsn by {
        if id != new_id {
            assert(e.pending.contains_key(id));
        }
    }
    assert forall|a: u64, b: u64|
        #![trigger t.pending.contains_key(a), t.pending.contains_key(b)]
        t.pending.contains_key(a) && t.pending.contains_key(b) && a != b implies (
    t.pending[a].stream_id != t.pending[b].stream_id || t.pending[a].stream_lsn
        != t.pending[b].stream_lsn) by {
        if a != new_id {
            assert(e.pending.contains_key(a));
        }
        if b != new_id {
            assert(e.pending.contains_key(b));
        }
    }
}

proof fn lemma_insert_pending(s: Seq<PendingClientWrite>, at: int, p: PendingClientWrite)
    requires
        0 <= at <= s.len(),
        forall|x: int, y: int| 0 <= x < y < s.len() ==> goes_before(s[x], s[y]),
        forall|k: int| at <= k < s.len() ==> goes_before(p, s[k]),
        at > 0 ==> goes_before(s[at - 1], p),
    ensures
        forall|x: int, y: int|
            0 <= x < y < s.insert(at, p).len() ==> goes_before(
                s.insert(at, p)[x],
                s.insert(at, p)[y],
            ),
{
    let t = s.insert(at, p);
    assert forall|x: int, y: int| 0 <= x < y < t.len() implies goes_before(t[x], t[y]) by {
        let a = if x < at {
            x
        } else {
            x - 1
        };
        let b = if y < at {
            y
        } else {
            y - 1
        };
        if x == at {
            assert(t[y] == s[b]);
        } else if y == at {
            assert(t[x] == s[x]);
            if x < at - 1 {
                assert(goes_before(s[x], s[at - 1]));
            }
        } else {
            assert(t[x] == s[a] && t[y] == s[b]);
        }
    }
}

/// A write of an epoch below the highest one seen is refused: the client is told
/// the epoch, and nothing changes.
pub proof fn law_stale_write_is_refused(
    e: EngineModel,
    connection_id: u64,
    req: RequestModel,
    raft: RaftStatus,
    now_ns: u64,
)
    requires
        req.op == OpCode::Write,
        raft.role == Role::Leader,
        req.epoch < stream_state::stream_or_fresh(e.streams, req.stream_id).max_epoch,
    ensures
        request_outcome(e, connection_id, req, raft, now_ns) == (
            e,
            ActionModel::Respond(
                reply(
                    connection_id,
                    Status::ErrEpochFenced,
                    stream_state::stream_or_fresh(e.streams, req.stream_id).max_epoch,
                    0,
                    Seq::empty(),
                ),
            ),
        ),
{
}

/// A write to a stream that was given up is refused, whatever its epoch, and
/// nothing changes.
pub proof fn law_banned_write_is_refused(
    e: EngineModel,
    connection_id: u64,
    req: RequestModel,
    raft: RaftStatus,
    now_ns: u64,
)
    requires
        req.op == OpCode::Write,
        raft.role == Role::Leader,
        stream_state::stream_or_fresh(e.streams, req.stream_id).banned,
    ensures
        request_outcome(e, connection_id, req, raft, now_ns) == (
            e,
            ActionModel::Respond(
                reply(
                    connection_id,
                    Status::ErrEpochFenced,
                    stream_state::stream_or_fresh(e.streams, req.stream_id).max_epoch,
                    0,
                    Seq::empty(),
                ),
            ),
        ),
{
}

/// Applying a command keeps the fence of every stream up and raises that of its
/// own stream to its epoch: a write of a lower epoch is refused afterwards, and
/// changes nothing.
pub proof fn law_fence_holds_after_apply(
    e: EngineModel,
    raft_index: u64,
    cmd: CommandModel,
    location: RecordLocation,
    connection_id: u64,
    req: RequestModel,
    raft: RaftStatus,
    now_ns: u64,
)
    requires
        req.op == OpCode::Write,
        raft.role == Role::Leader,
        req.epoch < stream_state::stream_or_fresh(e.streams, req.stream_id).max_epoch
            || req.stream_id == cmd.stream_id && req.epoch < cmd.epoch,
    ensures
        request_outcome(
            after_apply(e, raft_index, cmd, location),
            connection_id,
            req,
            raft,
            now_ns,
        ).0 == after_apply(e, raft_index, cmd, location),
        request_outcome(
            after_apply(e, raft_index, cmd, location),
            connection_id,
            req,
            raft,
            now_ns,
        ).1 matches ActionModel::Respond(r) && r.response.status == Status::ErrEpochFenced,
{
}

/// A replica that does not lead answers reads and writes with the leader, and
/// nothing changes.
pub proof fn law_follower_names_the_leader(
    e: EngineModel,
    connection_id: u64,
    req: RequestModel,
    raft: RaftStatus,
    now_ns: u64,
)
    requires
        req.op == OpCode::Write || req.op == OpCode::Read,
        raft.role != Role::Leader,
    ensures
        request_outcome(e, connection_id, req, raft, now_ns) == (
            e,
            ActionModel::Respond(
                reply(connection_id, Status::ErrNotLeader, 0, raft.leader_id, Seq::empty()),
            ),
        ),
{
}

/// The LSN that a write takes is not readable before the write is committed.
pub proof fn law_uncommitted_write_is_invisible(
    e: EngineModel,
    connection_id: u64,
    req: RequestModel,
    raft: RaftStatus,
    now_ns: u64,
    reader_id: u64,
)
    requires
        takes_lsn(e, req, raft),
        stream_state::stream_or_fresh(e.streams, req.stream_id).commit_stream_lsn
            <= stream_state::stream_or_fresh(e.streams, req.stream_id).next_stream_lsn,
    ensures
        ({
            let after = request_outcome(e, connection_id, req, raft, now_ns).0;
            let lsn = stream_state::stream_or_fresh(e.streams, req.stream_id).next_stream_lsn;
            read_outcome(after, reader_id, req.stream_id, lsn) matches ActionModel::Respond(r)
                && r.response.status == Status::ErrNotFound
        }),
{
}

/// The command that a write proposes is the one that its entry carries when it
/// comes back committed, and the client that waits for it is found by its request
/// id. The length of a payload is a 32-bit number in a command.
pub proof fn law_proposed_write_finds_its_client(
    e: EngineModel,
    connection_id: u64,
    req: RequestModel,
    raft: RaftStatus,
    now_ns: u64,
)
    requires
        takes_lsn(e, req, raft),
        req.payload.len() <= u32::MAX,
    ensures
        ({
            let (after, action) = request_outcome(e, connection_id, req, raft, now_ns);
            let lsn = stream_state::stream_or_fresh(e.streams, req.stream_id).next_stream_lsn;
            &&& action matches ActionModel::Propose(data) && {
                &&& entry_command(EntryKind::Normal, data) matches Ok(Some(cmd)) && {
                    &&& cmd.stream_id == req.stream_id
                    &&& cmd.epoch == req.epoch
                    &&& cmd.stream_lsn == lsn
                    &&& cmd.payload == req.payload
                    &&& after.pending.contains_key(cmd.request_id)
                    &&& after.pending[cmd.request_id] == PendingClientWrite {
                        connection_id,
                        stream_id: req.stream_id,
                        epoch: req.epoch,
                        stream_lsn: lsn,
                    }
                }
            }
        }),
{
    let cmd = CommandModel {
        request_id: (e.request_seq + 1) as u64,
        stream_id: req.stream_id,
        epoch: req.epoch,
        stream_lsn: stream_state::stream_or_fresh(e.streams, req.stream_id).next_stream_lsn,
        payload: req.payload,
    };
    command::law_command_roundtrip(cmd);
}

/// A read of a record that was applied gives its payload from the tail cache, if
/// the cache may hold a record and held none at that LSN; if the cache holds none
/// afterwards, the log is asked where the record was written.
pub proof fn law_applied_write_is_read_back(
    e: EngineModel,
    raft_index: u64,
    cmd: CommandModel,
    location: RecordLocation,
    connection_id: u64,
)
    requires
        cmd.stream_lsn < u64::MAX,
    ensures
        ({
            let after = after_apply(e, raft_index, cmd, location);
            let s = stream_state::stream_or_fresh(e.streams, cmd.stream_id);
            let t = stream_state::stream_or_fresh(after.streams, cmd.stream_id);
            &&& e.tail_limit > 0 && stream_state::tail_at(s.tail, cmd.stream_lsn) is None
                ==> read_outcome(after, connection_id, cmd.stream_id, cmd.stream_lsn)
                == ActionModel::Respond(
                reply(connection_id, Status::Success, t.max_epoch, cmd.stream_lsn, cmd.payload),
            )
            &&& stream_state::tail_at(t.tail, cmd.stream_lsn) is None ==> read_outcome(
                after,
                connection_id,
                cmd.stream_id,
                cmd.stream_lsn,
            ) == ActionModel::ReadRecord(
                RecordRead {
                    connection_id,
                    stream_id: cmd.stream_id,
                    stream_lsn: cmd.stream_lsn,
                    location,
                },
            )
        }),
{
    let s = stream_state::stream_or_fresh(e.streams, cmd.stream_id);
    let record = TailModel {
        stream_lsn: cmd.stream_lsn,
        entry_id: raft_index,
        payload: cmd.payload,
    };
    if e.tail_limit > 0 && stream_state::tail_at(s.tail, cmd.stream_lsn) is None {
        stream_state::law_append_is_read_back(
            e.streams,
            e.tail_limit as nat,
            cmd.stream_id,
            cmd.epoch,
            record,
        );
    }
}

/// Collecting garbage keeps every record that was not consumed of every stream
/// that is not given up: when some streams are given up and the index is trimmed,
/// the record stays indexed where it was, and the segment that it lies in is not
/// dead; nor is the segment that is written to.
pub proof fn law_gc_keeps_unconsumed_records(
    e: EngineModel,
    ids: Seq<u64>,
    current_segment_id: u64,
    stream_id: u64,
    stream_lsn: u64,
)
    requires
        !ids.contains(stream_id),
        e.index.contains_key((stream_id, stream_lsn)),
        stream_lsn >= stream_state::stream_or_fresh(e.streams, stream_id).consumed_stream_lsn,
    ensures
        ({
            let kept = trimmed(after_fencing(e, ids)).index;
            let key = (stream_id, stream_lsn);
            &&& kept.contains_key(key)
            &&& kept[key] == e.index[key]
            &&& !is_dead(kept, current_segment_id, e.index[key].segment_id)
            &&& !is_dead(kept, current_segment_id, current_segment_id)
        }),
{
    stream_state::law_bans_are_targeted(e.streams, ids, stream_id);
    let kept = trimmed(after_fencing(e, ids)).index;
    let key = (stream_id, stream_lsn);
    assert(kept.contains_key(key) && kept[key].segment_id == e.index[key].segment_id);
}

/// A laggard does not keep segments from being removed: when all streams that lag
/// are given up and the index is trimmed, a segment in which only they had records
/// that were not consumed is dead.
pub proof fn law_laggards_keep_no_segment(
    e: EngineModel,
    ids: Seq<u64>,
    now_ns: u64,
    limit_ns: u64,
    current_segment_id: u64,
    segment_id: u64,
)
    requires
        writer::index_in_bounds(e.index, e.streams),
        keys::lists(ids, laggard_set(e, now_ns, limit_ns, current_segment_id)),
        segment_id != current_segment_id,
        forall|k: (u64, u64)| #[trigger]
            e.index.contains_key(k) && e.index[k].segment_id == segment_id && k.1
                >= stream_state::stream_or_fresh(e.streams, k.0).consumed_stream_lsn
                ==> is_laggard(e, k.0, now_ns, limit_ns, current_segment_id),
    ensures
        is_dead(trimmed(after_fencing(e, ids)).index, current_segment_id, segment_id),
{
    let after = trimmed(after_fencing(e, ids));
    assert forall|k: (u64, u64)| #[trigger] after.index.contains_key(k) implies after.index[k].segment_id
        != segment_id by {
        stream_state::law_bans_are_targeted(e.streams, ids, k.0);
        assert(e.index.contains_key(k));
        if e.index[k].segment_id == segment_id && is_laggard(
            e,
            k.0,
            now_ns,
            limit_ns,
            current_segment_id,
        ) {
            assert(laggard_set(e, now_ns, limit_ns, current_segment_id).contains(k.0));
            assert(ids.to_set().contains(k.0));
        }
    }
}

/// A stream that lags alone in a segment is given up as soon as it was not
/// acknowledged for longer than the limit: it is fenced off, its records count as
/// consumed, and the segment is dead once the index is trimmed.
pub proof fn law_zombie_stream_is_removed(
    e: EngineModel,
    ids: Seq<u64>,
    now_ns: u64,
    limit_ns: u64,
    current_segment_id: u64,
    segment_id: u64,
    stream_id: u64,
    stream_lsn: u64,
    connection_id: u64,
    req: RequestModel,
    raft: RaftStatus,
)
    requires
        writer::index_in_bounds(e.index, e.streams),
        keys::lists(ids, laggard_set(e, now_ns, limit_ns, current_segment_id)),
        segment_id != current_segment_id,
        now_ns - stream_state::stream_or_fresh(e.streams, stream_id).last_ack_ns > limit_ns,
        e.index.contains_key((stream_id, stream_lsn)),
        e.index[(stream_id, stream_lsn)].segment_id == segment_id,
        stream_lsn >= stream_state::stream_or_fresh(e.streams, stream_id).consumed_stream_lsn,
        forall|k: (u64, u64)| #[trigger]
            e.index.contains_key(k) && e.index[k].segment_id == segment_id && k.1
                >= stream_state::stream_or_fresh(e.streams, k.0).consumed_stream_lsn ==> k.0
                == stream_id,
        req.op == OpCode::Write,
        req.stream_id == stream_id,
        raft.role == Role::Leader,
    ensures
        ({
            let after = after_fencing(e, ids);
            let s = stream_state::stream_or_fresh(after.streams, stream_id);
            &&& s.banned
            &&& s.consumed_stream_lsn > stream_lsn
            &&& is_dead(trimmed(after).index, current_segment_id, segment_id)
            &&& request_outcome(after, connection_id, req, raft, now_ns) == (
                after,
                ActionModel::Respond(
                    reply(connection_id, Status::ErrEpochFenced, s.max_epoch, 0, Seq::empty()),
                ),
            )
        }),
{
    assert(is_laggard(e, stream_id, now_ns, limit_ns, current_segment_id));
    assert(laggard_set(e, now_ns, limit_ns, current_segment_id).contains(stream_id));
    assert(ids.to_set().contains(stream_id));
    stream_state::law_bans_are_targeted(e.streams, ids, stream_id);
    assert forall|k: (u64, u64)| #[trigger]
        e.index.contains_key(k) && e.index[k].segment_id == segment_id && k.1
            >= stream_state::stream_or_fresh(
            e.streams,
            k.0,
        ).consumed_stream_lsn implies is_laggard(
        e,
        k.0,
        now_ns,
        limit_ns,
        current_segment_id,
    ) by {
        assert(k.0 == stream_id);
    }
    law_laggards_keep_no_segment(
        e,
        ids,
        now_ns,
        limit_ns,
        current_segment_id,
        segment_id,
    );
}

/// A stream that was acknowledged within the limit is not given up.
pub proof fn law_live_stream_is_not_given_up(
    e: EngineModel,
    ids: Seq<u64>,
    now_ns: u64,
    limit_ns: u64,
    current_segment_id: u64,
    stream_id: u64,
)
    requires
        keys::lists(ids, laggard_set(e, now_ns, limit_ns, current_segment_id)),
        now_ns - stream_state::stream_or_fresh(e.streams, stream_id).last_ack_ns <= limit_ns,
    ensures
        stream_state::stream_or_fresh(after_fencing(e, ids).streams, stream_id)
            == stream_state::stream_or_fresh(e.streams, stream_id),
{
    stream_state::law_bans_are_targeted(e.streams, ids, stream_id);
    if ids.contains(stream_id) {
        assert(ids.to_set().contains(stream_id));
    }
}

/// Every indexed record of a replica was committed and lies below the next LSN of
/// its stream, whatever the engine does.
pub proof fn law_index_stays_in_bounds(
    e: EngineModel,
    connection_id: u64,
    req: RequestModel,
    raft: RaftStatus,
    now_ns: u64,
    raft_index: u64,
    cmd: CommandModel,
    location: RecordLocation,
    list: Seq<PendingClientWrite>,
    ids: Seq<u64>,
    watch: bool,
)
    requires
        writer::index_in_bounds(e.index, e.streams),
        has_room_for(e, req, raft),
        cmd.stream_lsn < u64::MAX,
    ensures
        ({
            let asked = request_outcome(e, connection_id, req, raft, now_ns).0;
            let applied = after_apply(e, raft_index, cmd, location);
            &&& writer::index_in_bounds(asked.index, asked.streams)
            &&& writer::index_in_bounds(applied.index, applied.streams)
            &&& writer::index_in_bounds(e.index, given_back(e.streams, list))
            &&& writer::index_in_bounds(e.index, watching(e, watch, now_ns).streams)
            &&& writer::index_in_bounds(e.index, after_fencing(e, ids).streams)
            &&& writer::index_in_bounds(trimmed(e).index, trimmed(e).streams)
        }),
{
    let asked = request_outcome(e, connection_id, req, raft, now_ns).0;
    assert forall|k: (u64, u64)| #[trigger] asked.index.contains_key(k) implies k.1
        < stream_state::stream_or_fresh(asked.streams, k.0).next_stream_lsn && k.1
        < stream_state::stream_or_fresh(asked.streams, k.0).commit_stream_lsn by {
        assert(e.index.contains_key(k));
    }
    let applied = after_apply(e, raft_index, cmd, location);
    assert forall|k: (u64, u64)| #[trigger] applied.index.contains_key(k) implies k.1
        < stream_state::stream_or_fresh(applied.streams, k.0).next_stream_lsn && k.1
        < stream_state::stream_or_fresh(applied.streams, k.0).commit_stream_lsn by {
        if k != (cmd.stream_id, cmd.stream_lsn) {
            assert(e.index.contains_key(k));
        }
    }
    lemma_given_back_in_bounds(e.index, e.streams, list);
    assert forall|k: (u64, u64)| #[trigger] e.index.contains_key(k) implies k.1
        < stream_state::stream_or_fresh(after_fencing(e, ids).streams, k.0).next_stream_lsn && k.1
        < stream_state::stream_or_fresh(after_fencing(e, ids).streams, k.0).commit_stream_lsn by {
        stream_state::law_bans_are_targeted(e.streams, ids, k.0);
    }
    assert forall|k: (u64, u64)| #[trigger] trimmed(e).index.contains_key(k) implies k.1
        < stream_state::stream_or_fresh(e.streams, k.0).next_stream_lsn && k.1
        < stream_state::stream_or_fresh(e.streams, k.0).commit_stream_lsn by {
        assert(e.index.contains_key(k));
    }
}

proof fn lemma_given_back_in_bounds(
    index: Map<(u64, u64), RecordLocation>,
    streams: Map<u64, StreamModel>,
    list: Seq<PendingClientWrite>,
)
    requires
        writer::index_in_bounds(index, streams),
    ensures
        writer::index_in_bounds(index, given_back(streams, list)),
    decreases list.len(),
{
    if list.len() > 0 {
        lemma_given_back_in_bounds(index, streams, list.drop_last());
    }
}

/// Whether some write of `list` holds an LSN of a stream.
pub open spec fn holds_lsn(list: Seq<PendingClientWrite>, id: u64, lsn: u64) -> bool {
    exists|k: int|
        0 <= k < list.len() && (#[trigger] list[k]).stream_id == id && list[k].stream_lsn == lsn
}

proof fn lemma_given_back(
    streams: Map<u64, StreamModel>,
    list: Seq<PendingClientWrite>,
    id: u64,
    first: u64,
    n: int,
) -> (next: u64)
    requires
        forall|i: int, j: int| 0 <= i < j < list.len() ==> goes_before(list[i], list[j]),
        streams.contains_key(id),
        streams[id].commit_stream_lsn <= first <= streams[id].next_stream_lsn,
        forall|lsn: u64| #[trigger]
            holds_lsn(list, id, lsn) <==> first <= lsn < streams[id].next_stream_lsn,
        0 <= n <= list.len(),
    ensures
        first <= next <= streams[id].next_stream_lsn,
        given_back(streams, list.take(n)).contains_key(id),
        given_back(streams, list.take(n))[id] == (StreamModel {
            next_stream_lsn: next,
            ..streams[id]
        }),
        forall|lsn: u64| #[trigger] holds_lsn(list.skip(n), id, lsn) <==> first <= lsn < next,
    decreases n,
{
    if n == 0 {
        assert(list.take(0) =~= Seq::empty());
        assert(list.skip(0) =~= list);
        streams[id].next_stream_lsn
    } else {
        let before = lemma_given_back(streams, list, id, first, n - 1);
        let p = list[n - 1];
        let rest = list.skip(n - 1);
        let now = list.skip(n);
        assert(list.take(n).drop_last() =~= list.take(n - 1));
        assert(list.take(n).last() == p);
        assert(rest[0] == p);
        assert forall|k: int| 0 <= k < now.len() implies now[k] == rest[k + 1] by {}
        if p.stream_id != id {
            assert forall|lsn: u64| holds_lsn(now, id, lsn) <==> holds_lsn(rest, id, lsn) by {
                if holds_lsn(now, id, lsn) {
                    let k = choose|k: int|
                        0 <= k < now.len() && (#[trigger] now[k]).stream_id == id
                            && now[k].stream_lsn == lsn;
                    assert(rest[k + 1] == now[k]);
                }
                if holds_lsn(rest, id, lsn) {
                    let k = choose|k: int|
                        0 <= k < rest.len() && (#[trigger] rest[k]).stream_id == id
                            && rest[k].stream_lsn == lsn;
                    assert(now[k - 1] == rest[k]);
                }
            }
            before
        } else {
            assert(holds_lsn(rest, id, p.stream_lsn));
            let top = (before - 1) as u64;
            assert(holds_lsn(rest, id, top));
            let k = choose|k: int|
                0 <= k < rest.len() && (#[trigger] rest[k]).stream_id == id && rest[k].stream_lsn
                    == top;
            if k > 0 {
                assert(goes_before(list[n - 1], list[n - 1 + k]));
                assert(rest[k] == list[n - 1 + k]);
            }
            assert(p.stream_lsn == top);
            assert forall|lsn: u64| #[trigger] holds_lsn(now, id, lsn) <==> first <= lsn < top by {
                if holds_lsn(now, id, lsn) {
                    let j = choose|j: int|
                        0 <= j < now.len() && (#[trigger] now[j]).stream_id == id
                            && now[j].stream_lsn == lsn;
                    assert(rest[j + 1] == now[j]);
                    assert(holds_lsn(rest, id, lsn));
                    assert(goes_before(list[n - 1], list[n + j]));
                    assert(now[j] == list[n + j]);
                }
                if first <= lsn < top {
                    assert(holds_lsn(rest, id, lsn));
                    let j = choose|j: int|
                        0 <= j < rest.len() && (#[trigger] rest[j]).stream_id == id
                            && rest[j].stream_lsn == lsn;
                    assert(now[j - 1] == rest[j]);
                }
            }
            top
        }
    }
}

/// When a leader steps down whose pending writes on a stream are the last LSNs
/// that were taken, none of them committed, the stream continues at the first of
/// them: no LSN is lost.
pub proof fn law_giving_up_restores_positions(
    e: EngineModel,
    list: Seq<PendingClientWrite>,
    id: u64,
    first: u64,
)
    requires
        lists_pending(e.pending, list),
        e.streams.contains_key(id),
        e.streams[id].commit_stream_lsn <= first <= e.streams[id].next_stream_lsn,
        forall|lsn: u64| #[trigger]
            holds_lsn(list, id, lsn) <==> first <= lsn < e.streams[id].next_stream_lsn,
    ensures
        given_back(e.streams, list).contains_key(id),
        given_back(e.streams, list)[id] == (StreamModel {
            next_stream_lsn: first,
            ..e.streams[id]
        }),
{
    let n = list.len() as int;
    let next = lemma_given_back(e.streams, list, id, first, n);
    assert(list.take(n) =~= list);
    if first < next {
        assert(holds_lsn(list.skip(n), id, first));
    }
}

/// Every pending write that is given up has exactly one response, which names the
/// leader.
pub proof fn law_every_pending_write_is_answered(
    pending: Map<u64, PendingClientWrite>,
    list: Seq<PendingClientWrite>,
    leader_id: u64,
    id: u64,
)
    requires
        lists_pending(pending, list),
        pending.contains_key(id),
    ensures
        exists|k: int|
            0 <= k < list.len() && #[trigger] list[k] == pending[id] && given_up_replies(
                list,
                leader_id,
            )[k] == not_leader_reply(
                pending[id].connection_id,
                pending[id].epoch,
                leader_id,
            ) && forall|j: int| 0 <= j < list.len() && #[trigger] list[j] == pending[id] ==> j == k,
{
    let k = choose|k: int| 0 <= k < list.len() && list[k] == pending[id];
    assert forall|j: int| 0 <= j < list.len() && #[trigger] list[j] == pending[id] implies j
        == k by {
        if j < k {
            assert(goes_before(list[j], list[k]));
        } else if k < j {
            assert(goes_before(list[k], list[j]));
        }
    }
}

} // verus!

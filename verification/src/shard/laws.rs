//! What a shard promises its clients across requests, whatever happens in between.

use vstd::prelude::*;

use crate::channel::{ReplyModel, ShardResponse};
use crate::protocol::codec;
use crate::protocol::types::{OpCode, RequestModel, ResponseModel, Status};
use crate::replication::command;
use crate::replication::command::CommandModel;
use crate::replication::messages::EntryKind;
use crate::shard::engine;
use crate::shard::engine::{
    Action, ActionModel, EngineModel, MessageRoute, PendingClientWrite, RaftStatus, RecordRead,
    Role,
};
use crate::shard::stream_state;
use crate::shard::stream_state::{StreamModel, TailModel};
use crate::wal::index::RecordLocation;
use crate::wal::record;
use crate::wal::record::RecordModel;

verus! {

/// A response holds what it was made of, each part in its place.
pub proof fn law_reply_holds_its_parts(
    connection_id: u64,
    status: Status,
    epoch: u64,
    offset: u64,
    payload: Seq<u8>,
)
    ensures
        engine::reply(connection_id, status, epoch, offset, payload).connection_id == connection_id,
        engine::reply(connection_id, status, epoch, offset, payload).response.status == status,
        engine::reply(connection_id, status, epoch, offset, payload).response.epoch == epoch,
        engine::reply(connection_id, status, epoch, offset, payload).response.offset == offset,
        engine::reply(connection_id, status, epoch, offset, payload).response.payload == payload,
{
}

/// Where the leader finds a record that a client asks for. One that is not
/// committed is not shown. Of the others, the tail cache gives the payload if it
/// holds the record; else the log is asked where the index says that the record
/// lies, however far the stream was consumed; and if the index does not know it, it
/// is not found. A read changes nothing.
pub proof fn law_read_looks_in_cache_and_log(
    e: EngineModel,
    connection_id: u64,
    req: RequestModel,
    raft: RaftStatus,
    now_ns: u64,
    i: int,
)
    requires
        req.op == OpCode::Read,
        raft.role == Role::Leader,
    ensures
        ({
            let (after, action) = engine::request_outcome(e, connection_id, req, raft, now_ns);
            let id = req.stream_id;
            let lsn = req.offset;
            let s = e.streams[id];
            let not_found = ReplyModel {
                connection_id,
                response: ResponseModel {
                    status: Status::ErrNotFound,
                    epoch: if e.streams.contains_key(id) {
                        s.max_epoch
                    } else {
                        0
                    },
                    offset: lsn,
                    payload: Seq::empty(),
                },
            };
            let shown = e.streams.contains_key(id) ==> lsn < s.commit_stream_lsn;
            let uncached = e.streams.contains_key(id) ==> forall|j: int|
                0 <= j < s.tail.len() ==> (#[trigger] s.tail[j]).stream_lsn != lsn;
            &&& after == e
            &&& !shown ==> action == ActionModel::Respond(not_found)
            &&& shown && e.streams.contains_key(id) && 0 <= i < s.tail.len()
                && s.tail[i].stream_lsn == lsn && (forall|j: int|
                0 <= j < i ==> (#[trigger] s.tail[j]).stream_lsn != lsn) ==> action
                == ActionModel::Respond(
                ReplyModel {
                    connection_id,
                    response: ResponseModel {
                        status: Status::Success,
                        epoch: s.max_epoch,
                        offset: lsn,
                        payload: s.tail[i].payload,
                    },
                },
            )
            &&& shown && uncached && e.index.contains_key((id, lsn)) ==> action
                == ActionModel::ReadRecord(
                RecordRead {
                    connection_id,
                    stream_id: id,
                    stream_lsn: lsn,
                    location: e.index[(id, lsn)],
                },
            )
            &&& shown && uncached && !e.index.contains_key((id, lsn)) ==> action
                == ActionModel::Respond(not_found)
        }),
{
    let s = stream_state::stream_or_fresh(e.streams, req.stream_id);
    stream_state::law_cache_gives_first_record_at_lsn(s.tail, req.offset, i);
}

/// An acknowledgement answers with the position up to which the stream is consumed
/// from now on: the one that it names, or the one before if that is further. No
/// record at the front of the tail cache lies below it. Every other stream stays as
/// it is, and so does everything but the streams.
pub proof fn law_ack_advances_its_stream(
    e: EngineModel,
    connection_id: u64,
    req: RequestModel,
    raft: RaftStatus,
    now_ns: u64,
    other: u64,
)
    requires
        req.op == OpCode::Ack,
        other != req.stream_id,
    ensures
        ({
            let (after, action) = engine::request_outcome(e, connection_id, req, raft, now_ns);
            let id = req.stream_id;
            let known = e.streams.contains_key(id);
            let was = if known {
                e.streams[id].consumed_stream_lsn
            } else {
                0
            };
            let t = after.streams[id];
            &&& after.streams.contains_key(id)
            &&& t.consumed_stream_lsn == (if was < req.offset {
                req.offset
            } else {
                was
            })
            &&& action == ActionModel::Respond(
                ReplyModel {
                    connection_id,
                    response: ResponseModel {
                        status: Status::Success,
                        epoch: if known {
                            e.streams[id].max_epoch
                        } else {
                            0
                        },
                        offset: t.consumed_stream_lsn,
                        payload: Seq::empty(),
                    },
                },
            )
            &&& t.tail.len() > 0 ==> t.tail[0].stream_lsn >= t.consumed_stream_lsn
            &&& t.last_ack_ns == now_ns
            &&& known ==> t.max_epoch == e.streams[id].max_epoch && t.next_stream_lsn
                == e.streams[id].next_stream_lsn && t.commit_stream_lsn
                == e.streams[id].commit_stream_lsn && t.last_entry_id
                == e.streams[id].last_entry_id && t.banned == e.streams[id].banned
            &&& !known ==> t.max_epoch == 0 && t.next_stream_lsn == 0 && t.commit_stream_lsn == 0
                && t.last_entry_id == 0 && t.tail.len() == 0 && !t.banned
            &&& after.streams.contains_key(other) <==> e.streams.contains_key(other)
            &&& e.streams.contains_key(other) ==> after.streams[other] == e.streams[other]
            &&& after.index == e.index
            &&& after.pending == e.pending
            &&& after.request_seq == e.request_seq
            &&& after.tail_limit == e.tail_limit
            &&& after.shard_id == e.shard_id
            &&& after.node_id == e.node_id
            &&& after.campaigned == e.campaigned
            &&& after.observed_role == e.observed_role
            &&& after.observed_leader_id == e.observed_leader_id
        }),
{
    let k = stream_state::law_acknowledged_stream_is_consumed(e.streams, req.stream_id, req.offset);
    stream_state::law_streams_are_independent(
        e.streams,
        0,
        req.stream_id,
        0,
        req.offset,
        TailModel { stream_lsn: 0, entry_id: 0, payload: Seq::empty() },
        other,
    );
}

/// An acknowledgement up to an LSN does not change what a read of that LSN or a
/// later one comes to. Records at the front of the tail cache that lie below what
/// was consumed before are left out: the next acknowledgement drops them, and they
/// are read from the log.
pub proof fn law_ack_keeps_reads_above_it(
    e: EngineModel,
    connection_id: u64,
    req: RequestModel,
    raft: RaftStatus,
    now_ns: u64,
    reader_id: u64,
    id: u64,
    lsn: u64,
)
    requires
        req.op == OpCode::Ack,
        id == req.stream_id ==> {
            &&& lsn >= req.offset
            &&& e.streams.contains_key(id) || !e.index.contains_key((id, lsn))
            &&& e.streams.contains_key(id) ==> {
                let s = e.streams[id];
                lsn >= s.consumed_stream_lsn || s.tail.len() == 0 || s.tail[0].stream_lsn
                    >= s.consumed_stream_lsn
            }
        },
    ensures
        engine::read_outcome(
            engine::request_outcome(e, connection_id, req, raft, now_ns).0,
            reader_id,
            id,
            lsn,
        ) == engine::read_outcome(e, reader_id, id, lsn),
{
    if id == req.stream_id {
        let s = stream_state::stream_or_fresh(e.streams, id);
        let consumed = stream_state::max64(s.consumed_stream_lsn, req.offset);
        if lsn >= consumed {
            stream_state::law_unconsumed_records_stay(s.tail, consumed, lsn);
        }
    }
}

/// A record that is committed and indexed is found after any acknowledgement, as it
/// was before: its payload comes from the tail cache, or the log is asked where the
/// record lies.
pub proof fn law_ack_loses_no_record(
    e: EngineModel,
    connection_id: u64,
    req: RequestModel,
    raft: RaftStatus,
    now_ns: u64,
    reader_id: u64,
    id: u64,
    lsn: u64,
)
    requires
        req.op == OpCode::Ack,
        e.streams.contains_key(id),
        lsn < e.streams[id].commit_stream_lsn,
        e.index.contains_key((id, lsn)),
    ensures
        match engine::read_outcome(
            engine::request_outcome(e, connection_id, req, raft, now_ns).0,
            reader_id,
            id,
            lsn,
        ) {
            ActionModel::Respond(r) => r.response.status == Status::Success && r.connection_id
                == reader_id && r.response.offset == lsn && exists|i: int|
                0 <= i < e.streams[id].tail.len() && (#[trigger] e.streams[id].tail[i]).stream_lsn
                    == lsn && r.response.payload == e.streams[id].tail[i].payload,
            ActionModel::ReadRecord(read) => read == (RecordRead {
                connection_id: reader_id,
                stream_id: id,
                stream_lsn: lsn,
                location: e.index[(id, lsn)],
            }),
            ActionModel::Propose(_) => false,
        },
{
    let after = engine::request_outcome(e, connection_id, req, raft, now_ns).0;
    let k = if id == req.stream_id {
        stream_state::law_acknowledged_stream_is_consumed(e.streams, id, req.offset)
    } else {
        0
    };
    let s = e.streams[id];
    let tail = after.streams[id].tail;
    assert(s.tail.skip(0) =~= s.tail);
    assert(tail =~= s.tail.skip(k));
    stream_state::lemma_tail_at(tail, lsn);
    if stream_state::tail_at(tail, lsn) is Some {
        let i = lemma_first_at(tail, lsn);
        assert(s.tail[k + i] == tail[i]);
    }
}

proof fn lemma_first_at(tail: Seq<TailModel>, lsn: u64) -> (i: int)
    requires
        stream_state::tail_at(tail, lsn) is Some,
    ensures
        0 <= i < tail.len(),
        tail[i].stream_lsn == lsn,
        stream_state::tail_at(tail, lsn) == Some(tail[i]),
    decreases tail.len(),
{
    if tail[0].stream_lsn == lsn {
        0
    } else {
        let i = lemma_first_at(tail.skip(1), lsn);
        assert(tail.skip(1)[i] == tail[i + 1]);
        i + 1
    }
}

/// A question for the positions of a stream that is known is answered with them: the
/// payload decodes to its next, committed and consumed LSN and to the committed and
/// applied index of the group, each in its own field, and the response names its
/// epoch and its next LSN. Of a stream that is not known nothing is told. Asking
/// changes nothing.
pub proof fn law_status_tells_the_positions(
    e: EngineModel,
    connection_id: u64,
    req: RequestModel,
    raft: RaftStatus,
    now_ns: u64,
)
    requires
        req.op == OpCode::GetStatus,
    ensures
        ({
            let (after, action) = engine::request_outcome(e, connection_id, req, raft, now_ns);
            let s = e.streams[req.stream_id];
            &&& after == e
            &&& action matches ActionModel::Respond(r) && {
                &&& r.connection_id == connection_id
                &&& r.response.status == Status::Success
                &&& e.streams.contains_key(req.stream_id) ==> {
                    &&& r.response.epoch == s.max_epoch
                    &&& r.response.offset == s.next_stream_lsn
                    &&& codec::decoded_stream_status(r.response.payload) matches Ok(p) && {
                        &&& p.next_stream_lsn == s.next_stream_lsn
                        &&& p.commit_stream_lsn == s.commit_stream_lsn
                        &&& p.consumed_stream_lsn == s.consumed_stream_lsn
                        &&& p.commit_index == raft.committed
                        &&& p.last_applied == raft.applied
                    }
                }
                &&& !e.streams.contains_key(req.stream_id) ==> {
                    &&& r.response.epoch == 0
                    &&& r.response.offset == 0
                    &&& r.response.payload.len() == 0
                }
            }
        }),
{
    if e.streams.contains_key(req.stream_id) {
        let s = e.streams[req.stream_id];
        codec::law_stream_status_roundtrip(
            crate::protocol::types::StreamStatusPayload {
                next_stream_lsn: s.next_stream_lsn,
                commit_stream_lsn: s.commit_stream_lsn,
                consumed_stream_lsn: s.consumed_stream_lsn,
                commit_index: raft.committed,
                last_applied: raft.applied,
            },
        );
    }
}

/// After an acknowledgement up to an LSN, the positions of the stream are told with
/// that LSN as the consumed one, or the one before if it is further, whatever the
/// other positions are; those are told as before.
pub proof fn law_status_after_ack(
    e: EngineModel,
    ack_id: u64,
    ack: RequestModel,
    ack_raft: RaftStatus,
    ack_ns: u64,
    connection_id: u64,
    req: RequestModel,
    raft: RaftStatus,
    now_ns: u64,
)
    requires
        ack.op == OpCode::Ack,
        req.op == OpCode::GetStatus,
        req.stream_id == ack.stream_id,
    ensures
        ({
            let acked = engine::request_outcome(e, ack_id, ack, ack_raft, ack_ns).0;
            let action = engine::request_outcome(acked, connection_id, req, raft, now_ns).1;
            let known = e.streams.contains_key(ack.stream_id);
            let s = e.streams[ack.stream_id];
            action matches ActionModel::Respond(r) && {
                &&& r.connection_id == connection_id
                &&& codec::decoded_stream_status(r.response.payload) matches Ok(p) && {
                    &&& p.consumed_stream_lsn == (if known && s.consumed_stream_lsn > ack.offset {
                        s.consumed_stream_lsn
                    } else {
                        ack.offset
                    })
                    &&& known ==> p.next_stream_lsn == s.next_stream_lsn && p.commit_stream_lsn
                        == s.commit_stream_lsn
                    &&& !known ==> p.next_stream_lsn == 0 && p.commit_stream_lsn == 0
                }
            }
        }),
{
    let acked = engine::request_outcome(e, ack_id, ack, ack_raft, ack_ns).0;
    law_ack_advances_its_stream(
        e,
        ack_id,
        ack,
        ack_raft,
        ack_ns,
        if ack.stream_id == 0 {
            1
        } else {
            0
        },
    );
    law_status_tells_the_positions(acked, connection_id, req, raft, now_ns);
}

/// A write that is taken takes the next LSN of its stream and waits for its command
/// under a request id of its own: the next one. The command that is proposed carries
/// that id and LSN, and the stream, epoch and payload of the request. Nothing is
/// committed, consumed, cached or indexed by it, no other stream changes, and every
/// other pending write stays as it was.
pub proof fn law_write_waits_for_its_command(
    e: EngineModel,
    connection_id: u64,
    req: RequestModel,
    raft: RaftStatus,
    now_ns: u64,
    other: u64,
    request_id: u64,
)
    requires
        req.op == OpCode::Write,
        raft.role == Role::Leader,
        e.streams.contains_key(req.stream_id) ==> req.epoch >= e.streams[req.stream_id].max_epoch
            && !e.streams[req.stream_id].banned && e.streams[req.stream_id].next_stream_lsn
            < u64::MAX,
        e.request_seq < u64::MAX,
        req.payload.len() <= u32::MAX,
        other != req.stream_id,
        request_id != e.request_seq + 1,
    ensures
        ({
            let (after, action) = engine::request_outcome(e, connection_id, req, raft, now_ns);
            let id = req.stream_id;
            let known = e.streams.contains_key(id);
            let lsn = if known {
                e.streams[id].next_stream_lsn
            } else {
                0
            };
            let own = (e.request_seq + 1) as u64;
            let t = after.streams[id];
            &&& after.request_seq == own
            &&& after.pending.contains_key(own)
            &&& after.pending[own] == (PendingClientWrite {
                connection_id,
                stream_id: id,
                epoch: req.epoch,
                stream_lsn: lsn,
            })
            &&& after.pending.contains_key(request_id) <==> e.pending.contains_key(request_id)
            &&& e.pending.contains_key(request_id) ==> after.pending[request_id]
                == e.pending[request_id]
            &&& action matches ActionModel::Propose(data) && engine::entry_command(
                EntryKind::Normal,
                data,
            ) matches Ok(Some(cmd)) && cmd == (CommandModel {
                request_id: own,
                stream_id: id,
                epoch: req.epoch,
                stream_lsn: lsn,
                payload: req.payload,
            })
            &&& after.streams.contains_key(id)
            &&& t.next_stream_lsn == lsn + 1
            &&& t.max_epoch == req.epoch
            &&& known ==> t.commit_stream_lsn == e.streams[id].commit_stream_lsn
                && t.consumed_stream_lsn == e.streams[id].consumed_stream_lsn && t.last_entry_id
                == e.streams[id].last_entry_id && t.tail == e.streams[id].tail && t.last_ack_ns
                == e.streams[id].last_ack_ns
            &&& !known ==> t.commit_stream_lsn == 0 && t.consumed_stream_lsn == 0
                && t.last_entry_id == 0 && t.tail.len() == 0 && t.last_ack_ns == 0
            &&& !t.banned
            &&& after.streams.contains_key(other) <==> e.streams.contains_key(other)
            &&& e.streams.contains_key(other) ==> after.streams[other] == e.streams[other]
            &&& after.index == e.index
            &&& after.tail_limit == e.tail_limit
            &&& after.shard_id == e.shard_id
            &&& after.node_id == e.node_id
            &&& after.campaigned == e.campaigned
            &&& after.observed_role == e.observed_role
            &&& after.observed_leader_id == e.observed_leader_id
        }),
{
    let s = stream_state::stream_or_fresh(e.streams, req.stream_id);
    command::law_command_roundtrip(
        CommandModel {
            request_id: (e.request_seq + 1) as u64,
            stream_id: req.stream_id,
            epoch: req.epoch,
            stream_lsn: s.next_stream_lsn,
            payload: req.payload,
        },
    );
    engine::law_proposed_write_finds_its_client(e, connection_id, req, raft, now_ns);
}

/// A command that is applied makes its record readable: it is indexed where it was
/// written, its stream is committed up to it at least, with the epoch, the entry id
/// and the next LSN at least its own, and it goes to the end of the tail cache, which
/// keeps its last records, as many as it may hold. Every other record stays indexed
/// where it was, every other stream as it was, and every other write pending as it
/// was.
pub proof fn law_apply_takes_in_one_record(
    e: EngineModel,
    raft_index: u64,
    cmd: CommandModel,
    location: RecordLocation,
    key: (u64, u64),
    other: u64,
    request_id: u64,
)
    requires
        cmd.stream_lsn < u64::MAX,
        key != (cmd.stream_id, cmd.stream_lsn),
        other != cmd.stream_id,
        request_id != cmd.request_id,
    ensures
        ({
            let after = engine::after_apply(e, raft_index, cmd, location);
            let id = cmd.stream_id;
            let s = stream_state::stream_or_fresh(e.streams, id);
            let t = after.streams[id];
            &&& after.index.contains_key((id, cmd.stream_lsn))
            &&& after.index[(id, cmd.stream_lsn)] == location
            &&& after.index.contains_key(key) <==> e.index.contains_key(key)
            &&& e.index.contains_key(key) ==> after.index[key] == e.index[key]
            &&& after.streams.contains_key(id)
            &&& t.commit_stream_lsn == (if s.commit_stream_lsn <= cmd.stream_lsn {
                cmd.stream_lsn + 1
            } else {
                s.commit_stream_lsn as int
            })
            &&& t.next_stream_lsn == (if s.next_stream_lsn <= cmd.stream_lsn {
                cmd.stream_lsn + 1
            } else {
                s.next_stream_lsn as int
            })
            &&& t.max_epoch == (if s.max_epoch < cmd.epoch {
                cmd.epoch
            } else {
                s.max_epoch
            })
            &&& t.last_entry_id == (if s.last_entry_id < raft_index {
                raft_index
            } else {
                s.last_entry_id
            })
            &&& t.consumed_stream_lsn == s.consumed_stream_lsn
            &&& t.banned == s.banned
            &&& t.last_ack_ns == s.last_ack_ns
            &&& t.tail.len() == (if s.tail.len() < e.tail_limit {
                s.tail.len() + 1
            } else {
                e.tail_limit as nat
            })
            &&& t.tail.len() > 0 ==> t.tail.last().stream_lsn == cmd.stream_lsn
                && t.tail.last().entry_id == raft_index && t.tail.last().payload == cmd.payload
            &&& forall|k: int|
                1 <= k < t.tail.len() ==> t.tail[t.tail.len() - 1 - k]
                    == #[trigger] s.tail[s.tail.len() - k]
            &&& after.streams.contains_key(other) <==> e.streams.contains_key(other)
            &&& e.streams.contains_key(other) ==> after.streams[other] == e.streams[other]
            &&& !after.pending.contains_key(cmd.request_id)
            &&& after.pending.contains_key(request_id) <==> e.pending.contains_key(request_id)
            &&& e.pending.contains_key(request_id) ==> after.pending[request_id]
                == e.pending[request_id]
            &&& after.request_seq == e.request_seq
            &&& after.tail_limit == e.tail_limit
            &&& after.shard_id == e.shard_id
            &&& after.node_id == e.node_id
            &&& after.campaigned == e.campaigned
            &&& after.observed_role == e.observed_role
            &&& after.observed_leader_id == e.observed_leader_id
        }),
{
    let record = TailModel {
        stream_lsn: cmd.stream_lsn,
        entry_id: raft_index,
        payload: cmd.payload,
    };
    stream_state::law_append_raises_positions(
        e.streams,
        e.tail_limit as nat,
        cmd.stream_id,
        cmd.epoch,
        record,
    );
    let m = stream_state::after_append(
        e.streams,
        e.tail_limit as nat,
        cmd.stream_id,
        cmd.epoch,
        record,
    );
    stream_state::law_commit_raises_positions(m, cmd.stream_id, raft_index, cmd.stream_lsn);
}

/// A command that was committed, where its entry stands in the log of the group, and
/// where its record was written.
pub struct AppliedCommand {
    pub raft_index: u64,
    pub cmd: CommandModel,
    pub location: RecordLocation,
}

/// Something that happens to an engine.
pub enum Event {
    /// A client asks.
    Asked { connection_id: u64, req: RequestModel, raft: RaftStatus, now_ns: u64 },
    /// A command is applied.
    Applied(AppliedCommand),
    /// The streams are watched, or no longer.
    Watched { watch: bool, now_ns: u64 },
    /// Streams are given up.
    Fenced { ids: Seq<u64> },
    /// The index is trimmed.
    Trimmed,
    /// The replica stops to lead and gives its pending writes up.
    SteppedDown { list: Seq<PendingClientWrite>, role: Role, leader_id: u64 },
}

/// An engine after something happened.
pub open spec fn after_event(e: EngineModel, event: Event) -> EngineModel {
    match event {
        Event::Asked { connection_id, req, raft, now_ns } => engine::request_outcome(
            e,
            connection_id,
            req,
            raft,
            now_ns,
        ).0,
        Event::Applied(a) => engine::after_apply(e, a.raft_index, a.cmd, a.location),
        Event::Watched { watch, now_ns } => engine::watching(e, watch, now_ns),
        Event::Fenced { ids } => engine::after_fencing(e, ids),
        Event::Trimmed => engine::trimmed(e),
        Event::SteppedDown { list, role, leader_id } => EngineModel {
            streams: engine::given_back(e.streams, list),
            pending: Map::empty(),
            observed_role: role,
            observed_leader_id: leader_id,
            ..e
        },
    }
}

/// An engine after events, in order.
pub open spec fn after_events(e: EngineModel, events: Seq<Event>) -> EngineModel
    decreases events.len(),
{
    if events.len() == 0 {
        e
    } else {
        after_event(after_events(e, events.drop_last()), events.last())
    }
}

/// Whether an event ends the wait of a write: its command is applied, or the replica
/// stops to lead.
pub open spec fn ends_wait(event: Event, request_id: u64) -> bool {
    match event {
        Event::Applied(a) => a.cmd.request_id == request_id,
        Event::SteppedDown { .. } => true,
        _ => false,
    }
}

/// A write that is pending stays so, as it was, until its own command is applied or the
/// replica stops to lead, whatever else is asked, applied, given up or collected, and
/// in whatever order. A request id that was handed out and is not pending is not handed
/// out again, so that nothing ever waits under it any more.
pub proof fn law_pending_write_waits(e: EngineModel, events: Seq<Event>, request_id: u64)
    requires
        request_id <= e.request_seq,
        e.request_seq + events.len() <= u64::MAX,
    ensures
        e.request_seq <= after_events(e, events).request_seq <= e.request_seq + events.len(),
        !e.pending.contains_key(request_id) ==> !after_events(e, events).pending.contains_key(
            request_id,
        ),
        e.pending.contains_key(request_id) && (forall|i: int|
            0 <= i < events.len() ==> !ends_wait(#[trigger] events[i], request_id)) ==> {
            &&& after_events(e, events).pending.contains_key(request_id)
            &&& after_events(e, events).pending[request_id] == e.pending[request_id]
        },
        (exists|i: int| 0 <= i < events.len() && ends_wait(#[trigger] events[i], request_id))
            ==> !after_events(e, events).pending.contains_key(request_id),
    decreases events.len(),
{
    if events.len() > 0 {
        let init = events.drop_last();
        let last = events.last();
        law_pending_write_waits(e, init, request_id);
        let before = after_events(e, init);
        assert(last == events[events.len() - 1]);
        assert forall|i: int| 0 <= i < init.len() implies #[trigger] init[i] == events[i] by {}
        if exists|i: int| 0 <= i < events.len() && ends_wait(#[trigger] events[i], request_id) {
            let i = choose|i: int|
                0 <= i < events.len() && ends_wait(#[trigger] events[i], request_id);
            if i < init.len() {
                assert(ends_wait(init[i], request_id));
            }
        }
    }
}

/// A write that is pending is answered when its own command is applied, whatever
/// happened in between while the replica led: its connection is told success, with its own epoch and LSN.
/// Afterwards nothing that is applied is answered for it again, whatever happens. A
/// command for which nobody waits is not answered.
pub proof fn law_pending_write_is_answered_exactly_once(
    e: EngineModel,
    between: Seq<Event>,
    applied: AppliedCommand,
    later: Seq<Event>,
    again: CommandModel,
)
    requires
        applied.cmd.request_id <= e.request_seq,
        e.request_seq + between.len() + later.len() <= u64::MAX,
        forall|i: int|
            0 <= i < between.len() ==> !ends_wait(#[trigger] between[i], applied.cmd.request_id),
        again.request_id == applied.cmd.request_id,
    ensures
        ({
            let id = applied.cmd.request_id;
            let before = after_events(e, between);
            let after = after_events(after_event(before, Event::Applied(applied)), later);
            &&& e.pending.contains_key(id) ==> engine::applied_reply(before, applied.cmd) == Some(
                ReplyModel {
                    connection_id: e.pending[id].connection_id,
                    response: ResponseModel {
                        status: Status::Success,
                        epoch: e.pending[id].epoch,
                        offset: e.pending[id].stream_lsn,
                        payload: Seq::empty(),
                    },
                },
            )
            &&& !e.pending.contains_key(id) ==> engine::applied_reply(before, applied.cmd) is None
            &&& engine::applied_reply(after, again) is None
        }),
{
    let id = applied.cmd.request_id;
    law_pending_write_waits(e, between, id);
    let before = after_events(e, between);
    let done = after_event(before, Event::Applied(applied));
    law_pending_write_waits(done, later, id);
}

/// Of the writes that are pending at the same time, each is answered when its own
/// command comes, in whatever order the commands come: the command at place `i` is
/// answered to the connection that waits for it, unless it came before.
pub proof fn law_pending_writes_are_answered_in_any_order(
    e: EngineModel,
    applied: Seq<AppliedCommand>,
    i: int,
)
    requires
        0 <= i < applied.len(),
        e.request_seq + applied.len() <= u64::MAX,
        forall|j: int|
            0 <= j < applied.len() ==> (#[trigger] applied[j]).cmd.request_id <= e.request_seq,
        forall|j: int, k: int|
            0 <= j < k < applied.len() ==> (#[trigger] applied[j]).cmd.request_id != (
            #[trigger] applied[k]).cmd.request_id,
    ensures
        ({
            let events = applied.map_values(|a: AppliedCommand| Event::Applied(a));
            let before = after_events(e, events.take(i));
            let id = applied[i].cmd.request_id;
            engine::applied_reply(before, applied[i].cmd) == (if e.pending.contains_key(id) {
                Some(
                    ReplyModel {
                        connection_id: e.pending[id].connection_id,
                        response: ResponseModel {
                            status: Status::Success,
                            epoch: e.pending[id].epoch,
                            offset: e.pending[id].stream_lsn,
                            payload: Seq::empty(),
                        },
                    },
                )
            } else {
                None
            })
        }),
{
    let events = applied.map_values(|a: AppliedCommand| Event::Applied(a));
    let id = applied[i].cmd.request_id;
    let some = events.take(i);
    assert forall|j: int| 0 <= j < some.len() implies !ends_wait(#[trigger] some[j], id) by {
        assert(some[j] == Event::Applied(applied[j]));
        assert(applied[j].cmd.request_id != applied[i].cmd.request_id);
    }
    law_pending_write_is_answered_exactly_once(
        e,
        some,
        applied[i],
        Seq::empty(),
        applied[i].cmd,
    );
}

/// A write that a leader takes is answered exactly once: when its command comes back
/// committed and is applied, with the epoch that it named and the LSN that it took,
/// to the connection that asked, whatever happens in between while the replica leads;
/// and never again.
pub proof fn law_write_is_answered_exactly_once(
    e: EngineModel,
    connection_id: u64,
    req: RequestModel,
    raft: RaftStatus,
    now_ns: u64,
    between: Seq<Event>,
    applied: AppliedCommand,
    later: Seq<Event>,
    again: CommandModel,
)
    requires
        req.op == OpCode::Write,
        raft.role == Role::Leader,
        e.streams.contains_key(req.stream_id) ==> req.epoch >= e.streams[req.stream_id].max_epoch
            && !e.streams[req.stream_id].banned && e.streams[req.stream_id].next_stream_lsn
            < u64::MAX,
        req.payload.len() <= u32::MAX,
        e.request_seq + 1 + between.len() + later.len() <= u64::MAX,
        forall|i: int|
            0 <= i < between.len() ==> !ends_wait(#[trigger] between[i], applied.cmd.request_id),
        engine::request_outcome(
            e,
            connection_id,
            req,
            raft,
            now_ns,
        ).1 matches ActionModel::Propose(data) && engine::entry_command(EntryKind::Normal, data)
            == Ok::<Option<CommandModel>, command::CommandError>(Some(applied.cmd)),
        again.request_id == applied.cmd.request_id,
    ensures
        ({
            let asked = engine::request_outcome(e, connection_id, req, raft, now_ns).0;
            let before = after_events(asked, between);
            let after = after_events(after_event(before, Event::Applied(applied)), later);
            &&& engine::applied_reply(before, applied.cmd) == Some(
                ReplyModel {
                    connection_id,
                    response: ResponseModel {
                        status: Status::Success,
                        epoch: req.epoch,
                        offset: if e.streams.contains_key(req.stream_id) {
                            e.streams[req.stream_id].next_stream_lsn
                        } else {
                            0
                        },
                        payload: Seq::empty(),
                    },
                },
            )
            &&& engine::applied_reply(after, again) is None
        }),
{
    let asked = engine::request_outcome(e, connection_id, req, raft, now_ns).0;
    law_write_waits_for_its_command(
        e,
        connection_id,
        req,
        raft,
        now_ns,
        if req.stream_id == 0 {
            1
        } else {
            0
        },
        e.request_seq,
    );
    law_pending_write_is_answered_exactly_once(asked, between, applied, later, again);
}

/// When a leader gives its pending writes up, only next LSNs go back: no stream comes
/// or goes, nothing else of a stream changes, and a stream for which no write was
/// pending stays as it is.
pub proof fn law_giving_up_moves_next_lsns_only(
    streams: Map<u64, StreamModel>,
    list: Seq<PendingClientWrite>,
    id: u64,
)
    ensures
        given_back_keeps(streams, engine::given_back(streams, list), id),
        (forall|i: int| 0 <= i < list.len() ==> (#[trigger] list[i]).stream_id != id)
            ==> engine::given_back(streams, list).get(id) == streams.get(id),
    decreases list.len(),
{
    if list.len() > 0 {
        let init = list.drop_last();
        law_giving_up_moves_next_lsns_only(streams, init, id);
        assert forall|i: int| 0 <= i < init.len() implies #[trigger] init[i] == list[i] by {}
        assert(list.last() == list[list.len() - 1]);
        let p = list.last();
        let before = engine::given_back(streams, init);
        if p.stream_lsn < u64::MAX {
            stream_state::law_only_last_uncommitted_lsn_is_given_back(
                before,
                p.stream_id,
                p.stream_lsn,
            );
        }
    }
}

/// Whether a stream is there after as it was before, but for a lower next LSN.
pub open spec fn given_back_keeps(
    before: Map<u64, StreamModel>,
    after: Map<u64, StreamModel>,
    id: u64,
) -> bool {
    &&& after.contains_key(id) <==> before.contains_key(id)
    &&& before.contains_key(id) ==> {
        &&& after[id].next_stream_lsn <= before[id].next_stream_lsn
        &&& after[id].max_epoch == before[id].max_epoch
        &&& after[id].commit_stream_lsn == before[id].commit_stream_lsn
        &&& after[id].consumed_stream_lsn == before[id].consumed_stream_lsn
        &&& after[id].last_entry_id == before[id].last_entry_id
        &&& after[id].tail == before[id].tail
        &&& after[id].banned == before[id].banned
        &&& after[id].last_ack_ns == before[id].last_ack_ns
    }
}

/// A leader loses its pending writes exactly when it stops to lead. Each of them is
/// then answered, to its own connection and with its own epoch: another replica leads,
/// and this is the one.
pub proof fn law_stepping_down_names_the_leader(
    e: EngineModel,
    role: Role,
    list: Seq<PendingClientWrite>,
    leader_id: u64,
    k: int,
)
    ensures
        engine::loses_leadership(e, role) <==> e.observed_role == Role::Leader && role
            != Role::Leader,
        engine::given_up_replies(list, leader_id).len() == list.len(),
        0 <= k < list.len() ==> engine::given_up_replies(list, leader_id)[k] == (ReplyModel {
            connection_id: list[k].connection_id,
            response: ResponseModel {
                status: Status::ErrNotLeader,
                epoch: list[k].epoch,
                offset: leader_id,
                payload: Seq::empty(),
            },
        }),
{
}

/// The list of writes that are given up holds every pending one once, by stream and
/// with the latest LSN first, and nothing else.
pub proof fn law_pending_writes_are_listed_latest_first(
    pending: Map<u64, PendingClientWrite>,
    list: Seq<PendingClientWrite>,
    i: int,
    j: int,
    id: u64,
)
    requires
        engine::lists_pending(pending, list),
    ensures
        0 <= i < j < list.len() ==> list[i].stream_id < list[j].stream_id || (list[i].stream_id
            == list[j].stream_id && list[i].stream_lsn > list[j].stream_lsn),
        0 <= i < list.len() ==> exists|k: u64| #[trigger]
            pending.contains_key(k) && pending[k] == list[i],
        pending.contains_key(id) ==> exists|k: int|
            0 <= k < list.len() && #[trigger] list[k] == pending[id],
{
    if 0 <= i < j < list.len() {
        assert(engine::goes_before(list[i], list[j]));
    }
    if 0 <= i < list.len() {
        assert(pending.contains_value(list[i]));
        let k = choose|k: u64| #[trigger] pending.dom().contains(k) && pending[k] == list[i];
        assert(pending.contains_key(k));
    }
    if pending.contains_key(id) {
        assert(list.contains(pending[id]));
    }
}

/// Trimming the index drops the records that were consumed and no others, and changes
/// nothing else.
pub proof fn law_trimming_drops_what_was_consumed(e: EngineModel, key: (u64, u64))
    ensures
        ({
            let after = engine::trimmed(e);
            let consumed = if e.streams.contains_key(key.0) {
                e.streams[key.0].consumed_stream_lsn
            } else {
                0
            };
            &&& after.index.contains_key(key) <==> e.index.contains_key(key) && key.1 >= consumed
            &&& after.index.contains_key(key) ==> after.index[key] == e.index[key]
            &&& after.streams == e.streams
            &&& after.pending == e.pending
            &&& after.request_seq == e.request_seq
            &&& after.tail_limit == e.tail_limit
            &&& after.shard_id == e.shard_id
            &&& after.node_id == e.node_id
            &&& after.campaigned == e.campaigned
            &&& after.observed_role == e.observed_role
            &&& after.observed_leader_id == e.observed_leader_id
        }),
{
}

/// After an acknowledgement up to an LSN, the next trimming drops every record of the
/// stream below it from the index, and keeps those that were neither acknowledged nor
/// consumed before.
pub proof fn law_acknowledged_records_are_collected(
    e: EngineModel,
    connection_id: u64,
    req: RequestModel,
    raft: RaftStatus,
    now_ns: u64,
    lsn: u64,
)
    requires
        req.op == OpCode::Ack,
    ensures
        ({
            let acked = engine::request_outcome(e, connection_id, req, raft, now_ns).0;
            let index = engine::trimmed(acked).index;
            let key = (req.stream_id, lsn);
            &&& lsn < req.offset ==> !index.contains_key(key)
            &&& lsn >= req.offset && e.index.contains_key(key) && (e.streams.contains_key(
                req.stream_id,
            ) ==> lsn >= e.streams[req.stream_id].consumed_stream_lsn) ==> index.contains_key(key)
                && index[key] == e.index[key]
        }),
{
    let acked = engine::request_outcome(e, connection_id, req, raft, now_ns).0;
    law_ack_advances_its_stream(
        e,
        connection_id,
        req,
        raft,
        now_ns,
        if req.stream_id == 0 {
            1
        } else {
            0
        },
    );
    law_trimming_drops_what_was_consumed(acked, (req.stream_id, lsn));
}

/// A segment is dead exactly if it is not the one that is written to and no record
/// that is indexed lies in it.
pub proof fn law_segment_with_a_record_lives(
    index: Map<(u64, u64), RecordLocation>,
    current_segment_id: u64,
    segment_id: u64,
    key: (u64, u64),
)
    ensures
        index.contains_key(key) && index[key].segment_id == segment_id ==> !engine::is_dead(
            index,
            current_segment_id,
            segment_id,
        ),
        !engine::is_dead(index, current_segment_id, current_segment_id),
        segment_id != current_segment_id && (forall|k: (u64, u64)| #[trigger]
            index.contains_key(k) ==> index[k].segment_id != segment_id) ==> engine::is_dead(
            index,
            current_segment_id,
            segment_id,
        ),
{
}

/// A read that the log was asked for is answered with the record that stands there:
/// its payload, its epoch and its LSN. If the bytes could not be read, or are no
/// record, it is not found.
pub proof fn law_log_answers_with_the_record(
    e: EngineModel,
    read: RecordRead,
    r: RecordModel,
    rest: Seq<u8>,
    bad: Seq<u8>,
)
    requires
        record::record_fits(r),
        record::decoded_record(bad) is Err,
    ensures
        ({
            let not_found = ReplyModel {
                connection_id: read.connection_id,
                response: ResponseModel {
                    status: Status::ErrNotFound,
                    epoch: if e.streams.contains_key(read.stream_id) {
                        e.streams[read.stream_id].max_epoch
                    } else {
                        0
                    },
                    offset: read.stream_lsn,
                    payload: Seq::empty(),
                },
            };
            &&& engine::read_reply(e, read, Some(record::record_bytes(r) + rest)) == (ReplyModel {
                connection_id: read.connection_id,
                response: ResponseModel {
                    status: Status::Success,
                    epoch: r.term,
                    offset: r.stream_lsn,
                    payload: r.value,
                },
            })
            &&& engine::read_reply(e, read, None) == not_found
            &&& engine::read_reply(e, read, Some(bad)) == not_found
        }),
{
    record::law_record_roundtrip(r, rest);
}

/// What a committed entry carries: a command, if it is an ordinary entry with the
/// bytes of one; nothing, if it has no bytes or changes the group; and an error, if its
/// bytes are no command.
pub proof fn law_ordinary_entry_carries_its_command(
    cmd: CommandModel,
    kind: EntryKind,
    data: Seq<u8>,
)
    requires
        cmd.payload.len() <= u32::MAX,
    ensures
        engine::entry_command(EntryKind::Normal, command::command_bytes(cmd)) == Ok::<
            Option<CommandModel>,
            command::CommandError,
        >(Some(cmd)),
        data.len() == 0 || kind != EntryKind::Normal ==> engine::entry_command(kind, data) == Ok::<
            Option<CommandModel>,
            command::CommandError,
        >(None),
        data.len() > 0 && kind == EntryKind::Normal ==> (command::decoded_command(data) matches Err(
            e,
        ) ==> engine::entry_command(kind, data) == Err::<
            Option<CommandModel>,
            command::CommandError,
        >(e)),
{
    command::law_command_roundtrip(cmd);
    command::law_command_layout(cmd);
}

/// Which requests take an LSN: writes to the leader, unless their epoch is below the
/// highest one seen or their stream was given up. Only for these there has to be an LSN
/// and a request id left.
pub proof fn law_accepted_writes_take_an_lsn(e: EngineModel, req: RequestModel, raft: RaftStatus)
    ensures
        engine::takes_lsn(e, req, raft) <==> req.op == OpCode::Write && raft.role == Role::Leader
            && (e.streams.contains_key(req.stream_id) ==> req.epoch
            >= e.streams[req.stream_id].max_epoch && !e.streams[req.stream_id].banned),
        engine::has_room_for(e, req, raft) <==> (engine::takes_lsn(e, req, raft) ==> e.request_seq
            < u64::MAX && (e.streams.contains_key(req.stream_id)
            ==> e.streams[req.stream_id].next_stream_lsn < u64::MAX)),
{
}

/// A replica that does not lead answers reads and writes with the leader, whatever
/// they ask for; acknowledgements and questions for positions it answers itself.
pub proof fn law_follower_answers(
    e: EngineModel,
    connection_id: u64,
    req: RequestModel,
    raft: RaftStatus,
    leading: RaftStatus,
    now_ns: u64,
)
    requires
        raft.role != Role::Leader,
        leading == (RaftStatus { role: Role::Leader, ..raft }),
    ensures
        req.op == OpCode::Write || req.op == OpCode::Read ==> engine::request_outcome(
            e,
            connection_id,
            req,
            raft,
            now_ns,
        ) == (
            e,
            ActionModel::Respond(
                ReplyModel {
                    connection_id,
                    response: ResponseModel {
                        status: Status::ErrNotLeader,
                        epoch: 0,
                        offset: raft.leader_id,
                        payload: Seq::empty(),
                    },
                },
            ),
        ),
        req.op == OpCode::Ack || req.op == OpCode::GetStatus ==> engine::request_outcome(
            e,
            connection_id,
            req,
            raft,
            now_ns,
        ) == engine::request_outcome(e, connection_id, req, leading, now_ns),
{
}

/// A write that is fenced off, because its epoch is below the highest one seen or its
/// stream was given up, is told that epoch and changes nothing.
pub proof fn law_fenced_write_is_told_the_epoch(
    e: EngineModel,
    connection_id: u64,
    req: RequestModel,
    raft: RaftStatus,
    now_ns: u64,
)
    requires
        req.op == OpCode::Write,
        raft.role == Role::Leader,
        e.streams.contains_key(req.stream_id),
        req.epoch < e.streams[req.stream_id].max_epoch || e.streams[req.stream_id].banned,
    ensures
        engine::request_outcome(e, connection_id, req, raft, now_ns) == (
            e,
            ActionModel::Respond(
                ReplyModel {
                    connection_id,
                    response: ResponseModel {
                        status: Status::ErrEpochFenced,
                        epoch: e.streams[req.stream_id].max_epoch,
                        offset: 0,
                        payload: Seq::empty(),
                    },
                },
            ),
        ),
{
}

/// A stream lags exactly if it was not acknowledged for longer than the limit and has
/// a record that was not consumed in a segment that is no longer written to.
pub proof fn law_lagging_stream(
    e: EngineModel,
    id: u64,
    now_ns: u64,
    limit_ns: u64,
    current_segment_id: u64,
    lsn: u64,
)
    requires
        e.streams.contains_key(id),
    ensures
        now_ns - e.streams[id].last_ack_ns <= limit_ns ==> !engine::is_laggard(
            e,
            id,
            now_ns,
            limit_ns,
            current_segment_id,
        ),
        now_ns - e.streams[id].last_ack_ns > limit_ns && e.index.contains_key((id, lsn)) && lsn
            >= e.streams[id].consumed_stream_lsn && e.index[(id, lsn)].segment_id
            != current_segment_id ==> engine::is_laggard(
            e,
            id,
            now_ns,
            limit_ns,
            current_segment_id,
        ),
        (forall|l: u64| #[trigger]
            e.index.contains_key((id, l)) ==> l < e.streams[id].consumed_stream_lsn || e.index[(
                id,
                l,
            )].segment_id == current_segment_id) ==> !engine::is_laggard(
            e,
            id,
            now_ns,
            limit_ns,
            current_segment_id,
        ),
        engine::laggard_set(e, now_ns, limit_ns, current_segment_id).contains(id)
            <==> engine::is_laggard(e, id, now_ns, limit_ns, current_segment_id),
{
}

/// Watching streams and giving them up touches nothing but the streams, and giving up
/// touches only those that are given up: they take no more writes, and everything that
/// they hold counts as consumed.
pub proof fn law_giving_up_touches_its_streams_only(
    e: EngineModel,
    ids: Seq<u64>,
    watch: bool,
    now_ns: u64,
    id: u64,
)
    ensures
        ({
            let f = engine::after_fencing(e, ids);
            let w = engine::watching(e, watch, now_ns);
            let s = stream_state::stream_or_fresh(e.streams, id);
            let t = stream_state::stream_or_fresh(f.streams, id);
            &&& f.index == e.index && w.index == e.index
            &&& f.pending == e.pending && w.pending == e.pending
            &&& f.request_seq == e.request_seq && w.request_seq == e.request_seq
            &&& f.tail_limit == e.tail_limit && w.tail_limit == e.tail_limit
            &&& f.shard_id == e.shard_id && w.shard_id == e.shard_id
            &&& f.node_id == e.node_id && w.node_id == e.node_id
            &&& f.campaigned == e.campaigned && w.campaigned == e.campaigned
            &&& f.observed_role == e.observed_role && w.observed_role == e.observed_role
            &&& f.observed_leader_id == e.observed_leader_id && w.observed_leader_id
                == e.observed_leader_id
            &&& w.streams.dom() == e.streams.dom()
            &&& !ids.contains(id) ==> t == s
            &&& ids.contains(id) ==> {
                &&& t.banned
                &&& t.consumed_stream_lsn >= s.next_stream_lsn
                &&& t.consumed_stream_lsn >= s.consumed_stream_lsn
                &&& t.next_stream_lsn == s.next_stream_lsn
                &&& t.commit_stream_lsn == s.commit_stream_lsn
                &&& t.max_epoch == s.max_epoch
                &&& t.last_entry_id == s.last_entry_id
                &&& t.tail == s.tail
            }
        }),
{
    stream_state::law_bans_are_targeted(e.streams, ids, id);
    stream_state::law_watching_keeps_times(e.streams, watch, now_ns, id);
}

/// What is to be done for a request, as plain values, is what is to be done.
pub proof fn law_actions_hold_their_fields(
    response: ShardResponse,
    data: Vec<u8>,
    read: RecordRead,
)
    ensures
        Action::Respond(response)@ == ActionModel::Respond(response@),
        Action::Propose(data)@ == ActionModel::Propose(data@),
        Action::ReadRecord(read)@ == ActionModel::ReadRecord(read),
{
}

/// A snapshot is due as soon as 64 entries were applied since the one before, and not
/// earlier.
pub proof fn law_snapshot_is_due_every_64_entries(applied: u64, snapshot_index: u64)
    ensures
        applied < snapshot_index ==> !engine::snapshot_is_due(applied, snapshot_index),
        applied >= snapshot_index ==> (engine::snapshot_is_due(applied, snapshot_index) <==> applied
            - snapshot_index >= 64),
{
}

/// A message to the replica itself stays here, and any other goes to the replica that
/// it names, in the group of the shard.
pub proof fn law_messages_go_to_whom_they_name(e: EngineModel, to: u64)
    ensures
        to == e.node_id ==> engine::message_route(e, to) == MessageRoute::Local,
        to != e.node_id ==> engine::message_route(e, to) == (MessageRoute::Peer {
            group_id: e.shard_id,
            target_id: to,
        }),
{
}

/// Only the first replica stands for election by itself, once, and not before one and a
/// half seconds. A tick is due after 100 milliseconds, and a collection of garbage after
/// its interval in microseconds.
pub proof fn law_timers(e: EngineModel, ns: u128, gc_interval_us: u64)
    ensures
        engine::campaign_is_due(e, ns) <==> e.node_id == 1 && !e.campaigned && ns
            >= 1_500_000_000,
        engine::tick_is_due(ns) <==> ns >= 100_000_000,
        engine::gc_is_due(ns, gc_interval_us) <==> ns >= gc_interval_us * 1000,
{
}

/// Whether a record can be read: its stream is committed beyond it, it is indexed where
/// it was written, and what the tail cache holds at its LSN is its payload.
spec fn can_be_read(
    e: EngineModel,
    id: u64,
    lsn: u64,
    location: RecordLocation,
    payload: Seq<u8>,
) -> bool {
    &&& e.streams.contains_key(id)
    &&& lsn < e.streams[id].commit_stream_lsn
    &&& e.index.contains_key((id, lsn))
    &&& e.index[(id, lsn)] == location
    &&& forall|i: int|
        0 <= i < e.streams[id].tail.len() ==> (#[trigger] e.streams[id].tail[i]).stream_lsn == lsn
            ==> e.streams[id].tail[i].payload == payload
}

proof fn lemma_apply_keeps_readable(
    e: EngineModel,
    a: AppliedCommand,
    id: u64,
    lsn: u64,
    location: RecordLocation,
    payload: Seq<u8>,
)
    requires
        can_be_read(e, id, lsn, location, payload),
        (a.cmd.stream_id, a.cmd.stream_lsn) != (id, lsn),
    ensures
        can_be_read(
            engine::after_apply(e, a.raft_index, a.cmd, a.location),
            id,
            lsn,
            location,
            payload,
        ),
        engine::after_apply(e, a.raft_index, a.cmd, a.location).streams[id].consumed_stream_lsn
            == e.streams[id].consumed_stream_lsn,
{
    let after = engine::after_apply(e, a.raft_index, a.cmd, a.location);
    let (s, t) = (e.streams[id].tail, after.streams[id].tail);
    if a.cmd.stream_id == id {
        let record = TailModel {
            stream_lsn: a.cmd.stream_lsn,
            entry_id: a.raft_index,
            payload: a.cmd.payload,
        };
        let all = s.push(record);
        assert(t == stream_state::last_items(all, e.tail_limit as nat));
        assert forall|i: int| 0 <= i < t.len() && (#[trigger] t[i]).stream_lsn == lsn implies t[i].payload
            == payload by {
            let j = i + all.len() - t.len();
            assert(t[i] == all[j]);
            if j < s.len() {
                assert(all[j] == s[j]);
            }
        }
    }
}

proof fn lemma_request_keeps_readable(
    e: EngineModel,
    connection_id: u64,
    req: RequestModel,
    raft: RaftStatus,
    now_ns: u64,
    id: u64,
    lsn: u64,
    location: RecordLocation,
    payload: Seq<u8>,
)
    requires
        can_be_read(e, id, lsn, location, payload),
    ensures
        can_be_read(
            engine::request_outcome(e, connection_id, req, raft, now_ns).0,
            id,
            lsn,
            location,
            payload,
        ),
        engine::request_outcome(
            e,
            connection_id,
            req,
            raft,
            now_ns,
        ).0.streams[id].consumed_stream_lsn >= e.streams[id].consumed_stream_lsn,
{
    let after = engine::request_outcome(e, connection_id, req, raft, now_ns).0;
    let (s, t) = (e.streams[id].tail, after.streams[id].tail);
    if req.op == OpCode::Ack && req.stream_id == id {
        let k = stream_state::law_acknowledged_stream_is_consumed(e.streams, id, req.offset);
        assert(t == s.skip(k));
        assert forall|i: int| 0 <= i < t.len() && (#[trigger] t[i]).stream_lsn == lsn implies t[i].payload
            == payload by {
            assert(t[i] == s[i + k]);
        }
    } else {
        assert(t == s);
    }
}

proof fn lemma_event_keeps_readable(
    e: EngineModel,
    event: Event,
    id: u64,
    lsn: u64,
    location: RecordLocation,
    payload: Seq<u8>,
)
    requires
        can_be_read(e, id, lsn, location, payload),
        !overwrites(event, id, lsn),
    ensures
        ({
            let after = after_event(e, event);
            &&& after.streams.contains_key(id)
            &&& e.streams[id].consumed_stream_lsn <= after.streams[id].consumed_stream_lsn
            &&& after.streams[id].consumed_stream_lsn <= lsn ==> can_be_read(
                after,
                id,
                lsn,
                location,
                payload,
            )
        }),
{
    match event {
        Event::Asked { connection_id, req, raft, now_ns } => {
            lemma_request_keeps_readable(
                e,
                connection_id,
                req,
                raft,
                now_ns,
                id,
                lsn,
                location,
                payload,
            );
        },
        Event::Applied(a) => {
            lemma_apply_keeps_readable(e, a, id, lsn, location, payload);
        },
        Event::Watched { watch, now_ns } => {
            stream_state::law_watching_keeps_times(e.streams, watch, now_ns, id);
        },
        Event::Fenced { ids } => {
            stream_state::law_bans_are_targeted(e.streams, ids, id);
        },
        Event::Trimmed => {
            law_trimming_drops_what_was_consumed(e, (id, lsn));
        },
        Event::SteppedDown { list, role, leader_id } => {
            law_giving_up_moves_next_lsns_only(e.streams, list, id);
        },
    }
}

/// Whether an event applies another command with the stream and LSN of a record.
pub open spec fn overwrites(event: Event, id: u64, lsn: u64) -> bool {
    event matches Event::Applied(a) && a.cmd.stream_id == id && a.cmd.stream_lsn == lsn
}

proof fn lemma_events_keep_readable(
    e: EngineModel,
    events: Seq<Event>,
    id: u64,
    lsn: u64,
    location: RecordLocation,
    payload: Seq<u8>,
)
    requires
        can_be_read(e, id, lsn, location, payload),
        forall|i: int| 0 <= i < events.len() ==> !overwrites(#[trigger] events[i], id, lsn),
        after_events(e, events).streams.contains_key(id) ==> after_events(
            e,
            events,
        ).streams[id].consumed_stream_lsn <= lsn,
    ensures
        can_be_read(after_events(e, events), id, lsn, location, payload),
    decreases events.len(),
{
    if events.len() > 0 {
        let init = events.drop_last();
        let before = after_events(e, init);
        assert forall|i: int| 0 <= i < init.len() implies !overwrites(
            #[trigger] init[i],
            id,
            lsn,
        ) by {
            assert(init[i] == events[i]);
        }
        assert(!overwrites(events[events.len() - 1], id, lsn));
        lemma_stream_stays(e, init, id);
        if before.streams[id].consumed_stream_lsn > lsn {
            lemma_consumed_stays(before, events.last(), id);
        }
        lemma_events_keep_readable(e, init, id, lsn, location, payload);
        lemma_event_keeps_readable(before, events.last(), id, lsn, location, payload);
    }
}

proof fn lemma_consumed_stays(e: EngineModel, event: Event, id: u64)
    requires
        e.streams.contains_key(id),
    ensures
        after_event(e, event).streams.contains_key(id),
        e.streams[id].consumed_stream_lsn <= after_event(e, event).streams[id].consumed_stream_lsn,
{
    match event {
        Event::Watched { watch, now_ns } => {
            stream_state::law_watching_keeps_times(e.streams, watch, now_ns, id);
        },
        Event::Fenced { ids } => {
            stream_state::law_bans_are_targeted(e.streams, ids, id);
        },
        Event::SteppedDown { list, role, leader_id } => {
            law_giving_up_moves_next_lsns_only(e.streams, list, id);
        },
        _ => {},
    }
}

proof fn lemma_stream_stays(e: EngineModel, events: Seq<Event>, id: u64)
    requires
        e.streams.contains_key(id),
    ensures
        after_events(e, events).streams.contains_key(id),
        e.streams[id].consumed_stream_lsn <= after_events(e, events).streams[id].consumed_stream_lsn,
    decreases events.len(),
{
    if events.len() > 0 {
        lemma_stream_stays(e, events.drop_last(), id);
        lemma_consumed_stays(after_events(e, events.drop_last()), events.last(), id);
    }
}

/// A write is read back as long as it is not consumed: after its command was applied,
/// and whatever is asked, applied, watched, given up, collected or lost then, a read of
/// its LSN gives its payload from the tail cache, or asks the log where its record was
/// written, until its stream is consumed beyond it or another record takes its place.
pub proof fn law_write_is_read_back_until_consumed(
    e: EngineModel,
    applied: AppliedCommand,
    events: Seq<Event>,
    connection_id: u64,
    req: RequestModel,
    raft: RaftStatus,
    now_ns: u64,
)
    requires
        applied.cmd.stream_lsn < u64::MAX,
        e.streams.contains_key(applied.cmd.stream_id) ==> forall|i: int|
            0 <= i < e.streams[applied.cmd.stream_id].tail.len() ==> (
            #[trigger] e.streams[applied.cmd.stream_id].tail[i]).stream_lsn
                != applied.cmd.stream_lsn,
        forall|i: int|
            0 <= i < events.len() ==> !overwrites(
                #[trigger] events[i],
                applied.cmd.stream_id,
                applied.cmd.stream_lsn,
            ),
        ({
            let after = after_events(after_event(e, Event::Applied(applied)), events);
            after.streams.contains_key(applied.cmd.stream_id)
                ==> after.streams[applied.cmd.stream_id].consumed_stream_lsn
                <= applied.cmd.stream_lsn
        }),
        req.op == OpCode::Read,
        req.stream_id == applied.cmd.stream_id,
        req.offset == applied.cmd.stream_lsn,
        raft.role == Role::Leader,
    ensures
        ({
            let after = after_events(after_event(e, Event::Applied(applied)), events);
            match engine::request_outcome(after, connection_id, req, raft, now_ns).1 {
                ActionModel::Respond(r) => {
                    &&& r.connection_id == connection_id
                    &&& r.response.status == Status::Success
                    &&& r.response.offset == applied.cmd.stream_lsn
                    &&& r.response.payload == applied.cmd.payload
                },
                ActionModel::ReadRecord(read) => read == (RecordRead {
                    connection_id,
                    stream_id: applied.cmd.stream_id,
                    stream_lsn: applied.cmd.stream_lsn,
                    location: applied.location,
                }),
                ActionModel::Propose(_) => false,
            }
        }),
{
    let cmd = applied.cmd;
    let first = after_event(e, Event::Applied(applied));
    let s = stream_state::stream_or_fresh(e.streams, cmd.stream_id).tail;
    let t = first.streams[cmd.stream_id].tail;
    let record = TailModel {
        stream_lsn: cmd.stream_lsn,
        entry_id: applied.raft_index,
        payload: cmd.payload,
    };
    let all = s.push(record);
    assert(t == stream_state::last_items(all, e.tail_limit as nat));
    assert forall|i: int| 0 <= i < t.len() && (#[trigger] t[i]).stream_lsn == cmd.stream_lsn implies t[i].payload
        == cmd.payload by {
        let j = i + all.len() - t.len();
        assert(t[i] == all[j]);
        if j < s.len() {
            assert(all[j] == s[j]);
        }
    }
    assert(can_be_read(first, cmd.stream_id, cmd.stream_lsn, applied.location, cmd.payload));
    lemma_events_keep_readable(
        first,
        events,
        cmd.stream_id,
        cmd.stream_lsn,
        applied.location,
        cmd.payload,
    );
    let after = after_events(first, events);
    let tail = after.streams[cmd.stream_id].tail;
    stream_state::lemma_tail_at(tail, cmd.stream_lsn);
    if stream_state::tail_at(tail, cmd.stream_lsn) is Some {
        let i = lemma_first_at(tail, cmd.stream_lsn);
    }
}

} // verus!

//! Writes that are served one after the other.

use vstd::prelude::*;

use crate::protocol::types::{OpCode, RequestModel, Status};
use crate::replication::command::CommandModel;
use crate::replication::messages::EntryKind;
use crate::shard::engine;
use crate::shard::engine::{ActionModel, EngineModel, RaftStatus, RecordRead, Role};
use crate::shard::stream_state;
use crate::shard::stream_state::{StreamModel, TailModel};
use crate::wal::index::RecordLocation;
use crate::wal::record;
use crate::wal::record::RecordModel;

verus! {

/// A write: who asked, for what, what the group looked like to the leader and what
/// its clock showed, and where its entry and its record came to stand.
pub struct ServedWrite {
    pub connection_id: u64,
    pub payload: Seq<u8>,
    pub raft: RaftStatus,
    pub now_ns: u64,
    pub raft_index: u64,
    pub location: RecordLocation,
}

/// The request of a write.
pub open spec fn write_request(stream_id: u64, epoch: u64, payload: Seq<u8>) -> RequestModel {
    RequestModel { op: OpCode::Write, stream_id, epoch, offset: 0, payload }
}

/// What the leader does when a write arrives.
pub open spec fn on_request(
    e: EngineModel,
    stream_id: u64,
    epoch: u64,
    w: ServedWrite,
) -> (EngineModel, ActionModel) {
    engine::request_outcome(
        e,
        w.connection_id,
        write_request(stream_id, epoch, w.payload),
        w.raft,
        w.now_ns,
    )
}

/// The command that an action proposes, as its entry carries it when it comes
/// back committed.
pub open spec fn proposed(a: ActionModel) -> Option<CommandModel> {
    match a {
        ActionModel::Propose(data) => match engine::entry_command(EntryKind::Normal, data) {
            Ok(cmd) => cmd,
            Err(_) => None,
        },
        _ => None,
    }
}

/// The leader after a write was proposed, committed and applied.
pub open spec fn served(e: EngineModel, stream_id: u64, epoch: u64, w: ServedWrite) -> EngineModel {
    let (asked, action) = on_request(e, stream_id, epoch, w);
    engine::after_apply(asked, w.raft_index, proposed(action)->0, w.location)
}

/// The leader after writes were served, each before the next one arrived.
pub open spec fn all_served(
    e: EngineModel,
    stream_id: u64,
    epoch: u64,
    writes: Seq<ServedWrite>,
) -> EngineModel
    decreases writes.len(),
{
    if writes.len() == 0 {
        e
    } else {
        served(all_served(e, stream_id, epoch, writes.drop_last()), stream_id, epoch, writes.last())
    }
}

/// The command of write `i` of a stream, when `seq` request ids were handed out
/// before the first one.
pub open spec fn command_of(
    seq: u64,
    stream_id: u64,
    epoch: u64,
    i: int,
    payload: Seq<u8>,
) -> CommandModel {
    CommandModel {
        request_id: (seq + i + 1) as u64,
        stream_id,
        epoch,
        stream_lsn: i as u64,
        payload,
    }
}

/// A replica after it applied the commands of writes, each with its record at the
/// given location.
pub open spec fn all_applied(
    e: EngineModel,
    seq: u64,
    stream_id: u64,
    epoch: u64,
    writes: Seq<ServedWrite>,
    locations: Seq<RecordLocation>,
) -> EngineModel
    decreases writes.len(),
{
    if writes.len() == 0 {
        e
    } else {
        let i = writes.len() - 1;
        engine::after_apply(
            all_applied(e, seq, stream_id, epoch, writes.drop_last(), locations),
            writes[i].raft_index,
            command_of(seq, stream_id, epoch, i, writes[i].payload),
            locations[i],
        )
    }
}

/// Whether an engine knows nothing yet.
pub open spec fn is_fresh(e: EngineModel) -> bool {
    &&& e.streams == Map::<u64, StreamModel>::empty()
    &&& e.pending == Map::<u64, engine::PendingClientWrite>::empty()
}

/// Whether writes can be served one after the other: their replica leads, their
/// lengths fit a command, and no counter is used up.
pub open spec fn can_be_served(e: EngineModel, writes: Seq<ServedWrite>) -> bool {
    &&& e.request_seq + writes.len() <= u64::MAX
    &&& writes.len() < u64::MAX
    &&& forall|i: int|
        0 <= i < writes.len() ==> (#[trigger] writes[i]).raft.role == Role::Leader
            && writes[i].payload.len() <= u32::MAX
}

spec fn record_at(writes: Seq<ServedWrite>, i: int) -> TailModel {
    TailModel {
        stream_lsn: i as u64,
        entry_id: writes[i].raft_index,
        payload: writes[i].payload,
    }
}

spec fn records(writes: Seq<ServedWrite>) -> Seq<TailModel> {
    Seq::new(writes.len(), |i: int| record_at(writes, i))
}

/// What an engine knows of a stream after writes of it were applied.
spec fn knows(
    e: EngineModel,
    stream_id: u64,
    epoch: u64,
    writes: Seq<ServedWrite>,
    locations: Seq<RecordLocation>,
) -> bool {
    let s = stream_state::stream_or_fresh(e.streams, stream_id);
    let n = writes.len();
    &&& e.streams.contains_key(stream_id) <==> n > 0
    &&& s.max_epoch == (if n > 0 {
        epoch
    } else {
        0
    })
    &&& s.next_stream_lsn == n
    &&& s.commit_stream_lsn == n
    &&& s.consumed_stream_lsn == 0
    &&& !s.banned
    &&& s.tail == stream_state::last_items(records(writes), e.tail_limit as nat)
    &&& forall|i: int|
        0 <= i < n ==> e.index.contains_key((stream_id, #[trigger] lsn_of(i)))
            && e.index[(stream_id, lsn_of(i))] == locations[i]
}

spec fn lsn_of(i: int) -> u64 {
    i as u64
}

proof fn lemma_records_push(writes: Seq<ServedWrite>, limit: nat)
    requires
        writes.len() > 0,
    ensures
        stream_state::last_items(
            stream_state::last_items(records(writes.drop_last()), limit).push(
                record_at(writes, writes.len() - 1),
            ),
            limit,
        ) == stream_state::last_items(records(writes), limit),
{
    let init = writes.drop_last();
    let r = record_at(writes, writes.len() - 1);
    assert(records(init).push(r) =~= records(writes));
    assert(stream_state::last_items(
        stream_state::last_items(records(init), limit).push(r),
        limit,
    ) =~= stream_state::last_items(records(writes), limit));
}

proof fn lemma_apply(
    e: EngineModel,
    seq: u64,
    stream_id: u64,
    epoch: u64,
    writes: Seq<ServedWrite>,
    locations: Seq<RecordLocation>,
    allocated: bool,
)
    requires
        writes.len() > 0,
        writes.len() < u64::MAX,
        writes.len() <= locations.len(),
        !allocated ==> knows(e, stream_id, epoch, writes.drop_last(), locations),
        allocated ==> exists|before: EngineModel| #[trigger]
            knows(before, stream_id, epoch, writes.drop_last(), locations) && e.index
                == before.index && e.tail_limit == before.tail_limit && e.streams
                == stream_state::after_allocate(before.streams, stream_id, epoch),
    ensures
        ({
            let i = writes.len() - 1;
            knows(
                engine::after_apply(
                    e,
                    writes[i].raft_index,
                    command_of(seq, stream_id, epoch, i, writes[i].payload),
                    locations[i],
                ),
                stream_id,
                epoch,
                writes,
                locations,
            )
        }),
{
    let i = writes.len() - 1;
    let init = writes.drop_last();
    let cmd = command_of(seq, stream_id, epoch, i, writes[i].payload);
    let after = engine::after_apply(e, writes[i].raft_index, cmd, locations[i]);
    lemma_records_push(writes, e.tail_limit as nat);
    assert(record_at(writes, i).stream_lsn == i);
    assert forall|k: int| 0 <= k < writes.len() implies after.index.contains_key(
        (stream_id, #[trigger] lsn_of(k)),
    ) && after.index[(stream_id, lsn_of(k))] == locations[k] by {
        assert(lsn_of(k) == k);
        if k < i {
            assert(e.index.contains_key((stream_id, lsn_of(k))));
        }
    }
}

proof fn lemma_serve(
    e: EngineModel,
    stream_id: u64,
    epoch: u64,
    writes: Seq<ServedWrite>,
    locations: Seq<RecordLocation>,
)
    requires
        is_fresh(e),
        can_be_served(e, writes),
        locations == Seq::new(writes.len(), |i: int| writes[i].location),
    ensures
        ({
            let after = all_served(e, stream_id, epoch, writes);
            &&& knows(after, stream_id, epoch, writes, locations)
            &&& after.pending == Map::<u64, engine::PendingClientWrite>::empty()
            &&& after.request_seq == e.request_seq + writes.len()
            &&& after.tail_limit == e.tail_limit
        }),
        writes.len() > 0 ==> {
            let before = all_served(e, stream_id, epoch, writes.drop_last());
            let i = writes.len() - 1;
            let (asked, action) = on_request(before, stream_id, epoch, writes[i]);
            let cmd = command_of(e.request_seq, stream_id, epoch, i, writes[i].payload);
            &&& proposed(action) == Some(cmd)
            &&& engine::applied_reply(asked, cmd) == Some(
                engine::reply(
                    writes[i].connection_id,
                    Status::Success,
                    epoch,
                    i as u64,
                    Seq::empty(),
                ),
            )
        },
    decreases writes.len(),
{
    if writes.len() == 0 {
        assert(records(writes) =~= Seq::empty());
        assert(all_served(e, stream_id, epoch, writes) == e);
    } else {
        let init = writes.drop_last();
        let i = writes.len() - 1;
        let w = writes[i];
        let some = Seq::new(init.len(), |i: int| init[i].location);
        assert forall|k: int| 0 <= k < init.len() implies (#[trigger] init[k]).raft.role
            == Role::Leader && init[k].payload.len() <= u32::MAX by {
            assert(init[k] == writes[k]);
        }
        lemma_serve(e, stream_id, epoch, init, some);
        let before = all_served(e, stream_id, epoch, init);
        assert(knows(before, stream_id, epoch, init, locations)) by {
            assert forall|k: int| 0 <= k < init.len() implies before.index.contains_key(
                (stream_id, #[trigger] lsn_of(k)),
            ) && before.index[(stream_id, lsn_of(k))] == locations[k] by {
                assert(some[k] == locations[k]);
            }
        }
        let req = write_request(stream_id, epoch, w.payload);
        let (asked, action) = on_request(before, stream_id, epoch, w);
        assert(w.raft.role == Role::Leader && w.payload.len() <= u32::MAX);
        assert(engine::takes_lsn(before, req, w.raft));
        engine::law_proposed_write_finds_its_client(before, w.connection_id, req, w.raft, w.now_ns);
        let cmd = command_of(e.request_seq, stream_id, epoch, i, w.payload);
        lemma_proposed(before, stream_id, epoch, w);
        assert(proposed(action) == Some(cmd));
        assert(asked.streams == stream_state::after_allocate(before.streams, stream_id, epoch));
        lemma_apply(asked, e.request_seq, stream_id, epoch, writes, locations, true);
        let after = all_served(e, stream_id, epoch, writes);
        assert(writes.last() == w);
        assert(after == engine::after_apply(asked, w.raft_index, cmd, w.location));
        assert(after.pending =~= Map::<u64, engine::PendingClientWrite>::empty());
    }
}

proof fn lemma_proposed(e: EngineModel, stream_id: u64, epoch: u64, w: ServedWrite)
    requires
        engine::takes_lsn(e, write_request(stream_id, epoch, w.payload), w.raft),
        w.payload.len() <= u32::MAX,
    ensures
        proposed(on_request(e, stream_id, epoch, w).1) == Some(
            CommandModel {
                request_id: (e.request_seq + 1) as u64,
                stream_id,
                epoch,
                stream_lsn: stream_state::stream_or_fresh(e.streams, stream_id).next_stream_lsn,
                payload: w.payload,
            },
        ),
{
    crate::replication::command::law_command_roundtrip(
        CommandModel {
            request_id: (e.request_seq + 1) as u64,
            stream_id,
            epoch,
            stream_lsn: stream_state::stream_or_fresh(e.streams, stream_id).next_stream_lsn,
            payload: w.payload,
        },
    );
    engine::law_proposed_write_finds_its_client(
        e,
        w.connection_id,
        write_request(stream_id, epoch, w.payload),
        w.raft,
        w.now_ns,
    );
}

/// Writes to a stream that are served one after the other take the LSNs from zero
/// on, and write `i` is answered once: when its command is applied, with its
/// epoch and its LSN, to the connection that asked. No write is left pending.
pub proof fn law_writes_are_answered_in_order(
    e: EngineModel,
    stream_id: u64,
    epoch: u64,
    writes: Seq<ServedWrite>,
    i: int,
)
    requires
        is_fresh(e),
        can_be_served(e, writes),
        0 <= i < writes.len(),
    ensures
        ({
            let before = all_served(e, stream_id, epoch, writes.take(i));
            let (asked, action) = on_request(before, stream_id, epoch, writes[i]);
            let cmd = command_of(e.request_seq, stream_id, epoch, i, writes[i].payload);
            let after = all_served(e, stream_id, epoch, writes.take(i + 1));
            &&& proposed(action) == Some(cmd)
            &&& after == engine::after_apply(
                asked,
                writes[i].raft_index,
                cmd,
                writes[i].location,
            )
            &&& engine::applied_reply(asked, cmd) == Some(
                engine::reply(
                    writes[i].connection_id,
                    Status::Success,
                    epoch,
                    i as u64,
                    Seq::empty(),
                ),
            )
            &&& after.pending == Map::<u64, engine::PendingClientWrite>::empty()
        }),
{
    let some = writes.take(i + 1);
    assert forall|k: int| 0 <= k < some.len() implies (#[trigger] some[k]).raft.role
        == Role::Leader && some[k].payload.len() <= u32::MAX by {
        assert(some[k] == writes[k]);
    }
    lemma_serve(
        e,
        stream_id,
        epoch,
        some,
        Seq::new(some.len(), |k: int| some[k].location),
    );
    assert(some.drop_last() =~= writes.take(i));
    assert(some.last() == writes[i]);
}

/// After writes to a stream were served one after the other, the leader answers a
/// read of LSN `i` with payload `i`: from the cache if it is one of the last, as
/// many as the cache may hold, else from the record, which is looked for where it
/// was written and gives the payload if it stands there. The stream is committed
/// up to its end.
pub proof fn law_served_writes_are_read_back(
    e: EngineModel,
    stream_id: u64,
    epoch: u64,
    writes: Seq<ServedWrite>,
    i: int,
    connection_id: u64,
    r: RecordModel,
)
    requires
        is_fresh(e),
        can_be_served(e, writes),
        0 <= i < writes.len(),
        record::record_fits(r),
        r.term == epoch,
        r.stream_lsn == i,
        r.value == writes[i].payload,
    ensures
        ({
            let after = all_served(e, stream_id, epoch, writes);
            let success = engine::reply(
                connection_id,
                Status::Success,
                epoch,
                i as u64,
                writes[i].payload,
            );
            let read = RecordRead {
                connection_id,
                stream_id,
                stream_lsn: i as u64,
                location: writes[i].location,
            };
            &&& engine::read_outcome(after, connection_id, stream_id, i as u64) == (if i
                >= writes.len() - e.tail_limit {
                ActionModel::Respond(success)
            } else {
                ActionModel::ReadRecord(read)
            })
            &&& engine::read_reply(after, read, Some(record::record_bytes(r))) == success
            &&& after.streams[stream_id].next_stream_lsn == writes.len()
            &&& after.streams[stream_id].commit_stream_lsn == writes.len()
        }),
{
    let locations = Seq::new(writes.len(), |k: int| writes[k].location);
    lemma_serve(e, stream_id, epoch, writes, locations);
    let after = all_served(e, stream_id, epoch, writes);
    let tail = after.streams[stream_id].tail;
    let limit = e.tail_limit as nat;
    let first = if writes.len() <= limit {
        0
    } else {
        writes.len() - limit
    };
    assert forall|k: int| 0 <= k < tail.len() implies #[trigger] tail[k] == record_at(
        writes,
        first + k,
    ) by {}
    if i >= first {
        assert(tail[i - first] == record_at(writes, i));
        assert forall|j: int| 0 <= j < i - first implies (#[trigger] tail[j]).stream_lsn != tail[i
            - first].stream_lsn by {}
        stream_state::lemma_tail_holds(tail, i - first);
    } else {
        stream_state::lemma_tail_at(tail, i as u64);
        assert forall|k: int| 0 <= k < tail.len() implies (#[trigger] tail[k]).stream_lsn
            != i as u64 by {}
        assert(after.index.contains_key((stream_id, lsn_of(i))));
    }
    record::law_record_roundtrip(r, Seq::empty());
    assert(record::record_bytes(r) + Seq::<u8>::empty() =~= record::record_bytes(r));
}

/// A replica that applied the commands of all writes to a stream has it committed
/// up to its end, wherever its own records stand.
pub proof fn law_replicas_keep_up(
    e: EngineModel,
    seq: u64,
    stream_id: u64,
    epoch: u64,
    writes: Seq<ServedWrite>,
    locations: Seq<RecordLocation>,
)
    requires
        is_fresh(e),
        0 < writes.len() < u64::MAX,
        writes.len() == locations.len(),
    ensures
        ({
            let after = all_applied(e, seq, stream_id, epoch, writes, locations);
            &&& after.streams.contains_key(stream_id)
            &&& after.streams[stream_id].next_stream_lsn == writes.len()
            &&& after.streams[stream_id].commit_stream_lsn == writes.len()
        }),
{
    lemma_applied(e, seq, stream_id, epoch, writes, locations);
}

proof fn lemma_applied(
    e: EngineModel,
    seq: u64,
    stream_id: u64,
    epoch: u64,
    writes: Seq<ServedWrite>,
    locations: Seq<RecordLocation>,
)
    requires
        is_fresh(e),
        writes.len() < u64::MAX,
        writes.len() <= locations.len(),
    ensures
        knows(
            all_applied(e, seq, stream_id, epoch, writes, locations),
            stream_id,
            epoch,
            writes,
            locations,
        ),
    decreases writes.len(),
{
    if writes.len() == 0 {
        assert(records(writes) =~= Seq::empty());
        assert(all_applied(e, seq, stream_id, epoch, writes, locations) == e);
    } else {
        let init = writes.drop_last();
        lemma_applied(e, seq, stream_id, epoch, init, locations);
        let before = all_applied(e, seq, stream_id, epoch, init, locations);
        lemma_apply(before, seq, stream_id, epoch, writes, locations, false);
    }
}

} // verus!

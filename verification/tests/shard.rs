use std::time::Duration;

use bytes::Bytes;
use wal_server::channel::{ShardRequest, ShardResponse};
use wal_server::protocol::codec::{
    ack_request, append_request, decode_stream_status_payload, get_status_request, read_request,
};
use wal_server::protocol::types::{Request, Status};
use wal_server::replication::command::{
    decode_append_command, encode_append_command, AppendCommand, CommandError,
};
use wal_server::replication::messages::EntryKind;
use wal_server::shard::batch::GroupCommitBatcher;
use wal_server::shard::engine::{
    committed_command, Action, MessageRoute, RaftStatus, Role, ShardEngine, SNAPSHOT_INTERVAL,
};
use wal_server::shard::router::{hash_to_shard, ShardRouter};
use wal_server::shard::stream_state::StreamStateTable;
use wal_server::wal::index::{RecordLocation, StreamLogIndex};
use wal_server::wal::record::WalRecord;
use wal_server::wal::segment::segment_filename;
use wal_server::wal::writer::PendingWrite;

#[test]
fn test_route_deterministic() {
    let router = ShardRouter::new(4);
    let shard1 = router.route_stream(42);
    let shard2 = router.route_stream(42);
    assert_eq!(shard1, shard2);
    assert!(shard1 < 4);
}

#[test]
fn test_route_distribution() {
    let router = ShardRouter::new(8);
    let mut counts = [0u32; 8];
    for i in 0..10000u32 {
        let shard = router.route_stream(i as u64) as usize;
        counts[shard] += 1;
    }
    // Each shard should get at least some keys
    for count in &counts {
        assert!(*count > 500, "poor distribution: {counts:?}");
    }
}

#[test]
fn routes_follow_the_hash_of_the_stream_id() {
    let router = ShardRouter::new(7);
    assert_eq!(router.num_shards(), 7);
    for id in [0u64, 1, 42, u64::MAX] {
        let hash = xxhash_rust::xxh3::xxh3_64(&id.to_be_bytes());
        assert_eq!(router.route_stream(id), (hash % 7) as u16);
        assert_eq!(hash_to_shard(hash, 7), (hash % 7) as u16);
    }
}

fn pending(n: u64) -> PendingWrite {
    PendingWrite {
        connection_id: n,
        stream_id: 1,
        entry_id: n,
        stream_lsn: n,
    }
}

#[test]
fn a_batch_is_due_when_full_or_old() {
    let mut batch = GroupCommitBatcher::new(2);
    assert!(!batch.has_pending());
    assert!(!batch.should_flush(Duration::ZERO));
    assert!(!batch.is_due(Duration::from_secs(9), Duration::from_secs(1)));
    batch.push(pending(1));
    assert!(batch.has_pending());
    assert!(!batch.is_batch_full());
    assert!(batch.should_flush(Duration::ZERO));
    assert!(!batch.should_flush(Duration::from_secs(3600)));
    assert!(batch.is_due(Duration::from_micros(200), Duration::from_micros(200)));
    assert!(!batch.is_due(Duration::from_micros(199), Duration::from_micros(200)));
    let started = batch.pending_since().unwrap();
    assert!(batch.is_due_at(started + Duration::from_micros(200), Duration::from_micros(200)));
    assert!(!batch.is_due_at(started + Duration::from_micros(199), Duration::from_micros(200)));
    batch.push(pending(2));
    assert_eq!(batch.pending_since(), Some(started));
    assert!(batch.is_batch_full());
    assert!(batch.should_flush(Duration::from_secs(3600)));
    assert_eq!(batch.drain(), vec![pending(1), pending(2)]);
    assert!(!batch.has_pending());
    assert!(batch.pending_since().is_none());
    assert!(!batch.should_flush(Duration::ZERO));
    assert!(GroupCommitBatcher::new(0).should_flush(Duration::from_secs(3600)));
}

#[test]
fn append_command_roundtrip() {
    let cmd = AppendCommand {
        request_id: 10,
        stream_id: 7,
        epoch: 3,
        stream_lsn: 9,
        payload: Bytes::from_static(b"abc"),
    };
    let encoded = encode_append_command(&cmd);
    let decoded = decode_append_command(&encoded).unwrap();
    assert_eq!(decoded.request_id, 10);
    assert_eq!(decoded.stream_id, 7);
    assert_eq!(decoded.epoch, 3);
    assert_eq!(decoded.stream_lsn, 9);
    assert_eq!(decoded.payload.as_ref(), b"abc");
}

#[test]
fn bad_commands_are_refused() {
    let cmd = AppendCommand {
        request_id: 1,
        stream_id: 2,
        epoch: 3,
        stream_lsn: 4,
        payload: Bytes::from_static(b"abc"),
    };
    let mut data = encode_append_command(&cmd);
    assert_eq!(data.len(), 40);
    assert_eq!(data[0], 1);
    assert_eq!(decode_append_command(&data[..36]).unwrap_err(), CommandError::BufferTooSmall);
    assert_eq!(decode_append_command(&data[..39]).unwrap_err(), CommandError::BufferTooSmall);
    data[0] = 9;
    assert_eq!(decode_append_command(&data).unwrap_err(), CommandError::InvalidTag(9));
    assert_eq!(CommandError::InvalidTag(9).describe(), "invalid command tag: 9");
    assert_eq!(CommandError::BufferTooSmall.describe(), "command buffer too small");
}

#[test]
fn only_normal_entries_with_data_carry_commands() {
    let cmd = AppendCommand {
        request_id: 1,
        stream_id: 2,
        epoch: 3,
        stream_lsn: 4,
        payload: Bytes::new(),
    };
    let data = encode_append_command(&cmd);
    assert_eq!(committed_command(EntryKind::Normal, &data).unwrap().unwrap().stream_lsn, 4);
    assert!(committed_command(EntryKind::ConfChange, &data).unwrap().is_none());
    assert!(committed_command(EntryKind::ConfChangeV2, &data).unwrap().is_none());
    assert!(committed_command(EntryKind::Normal, &[]).unwrap().is_none());
    assert!(committed_command(EntryKind::Normal, b"x").is_err());
}

const LEADER: RaftStatus = RaftStatus {
    role: Role::Leader,
    leader_id: 1,
    committed: 40,
    applied: 39,
};

const FOLLOWER: RaftStatus = RaftStatus {
    role: Role::Follower,
    leader_id: 3,
    committed: 40,
    applied: 39,
};

fn engine(tail: usize) -> ShardEngine {
    ShardEngine::open(0, 1, StreamLogIndex::new(), StreamStateTable::new(tail))
}

fn ask(e: &mut ShardEngine, connection_id: u64, request: Request, raft: &RaftStatus) -> Action {
    ask_at(e, connection_id, request, raft, 0)
}

fn ask_at(
    e: &mut ShardEngine,
    connection_id: u64,
    request: Request,
    raft: &RaftStatus,
    now_ns: u64,
) -> Action {
    let request = ShardRequest {
        connection_id,
        request,
    };
    assert!(e.has_room(&request, raft));
    e.handle_client_request(request, raft, now_ns)
}

fn response(action: Action) -> ShardResponse {
    match action {
        Action::Respond(r) => r,
        Action::Propose(_) => panic!("proposed"),
        Action::ReadRecord(_) => panic!("reads the log"),
    }
}

fn proposal(action: Action) -> AppendCommand {
    match action {
        Action::Propose(data) => committed_command(EntryKind::Normal, &data).unwrap().unwrap(),
        _ => panic!("did not propose"),
    }
}

fn location(segment_id: u64) -> RecordLocation {
    RecordLocation {
        segment_id,
        offset: 64,
        size: 60,
    }
}

#[test]
fn a_write_is_proposed_applied_answered_and_read() {
    let mut e = engine(8);
    let request = append_request(7, 2, Bytes::from_static(b"first"));
    let cmd = proposal(ask(&mut e, 11, request, &LEADER));
    assert_eq!((cmd.request_id, cmd.stream_id, cmd.epoch, cmd.stream_lsn), (1, 7, 2, 0));
    assert_eq!(cmd.payload.as_ref(), b"first");

    let early = response(ask(&mut e, 12, read_request(7, 2, 0), &LEADER));
    assert_eq!(early.response.status, Status::ErrNotFound);

    let done = e.finish_apply(5, &cmd, location(0)).unwrap();
    assert_eq!(done.connection_id, 11);
    assert_eq!(done.response.status, Status::Success);
    assert_eq!((done.response.epoch, done.response.offset), (2, 0));
    assert!(e.finish_apply(6, &cmd, location(0)).is_none());

    let read = response(ask(&mut e, 12, read_request(7, 2, 0), &LEADER));
    assert_eq!(read.response.status, Status::Success);
    assert_eq!((read.response.epoch, read.response.offset), (2, 0));
    assert_eq!(read.response.payload.as_ref(), b"first");
}

#[test]
fn stale_epochs_are_fenced() {
    let mut e = engine(8);
    let _ = proposal(ask(&mut e, 1, append_request(7, 5, Bytes::new()), &LEADER));
    let refused = response(ask(&mut e, 2, append_request(7, 4, Bytes::new()), &LEADER));
    assert_eq!(refused.connection_id, 2);
    assert_eq!(refused.response.status, Status::ErrEpochFenced);
    assert_eq!((refused.response.epoch, refused.response.offset), (5, 0));
    let next = proposal(ask(&mut e, 3, append_request(7, 5, Bytes::new()), &LEADER));
    assert_eq!((next.request_id, next.stream_lsn), (2, 1));
}

#[test]
fn followers_name_the_leader() {
    let mut e = engine(8);
    for request in [append_request(7, 1, Bytes::new()), read_request(7, 1, 0)] {
        let r = response(ask(&mut e, 4, request, &FOLLOWER));
        assert_eq!(r.response.status, Status::ErrNotLeader);
        assert_eq!((r.response.epoch, r.response.offset), (0, 3));
    }
}

#[test]
fn acks_and_status_work_everywhere() {
    let mut e = engine(8);
    let r = response(ask(&mut e, 4, get_status_request(7), &FOLLOWER));
    assert_eq!(r.response.status, Status::Success);
    assert!(r.response.payload.is_empty());

    let cmd = proposal(ask(&mut e, 1, append_request(7, 3, Bytes::new()), &LEADER));
    e.finish_apply(9, &cmd, location(0));
    let r = response(ask(&mut e, 4, ack_request(7, 3, 1), &FOLLOWER));
    assert_eq!(r.response.status, Status::Success);
    assert_eq!((r.response.epoch, r.response.offset), (3, 1));

    let r = response(ask(&mut e, 4, get_status_request(7), &FOLLOWER));
    assert_eq!((r.response.epoch, r.response.offset), (3, 1));
    let status = decode_stream_status_payload(&r.response.payload).unwrap();
    assert_eq!(status.next_stream_lsn, 1);
    assert_eq!(status.commit_stream_lsn, 1);
    assert_eq!(status.consumed_stream_lsn, 1);
    assert_eq!(status.commit_index, 40);
    assert_eq!(status.last_applied, 39);
}

#[test]
fn cold_reads_go_to_the_log() {
    let mut e = engine(0);
    let cmd = proposal(ask(&mut e, 1, append_request(7, 3, Bytes::from_static(b"v")), &LEADER));
    e.finish_apply(9, &cmd, location(4));
    let read = match ask(&mut e, 2, read_request(7, 3, 0), &LEADER) {
        Action::ReadRecord(read) => read,
        _ => panic!("did not read the log"),
    };
    assert_eq!(read.location, location(4));
    let record = WalRecord {
        stream_id: 7,
        term: 3,
        entry_id: 9,
        stream_lsn: 0,
        timestamp_ns: 0,
        key: Bytes::new(),
        value: Bytes::from_static(b"v"),
    };
    let data = record.encode_to_vec();
    let r = e.finish_read(&read, Some(&data));
    assert_eq!(r.connection_id, 2);
    assert_eq!(r.response.status, Status::Success);
    assert_eq!((r.response.epoch, r.response.offset), (3, 0));
    assert_eq!(r.response.payload.as_ref(), b"v");
    for bytes in [None, Some(&data[..20])] {
        let r = e.finish_read(&read, bytes);
        assert_eq!(r.response.status, Status::ErrNotFound);
        assert_eq!((r.response.epoch, r.response.offset), (3, 0));
    }
    let unknown = response(ask(&mut e, 2, read_request(8, 3, 0), &LEADER));
    assert_eq!(unknown.response.status, Status::ErrNotFound);
}

#[test]
fn a_leader_that_steps_down_gives_its_writes_up() {
    let mut e = engine(8);
    assert!(e.log_raft_state_if_changed(Role::Leader, 1).is_empty());
    for (connection, stream) in [(1u64, 9u64), (2, 4), (3, 9), (4, 4)] {
        let _ = proposal(ask(&mut e, connection, append_request(stream, 2, Bytes::new()), &LEADER));
    }
    let replies = e.log_raft_state_if_changed(Role::Follower, 3);
    let order: Vec<u64> = replies.iter().map(|r| r.connection_id).collect();
    assert_eq!(order, vec![4, 2, 3, 1]);
    for r in &replies {
        assert_eq!(r.response.status, Status::ErrNotLeader);
        assert_eq!((r.response.epoch, r.response.offset), (2, 3));
    }
    assert!(e.log_raft_state_if_changed(Role::Follower, 2).is_empty());
    assert!(e.log_raft_state_if_changed(Role::Leader, 1).is_empty());
    for stream in [4u64, 9] {
        let cmd = proposal(ask(&mut e, 1, append_request(stream, 2, Bytes::new()), &LEADER));
        assert_eq!(cmd.stream_lsn, 0);
    }
}

#[test]
fn a_new_leader_keeps_the_role() {
    let mut e = engine(8);
    e.log_raft_state_if_changed(Role::Leader, 1);
    let _ = proposal(ask(&mut e, 1, append_request(5, 2, Bytes::new()), &LEADER));
    assert!(e.log_raft_state_if_changed(Role::Leader, 1).is_empty());
    assert_eq!(e.log_raft_state_if_changed(Role::Candidate, 0).len(), 1);
}

#[test]
fn snapshots_are_due_every_interval() {
    let mut e = engine(8);
    let cmd = proposal(ask(&mut e, 1, append_request(7, 3, Bytes::new()), &LEADER));
    e.finish_apply(70, &cmd, location(0));
    assert!(e.snapshot_plan(9 + SNAPSHOT_INTERVAL, 10).is_none());
    let plan = e.snapshot_plan(10 + SNAPSHOT_INTERVAL, 10).unwrap();
    assert_eq!((plan.index, plan.compact_index), (74, 75));
    let table = StreamStateTable::decode_snapshot(8, &plan.data).unwrap();
    assert_eq!(table.status(7).unwrap().commit_stream_lsn, 1);
}

#[test]
fn garbage_collection_spares_what_is_needed() {
    let mut e = engine(0);
    for (lsn, segment) in [(0u64, 0u64), (1, 0), (2, 1), (3, 2)] {
        let cmd = AppendCommand {
            request_id: 100 + lsn,
            stream_id: 7,
            epoch: 1,
            stream_lsn: lsn,
            payload: Bytes::new(),
        };
        e.finish_apply(lsn, &cmd, location(segment));
    }
    let names: Vec<String> = (0..5u64).map(|id| segment_filename(0, id)).collect();
    e.trim_index();
    assert_eq!(e.dead_segments(&names, 4), vec![(3, 3)]);
    response(ask(&mut e, 1, ack_request(7, 1, 3), &LEADER));
    e.trim_index();
    assert_eq!(e.dead_segments(&names, 4), vec![(0, 0), (1, 1), (3, 3)]);
    assert_eq!(e.dead_segments(&names, 0), vec![(1, 1), (3, 3), (4, 4)]);
    assert!(matches!(
        ask(&mut e, 1, read_request(7, 1, 3), &LEADER),
        Action::ReadRecord(_)
    ));
    let gone = response(ask(&mut e, 1, read_request(7, 1, 0), &LEADER));
    assert_eq!(gone.response.status, Status::ErrNotFound);
}

#[test]
fn timers_fire_at_their_limits() {
    let mut e = engine(0);
    assert!(!e.tick_due(Duration::from_micros(99_999)));
    assert!(e.tick_due(Duration::from_millis(100)));
    assert!(!e.campaign_due(Duration::from_millis(1499)));
    assert!(e.campaign_due(Duration::from_millis(1500)));
    e.note_campaign();
    assert!(!e.campaign_due(Duration::from_secs(60)));
    let other = ShardEngine::open(0, 2, StreamLogIndex::new(), StreamStateTable::new(0));
    assert!(!other.campaign_due(Duration::from_secs(60)));
    assert!(!e.gc_due(Duration::from_nanos(49_999_999), 50_000));
    assert!(e.gc_due(Duration::from_millis(50), 50_000));
}

#[test]
fn messages_to_oneself_stay_here() {
    let e = ShardEngine::open(6, 2, StreamLogIndex::new(), StreamStateTable::new(0));
    assert_eq!(e.route_message(2), MessageRoute::Local);
    assert_eq!(
        e.route_message(3),
        MessageRoute::Peer {
            group_id: 6,
            target_id: 3
        }
    );
}

#[test]
fn writes_are_answered_in_order_and_read_back() {
    let raft = RaftStatus {
        role: Role::Leader,
        leader_id: 1,
        committed: 0,
        applied: 0,
    };
    let mut e = engine(3);
    let mut replica = engine(3);
    let location = |i: u64| RecordLocation {
        segment_id: 0,
        offset: 64 + 60 * i,
        size: 60,
    };
    let n = 8u64;
    for i in 0..n {
        let payload = Bytes::from(vec![i as u8; 10]);
        let data = match ask(&mut e, 100 + i, append_request(7, 1, payload), &raft) {
            Action::Propose(data) => data,
            _ => panic!("a leader proposes"),
        };
        let cmd = committed_command(EntryKind::Normal, &data).unwrap().unwrap();
        let r = e.finish_apply(2 + i, &cmd, location(i)).unwrap();
        assert_eq!(r.connection_id, 100 + i);
        assert_eq!(r.response.status, Status::Success);
        assert_eq!((r.response.epoch, r.response.offset), (1, i));
        assert!(r.response.payload.is_empty());
        assert!(e.finish_apply(2 + i, &cmd, location(i)).is_none());
        assert!(replica.finish_apply(2 + i, &cmd, location(i)).is_none());
    }
    let mut e = engine(3);
    for i in 0..n {
        let payload = Bytes::from(vec![i as u8; 10]);
        if let Action::Propose(data) = ask(&mut e, 1, append_request(7, 1, payload), &raft) {
            let cmd = committed_command(EntryKind::Normal, &data).unwrap().unwrap();
            e.finish_apply(2 + i, &cmd, location(i)).unwrap();
        }
    }
    for i in 0..n {
        let response = match ask(&mut e, 5, read_request(7, 1, i), &raft) {
            Action::Respond(r) => {
                assert!(i >= n - 3);
                r
            }
            Action::ReadRecord(read) => {
                assert!(i < n - 3);
                assert_eq!(read.location, location(i));
                let record = WalRecord {
                    stream_id: 7,
                    term: 1,
                    entry_id: 2 + i,
                    stream_lsn: i,
                    timestamp_ns: 0,
                    key: Bytes::new(),
                    value: Bytes::from(vec![i as u8; 10]),
                };
                e.finish_read(&read, Some(&record.encode_to_vec()))
            }
            Action::Propose(_) => panic!("a read proposes nothing"),
        };
        assert_eq!(response.connection_id, 5);
        assert_eq!(response.response.status, Status::Success);
        assert_eq!((response.response.epoch, response.response.offset), (1, i));
        assert_eq!(response.response.payload, Bytes::from(vec![i as u8; 10]));
    }
    for e in [&mut e, &mut replica] {
        if let Action::Respond(r) = ask(e, 1, get_status_request(7), &raft) {
            let status = decode_stream_status_payload(&r.response.payload).unwrap();
            assert_eq!((status.next_stream_lsn, status.commit_stream_lsn), (n, n));
        } else {
            panic!("a status is answered");
        }
    }
}

#[test]
fn laggards_are_given_up() {
    let mut e = engine(0);
    for (stream_id, segment_id) in [(7u64, 0u64), (8, 1), (9, 4), (7, 2), (8, 2)] {
        let cmd = proposal(ask(&mut e, 1, append_request(stream_id, 3, Bytes::new()), &LEADER));
        e.finish_apply(5, &cmd, location(segment_id));
    }
    let names: Vec<String> = (0..5u64).map(|id| segment_filename(0, id)).collect();

    // Watching starts with the first look, and stops on a replica that does not lead.
    assert_eq!(e.laggards(1000, 500, 4).len(), 2);
    assert!(e.fence_laggards(Role::Follower, 900, 500, 4).is_empty());
    assert!(e.fence_laggards(Role::Leader, 1000, 500, 4).is_empty());
    assert!(e.laggards(1500, 500, 4).is_empty());
    response(ask_at(&mut e, 1, ack_request(8, 3, 0), &LEADER, 1400));
    assert_eq!(e.laggards(1501, 500, 4), vec![7]);
    assert!(e.fence_laggards(Role::Follower, 1501, 500, 4).is_empty());
    assert!(e.fence_laggards(Role::Leader, 2000, 500, 4).is_empty());
    response(ask_at(&mut e, 1, ack_request(8, 3, 0), &LEADER, 2400));

    e.trim_index();
    assert_eq!(e.dead_segments(&names, 4), vec![(3, 3)]);
    assert_eq!(e.fence_laggards(Role::Leader, 2501, 500, 4), vec![7]);
    e.trim_index();
    assert_eq!(e.dead_segments(&names, 4), vec![(0, 0), (3, 3)]);
    assert!(e.laggards(2501, 500, 4).is_empty());

    let refused = response(ask(&mut e, 6, append_request(7, 9, Bytes::new()), &LEADER));
    assert_eq!(refused.connection_id, 6);
    assert_eq!(refused.response.status, Status::ErrEpochFenced);
    assert_eq!((refused.response.epoch, refused.response.offset), (3, 0));
    let status = response(ask(&mut e, 1, get_status_request(7), &LEADER));
    let status = decode_stream_status_payload(&status.response.payload).unwrap();
    assert_eq!((status.next_stream_lsn, status.consumed_stream_lsn), (2, 2));

    proposal(ask(&mut e, 1, append_request(8, 3, Bytes::new()), &LEADER));
    proposal(ask(&mut e, 1, append_request(9, 3, Bytes::new()), &LEADER));
}

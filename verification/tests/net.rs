use std::collections::HashSet;

use bytes::Bytes;
use protobuf::Message as PbMessage;
use raft::eraftpb::{Entry, Message};
use wal_server::bench::{
    after_read, after_write, is_leader_answer, lag, least_read, next_hint, reader_turn,
    writer_stops, ReaderTurn, Step,
};
use wal_server::channel::{
    encode_raft_message, find_frame, frame_message, message_fits, sizes_fit, try_decode_raft_message,
    try_encode_raft_message, EntrySizes, MessageSizes, RaftFrameError, RaftOutbound, ShardResponse, UnknownSizes,
};
use wal_server::cli::{parse_u64, parse_usize};
use wal_server::config::{Overrides, PeerConfig, ServerConfig};
use wal_server::net::acceptor::{shard_unavailable, RequestBuffer, ResponseQueues};
use wal_server::net::peer::{encode_batch, join_frames, peer_addresses, FrameBuffer};
use wal_server::protocol::codec::{append_request, encode_request, read_request};
use wal_server::protocol::types::{OpCode, Response, Status};

fn message(to: u64) -> Message {
    let mut m = Message::default();
    m.to = to;
    m.from = 9;
    m.term = 4;
    let mut e = Entry::default();
    e.index = 3;
    e.data = Bytes::from_static(b"payload");
    m.mut_entries().push(e);
    m
}

#[test]
fn raft_messages_travel_in_frames() {
    let m = message(2);
    let frame = encode_raft_message(5, &m).unwrap();
    let wire = m.write_to_bytes().unwrap();
    assert_eq!(&frame[..2], &5u16.to_be_bytes());
    assert_eq!(&frame[2..6], &(wire.len() as u32).to_be_bytes());
    assert_eq!(&frame[6..], &wire[..]);
    assert_eq!(frame, frame_message(5, &wire));

    let mut data = frame.clone();
    data.extend_from_slice(b"more");
    let (group, back, n) = try_decode_raft_message(&data).unwrap().unwrap();
    assert_eq!((group, n), (5, frame.len()));
    assert_eq!(back, m);
    let (group, body, n) = find_frame(&data).unwrap();
    assert_eq!((group, body, n), (5, &wire[..], frame.len()));
    for n in 0..frame.len() {
        assert!(try_decode_raft_message(&frame[..n]).unwrap().is_none());
    }
}

#[test]
fn bad_raft_messages_are_refused() {
    let frame = frame_message(1, &vec![0xFF]);
    assert_eq!(try_decode_raft_message(&frame).unwrap_err(), RaftFrameError::Codec);
    assert_eq!(RaftFrameError::Codec.describe(), "malformed raft message");
    assert!(message_fits(&message(1)));
    assert_eq!(
        try_encode_raft_message(3, &message(1)).unwrap().unwrap(),
        encode_raft_message(3, &message(1)).unwrap()
    );
}

#[test]
fn frames_for_unknown_groups_are_dropped() {
    let mut known = HashSet::new();
    known.insert(1u16);
    let mut data = encode_raft_message(7, &message(1)).unwrap();
    data.extend_from_slice(&encode_raft_message(1, &message(2)).unwrap());
    data.extend_from_slice(&encode_raft_message(8, &message(3)).unwrap());
    let mut buffer = FrameBuffer::new();
    for byte in &data[..data.len() - 1] {
        buffer.feed(&[*byte]);
    }
    let inbound = buffer.next_inbound(&known).unwrap().unwrap();
    assert_eq!(inbound.group_id, 1);
    assert_eq!(inbound.message.to, 2);
    assert!(buffer.next_inbound(&known).unwrap().is_none());
    buffer.feed(&data[data.len() - 1..]);
    assert!(buffer.next_inbound(&known).unwrap().is_none());
    buffer.feed(&frame_message(7, &vec![0xFF]));
    assert!(buffer.next_inbound(&known).is_err());
}

#[test]
fn a_batch_is_one_run_of_frames() {
    assert!(encode_batch(&vec![]).is_none());
    let batch = vec![
        RaftOutbound {
            group_id: 0,
            target_id: 2,
            message: message(2),
        },
        RaftOutbound {
            group_id: 1,
            target_id: 2,
            message: message(3),
        },
    ];
    let mut expected = encode_raft_message(0, &message(2)).unwrap();
    expected.extend_from_slice(&encode_raft_message(1, &message(3)).unwrap());
    assert_eq!(encode_batch(&batch).unwrap(), expected);
    assert_eq!(join_frames(&vec![vec![1], vec![], vec![2, 3]]), vec![1, 2, 3]);
}

#[test]
fn the_last_address_of_a_peer_counts() {
    let peer = |id: u64, addr: &str| PeerConfig {
        id,
        addr: addr.to_string(),
    };
    let table = peer_addresses(&vec![peer(1, "a"), peer(2, "b"), peer(1, "c")]);
    assert_eq!(table.len(), 2);
    assert_eq!(table[&1], "c");
    assert_eq!(table[&2], "b");
}

#[test]
fn requests_come_out_however_the_bytes_are_cut() {
    let mut data = encode_request(&append_request(1, 2, Bytes::from_static(b"abc")));
    data.extend_from_slice(&encode_request(&read_request(4, 5, 6)));
    for step in [1usize, 3, 34, 1000] {
        let mut buffer = RequestBuffer::new();
        let mut got = Vec::new();
        for chunk in data.chunks(step) {
            buffer.feed(chunk);
            while let Some(request) = buffer.next_request().unwrap() {
                got.push(request);
            }
        }
        assert_eq!(got.len(), 2);
        assert_eq!((got[0].op, got[0].stream_id), (OpCode::Write, 1));
        assert_eq!(got[0].payload.as_ref(), b"abc");
        assert_eq!((got[1].op, got[1].offset), (OpCode::Read, 6));
    }
    let mut buffer = RequestBuffer::new();
    buffer.feed(&[0; 34]);
    assert!(buffer.next_request().is_err());
}

fn reply(connection_id: u64, offset: u64) -> ShardResponse {
    ShardResponse {
        connection_id,
        response: Response {
            status: Status::Success,
            epoch: 1,
            offset,
            payload: Bytes::new(),
        },
    }
}

#[test]
fn responses_wait_for_their_own_connection() {
    let mut queues = ResponseQueues::new();
    let a = queues.accept();
    let b = queues.accept();
    assert_eq!((a, b), (0, 1));
    queues.dispatch(reply(b, 1));
    queues.dispatch(reply(a, 2));
    queues.dispatch(reply(b, 3));
    queues.dispatch(reply(77, 4));
    let offsets = |all: Vec<ShardResponse>| all.iter().map(|r| r.response.offset).collect::<Vec<u64>>();
    assert_eq!(offsets(queues.take(b)), vec![1, 3]);
    assert!(queues.take(b).is_empty());
    assert!(queues.take(77).is_empty());
    queues.close(a);
    queues.dispatch(reply(a, 5));
    assert!(queues.take(a).is_empty());
    assert_eq!(queues.accept(), 2);
}

#[test]
fn an_unavailable_shard_is_reported() {
    let r = shard_unavailable();
    assert_eq!(r.status, Status::ErrShardUnavailable);
    assert_eq!((r.epoch, r.offset), (0, 0));
    assert!(r.payload.is_empty());
}

#[test]
fn the_default_configuration() {
    let c = ServerConfig::default();
    assert_eq!(c.node_id, 1);
    assert_eq!(c.listen_addr, "0.0.0.0:9876");
    assert_eq!(c.raft_listen_addr, "0.0.0.0:9976");
    assert_eq!(c.data_dir, "/tmp/wal_server/data");
    assert_eq!(c.num_shards, None);
    assert_eq!(c.segment_max_bytes, 67_108_864);
    assert_eq!((c.group_commit_interval_us, c.group_commit_max_batch), (200, 256));
    assert_eq!((c.channel_capacity, c.tail_cache_entries), (4096, 128));
    assert_eq!(c.gc_interval_us, 50_000);
    assert!(c.numa_aware);
    let peers: Vec<(u64, &str)> = c.peers.iter().map(|p| (p.id, p.addr.as_str())).collect();
    assert_eq!(peers, vec![(1, "127.0.0.1:9976"), (2, "127.0.0.1:9977"), (3, "127.0.0.1:9978")]);
    assert_eq!(c.voters(), vec![1, 2, 3]);
}

#[test]
fn the_command_line_overrides() {
    let mut c = ServerConfig::default();
    c.apply_overrides(Overrides {
        listen: Some("l".to_string()),
        raft_listen: None,
        node_id: Some(3),
        shards: Some(8),
        data_dir: Some("/d".to_string()),
    });
    assert_eq!(c.listen_addr, "l");
    assert_eq!(c.raft_listen_addr, "0.0.0.0:9976");
    assert_eq!((c.node_id, c.num_shards), (3, Some(8)));
    assert_eq!(c.data_dir, "/d");
    assert!(c.force_single_group());
    assert_eq!(c.num_shards, Some(1));
    assert!(!c.force_single_group());
}

#[test]
fn arguments_fall_back_to_their_defaults() {
    assert_eq!(parse_u64(None, 7), 7);
    assert_eq!(parse_u64(Some(&"12".to_string()), 7), 12);
    assert_eq!(parse_u64(Some(&"+12".to_string()), 7), 12);
    assert_eq!(parse_u64(Some(&"-1".to_string()), 7), 7);
    assert_eq!(parse_u64(Some(&"18446744073709551615".to_string()), 7), u64::MAX);
    assert_eq!(parse_u64(Some(&"18446744073709551616".to_string()), 7), 7);
    assert_eq!(parse_usize(Some(&"x".to_string()), 9), 9);
    assert_eq!(parse_usize(Some(&"10000".to_string()), 9), 10_000);
}

#[test]
fn benchmark_clients_follow_the_answers() {
    assert_eq!(after_write(Some((Status::Success, 4))), Step::Done { below: 5 });
    assert_eq!(
        after_write(Some((Status::ErrNotLeader, 4))),
        Step::FindLeader {
            pause_ms: 5,
            is_error: false
        }
    );
    assert_eq!(
        after_write(None),
        Step::FindLeader {
            pause_ms: 20,
            is_error: true
        }
    );
    assert_eq!(after_read(Some((Status::Success, 4)), 4, 9), Step::Done { below: 5 });
    assert_eq!(
        after_read(Some((Status::ErrNotFound, 4)), 4, 4),
        Step::Wait { pause_ms: 2 }
    );
    assert_eq!(
        after_read(Some((Status::ErrNotFound, 4)), 4, 5),
        Step::Reconnect { pause_ms: 5 }
    );
    assert_eq!(
        after_read(Some((Status::ErrInternal, 4)), 4, 5),
        Step::FindLeader {
            pause_ms: 20,
            is_error: true
        }
    );
    assert_eq!(reader_turn(4, 5, true), ReaderTurn::Ask);
    assert_eq!(reader_turn(5, 5, true), ReaderTurn::Stop);
    assert_eq!(reader_turn(5, 5, false), ReaderTurn::Pause);
    assert!(writer_stops(Some(true), 0, 9));
    assert!(!writer_stops(Some(false), 9, 9));
    assert!(writer_stops(None, 9, 9));
    assert!(!writer_stops(None, 8, 9));
    assert!(is_leader_answer(Status::ErrNotFound));
    assert!(!is_leader_answer(Status::ErrNotLeader));
    assert_eq!(next_hint(Some(2), 9), 2);
    assert_eq!(next_hint(None, 9), 10);
    assert_eq!(least_read(&vec![]), 0);
    assert_eq!(least_read(&vec![5, 3, 8]), 3);
    assert_eq!(lag(9, 3), 6);
    assert_eq!(lag(3, 9), 0);
}

#[test]
fn fields_that_are_not_known_are_sent_and_counted() {
    let mut m = message(2);
    m.mut_unknown_fields().add_length_delimited(99, vec![1, 2, 3]);
    m.mut_unknown_fields().add_fixed32(98, 7);
    m.mut_entries()[0].mut_unknown_fields().add_varint(97, 300);
    m.mut_snapshot().mut_unknown_fields().add_fixed64(96, 1);
    assert!(message_fits(&m));
    let frame = try_encode_raft_message(1, &m).unwrap().unwrap();
    assert_eq!(&frame[6..], &m.write_to_bytes().unwrap()[..]);
    let (_, back, _) = try_decode_raft_message(&frame).unwrap().unwrap();
    assert_eq!(back, m);
}

#[test]
fn sizes_are_counted_as_the_codec_does() {
    let none = || UnknownSizes {
        numbers: vec![],
        lengths: vec![],
    };
    let sizes = |entries: Vec<EntrySizes>, members: Vec<u64>, context: usize| MessageSizes {
        entries,
        context,
        snapshot_data: 0,
        members,
    };
    let limit = u32::MAX as usize - 256;
    assert!(sizes_fit(&sizes(vec![], vec![], limit), &none()));
    assert!(!sizes_fit(&sizes(vec![], vec![], limit + 1), &none()));
    assert!(!sizes_fit(&sizes(vec![], vec![], usize::MAX), &none()));

    for (term, index, sync_log, data, context) in [
        (0u64, 0u64, false, 0usize, 0usize),
        (1, 127, true, 127, 0),
        (128, 1 << 40, false, 128, 3),
        (u64::MAX, 300, true, 20_000, 1),
    ] {
        let mut e = Entry::default();
        e.term = term;
        e.index = index;
        e.sync_log = sync_log;
        e.data = Bytes::from(vec![0u8; data]);
        e.context = Bytes::from(vec![0u8; context]);
        let mut m = Message::default();
        m.mut_entries().push(e);
        let cost = m.compute_size() as usize;
        let entry = EntrySizes {
            entry_type: 0,
            term,
            index,
            sync_log,
            data,
            context,
        };
        assert!(sizes_fit(&sizes(vec![entry], vec![], limit - cost), &none()));
        assert!(!sizes_fit(&sizes(vec![entry], vec![], limit - cost + 1), &none()));
    }

    let members = vec![0, 1, 128, u64::MAX];
    let mut c = raft::eraftpb::ConfState::default();
    c.voters = members.clone();
    let cost = c.compute_size() as usize;
    assert!(sizes_fit(&sizes(vec![], members.clone(), limit - cost), &none()));
    assert!(!sizes_fit(&sizes(vec![], members, limit - cost + 1), &none()));

    let long = UnknownSizes {
        numbers: vec![],
        lengths: vec![u32::MAX as usize],
    };
    assert!(!sizes_fit(&sizes(vec![], vec![], 0), &long));
    let many = UnknownSizes {
        numbers: vec![(usize::MAX, usize::MAX, usize::MAX)],
        lengths: vec![],
    };
    assert!(!sizes_fit(&sizes(vec![], vec![], 0), &many));
    let few = UnknownSizes {
        numbers: vec![(1, 1, 1)],
        lengths: vec![5],
    };
    assert!(sizes_fit(&sizes(vec![], vec![], limit - 85), &few));
    assert!(!sizes_fit(&sizes(vec![], vec![], limit - 84), &few));
}

use bytes::Bytes;
use wal_server::shard::stream_state::{EpochFenceError, SnapshotError, StreamStateTable};

#[test]
fn allocates_monotonic_stream_lsns() {
    let mut table = StreamStateTable::new(2);
    let stream_id = 9;

    let lsn0 = table.allocate_append(stream_id, 3).unwrap();
    let lsn1 = table.allocate_append(stream_id, 3).unwrap();

    assert_eq!(lsn0, 0);
    assert_eq!(lsn1, 1);
}

#[test]
fn recovery_rebuilds_committed_stream_position() {
    let mut table = StreamStateTable::new(2);
    let stream_id = 7;

    table.observe_recovered(stream_id, 3, 11, 4, Bytes::from_static(b"one"));
    table.observe_recovered(stream_id, 3, 12, 5, Bytes::from_static(b"two"));

    let status = table.status(stream_id).unwrap();
    assert_eq!(status.max_epoch, 3);
    assert_eq!(status.next_stream_lsn, 6);
    assert_eq!(status.commit_stream_lsn, 6);
    assert_eq!(status.last_entry_id, 12);
}

#[test]
fn rejects_stale_epochs() {
    let mut table = StreamStateTable::new(2);
    table.allocate_append(1, 9).unwrap();

    assert!(matches!(
        table.allocate_append(1, 8),
        Err(EpochFenceError::Stale {
            current_epoch: 9,
            request_epoch: 8,
        })
    ));
}

#[test]
fn snapshot_roundtrip() {
    let mut table = StreamStateTable::new(2);
    table.observe_recovered(7, 3, 11, 4, Bytes::from_static(b"one"));
    table.advance_consumed(7, 3);
    let encoded = table.encode_snapshot();
    let decoded = StreamStateTable::decode_snapshot(2, &encoded).unwrap();
    let status = decoded.status(7).unwrap();
    assert_eq!(status.max_epoch, 3);
    assert_eq!(status.next_stream_lsn, 5);
    assert_eq!(status.consumed_stream_lsn, 3);
    assert_eq!(status.last_entry_id, 11);
}

#[test]
fn a_refused_append_changes_nothing() {
    let mut table = StreamStateTable::new(2);
    table.allocate_append(1, 9).unwrap();
    let before = table.status(1);
    assert!(table.allocate_append(1, 0).is_err());
    assert_eq!(table.status(1), before);
    assert_eq!(table.current_epoch(1), 9);
    assert_eq!(table.current_epoch(2), 0);
}

#[test]
fn rollback_gives_the_last_lsn_back_only() {
    let mut table = StreamStateTable::new(2);
    table.allocate_append(1, 1).unwrap();
    table.allocate_append(1, 1).unwrap();
    table.rollback_uncommitted_append(1, 0);
    assert_eq!(table.status(1).unwrap().next_stream_lsn, 2);
    table.rollback_uncommitted_append(1, 1);
    assert_eq!(table.status(1).unwrap().next_stream_lsn, 1);
    table.mark_appended(1, 1, 5, 0, Bytes::new());
    table.mark_committed(1, 5, 0);
    table.rollback_uncommitted_append(1, 0);
    assert_eq!(table.status(1).unwrap().next_stream_lsn, 1);
    table.rollback_uncommitted_append(99, 0);
    assert!(table.status(99).is_none());
}

#[test]
fn the_tail_cache_is_bounded_and_drops_what_was_consumed() {
    let mut table = StreamStateTable::new(2);
    for lsn in 0..4u64 {
        table.mark_appended(3, 1, 10 + lsn, lsn, Bytes::from(vec![lsn as u8]));
    }
    assert!(table.read_from_tail(3, 1).is_none());
    let record = table.read_from_tail(3, 2).unwrap();
    assert_eq!((record.stream_lsn, record.entry_id), (2, 12));
    assert_eq!(record.payload.as_ref(), &[2]);
    assert_eq!(table.advance_consumed(3, 3), 3);
    assert!(table.read_from_tail(3, 2).is_none());
    assert!(table.read_from_tail(3, 3).is_some());
    assert_eq!(table.advance_consumed(3, 1), 3);
    assert!(table.read_from_tail(4, 0).is_none());
}

#[test]
fn a_table_without_cache_remembers_positions_only() {
    let mut table = StreamStateTable::default();
    table.mark_appended(3, 2, 7, 0, Bytes::from_static(b"x"));
    assert!(table.read_from_tail(3, 0).is_none());
    assert_eq!(table.status(3).unwrap().next_stream_lsn, 1);
}

#[test]
fn totals_cover_all_streams() {
    let mut table = StreamStateTable::new(1);
    assert_eq!(table.len(), 0);
    assert_eq!(table.max_entry_id(), None);
    table.mark_committed(1, 5, 0);
    table.mark_committed(2, 9, 3);
    assert_eq!(table.len(), 2);
    assert_eq!(table.max_entry_id(), Some(9));
    let mut all = table.all_statuses();
    all.sort_by_key(|s| s.stream_id);
    assert_eq!(all.len(), 2);
    assert_eq!((all[0].stream_id, all[0].commit_stream_lsn), (1, 1));
    assert_eq!((all[1].stream_id, all[1].commit_stream_lsn), (2, 4));
}

#[test]
fn snapshots_hold_every_stream_and_no_tail() {
    let mut table = StreamStateTable::new(4);
    for id in 0..20u64 {
        table.observe_recovered(id, id, id * 2, id * 3, Bytes::from_static(b"p"));
    }
    let bytes = table.encode_snapshot();
    assert_eq!(bytes.len(), 4 + 20 * 48);
    assert_eq!(&bytes[..4], &20u32.to_be_bytes());
    let back = StreamStateTable::decode_snapshot(4, &bytes).unwrap();
    assert_eq!(back.len(), 20);
    for id in 0..20u64 {
        assert_eq!(back.status(id), table.status(id));
        assert!(back.read_from_tail(id, id * 3).is_none());
    }
}

#[test]
fn bad_snapshots_are_refused() {
    assert_eq!(StreamStateTable::decode_snapshot(1, &[]).unwrap().len(), 0);
    assert!(matches!(
        StreamStateTable::decode_snapshot(1, &[0, 0, 0]),
        Err(SnapshotError::TooSmall)
    ));
    assert!(matches!(
        StreamStateTable::decode_snapshot(1, &[0, 0, 0, 1, 5]),
        Err(SnapshotError::Truncated)
    ));
    assert_eq!(SnapshotError::TooSmall.describe(), "stream snapshot too small");
    assert_eq!(SnapshotError::Truncated.describe(), "stream snapshot truncated");
}

#[test]
fn replaying_over_a_snapshot_changes_no_position() {
    let mut table = StreamStateTable::new(4);
    for lsn in 0..5u64 {
        table.observe_recovered(1, 2, 100 + lsn, lsn, Bytes::new());
    }
    let before = table.status(1);
    let mut again = StreamStateTable::decode_snapshot(4, &table.encode_snapshot()).unwrap();
    for lsn in 0..5u64 {
        again.observe_recovered(1, 2, 100 + lsn, lsn, Bytes::new());
    }
    assert_eq!(again.status(1), before);
}

#[test]
fn the_last_appends_are_read_back() {
    for limit in [0usize, 1, 3, 5, 9] {
        let mut table = StreamStateTable::new(limit);
        let lsns = [4u64, 0, 7, 2, 5];
        for (i, lsn) in lsns.iter().enumerate() {
            table.mark_appended(8, 10 - i as u64, 20 + i as u64, *lsn, Bytes::from(vec![i as u8]));
        }
        for (i, lsn) in lsns.iter().enumerate() {
            let found = table.read_from_tail(8, *lsn);
            if i + limit >= lsns.len() {
                let found = found.unwrap();
                assert_eq!((found.stream_lsn, found.entry_id), (*lsn, 20 + i as u64));
                assert_eq!(found.payload.as_ref(), &[i as u8]);
            } else {
                assert!(found.is_none());
            }
        }
        let status = table.status(8).unwrap();
        assert_eq!((status.max_epoch, status.last_entry_id), (10, 24));
        assert_eq!((status.next_stream_lsn, status.commit_stream_lsn), (8, 0));
        assert!(table.status(9).is_none());
        assert_eq!(table.len(), 1);
    }
}

#[test]
fn a_stream_that_is_given_up_counts_as_consumed() {
    let mut table = StreamStateTable::new(2);
    table.observe_recovered(7, 3, 11, 4, Bytes::from_static(b"one"));
    table.observe_recovered(8, 1, 12, 0, Bytes::new());
    table.note_ack(7, 50);
    assert_eq!((table.last_ack_ns(7), table.last_ack_ns(8)), (50, 0));
    table.watch_acks(true, 60);
    assert_eq!((table.last_ack_ns(7), table.last_ack_ns(8)), (50, 60));
    table.ban_stream(7);
    assert!(table.is_banned(7) && !table.is_banned(8) && !table.is_banned(9));
    assert_eq!(table.status(7).unwrap().consumed_stream_lsn, 5);
    assert_eq!(table.status(8).unwrap().consumed_stream_lsn, 0);
    table.watch_acks(false, 70);
    assert_eq!((table.last_ack_ns(7), table.last_ack_ns(8)), (0, 0));

    let back = StreamStateTable::decode_snapshot(2, &table.encode_snapshot()).unwrap();
    assert_eq!(back.status(7), table.status(7));
    assert!(!back.is_banned(7));
}

#[test]
fn a_restart_over_a_snapshot_finds_the_positions() {
    let records = [(7u64, 1u64, 0u64), (8, 1, 0), (7, 2, 1), (9, 5, 3), (7, 2, 2), (8, 4, 1)];
    let mut live = StreamStateTable::new(3);
    let mut snapshot = Vec::new();
    for (i, (stream_id, epoch, lsn)) in records.iter().enumerate() {
        if i == 3 {
            live.advance_consumed(7, 1);
            snapshot = live.encode_snapshot();
        }
        live.mark_appended(*stream_id, *epoch, i as u64, *lsn, Bytes::new());
        live.mark_committed(*stream_id, i as u64, *lsn);
    }
    let mut back = StreamStateTable::decode_snapshot(3, &snapshot).unwrap();
    for (i, (stream_id, epoch, lsn)) in records.iter().enumerate() {
        back.observe_recovered(*stream_id, *epoch, i as u64, *lsn, Bytes::new());
    }
    for stream_id in 6..11 {
        assert_eq!(back.status(stream_id), live.status(stream_id));
    }
    assert_eq!(back.len(), 3);
}

use bytes::Bytes;
use wal_server::shard::stream_state::StreamStateTable;
use wal_server::wal::index::{RecordLocation, StreamLogIndex};
use wal_server::wal::reader::{locate_record, read_record, WalReaderError};
use wal_server::wal::record::{WalRecord, WalRecordError};
use wal_server::wal::segment::{
    decode_segment_header, parse_segment_filename, segment_filename, SegmentError,
};
use wal_server::wal::writer::{
    create_segment, resume_offset, room_left, scan_segment, AppendPlan, PendingWrite, Recovery, WalWriter,
    WalWriterError,
};

/// A segment file in memory.
struct Image {
    segment_id: u64,
    data: Vec<u8>,
}

impl Image {
    fn create(shard_id: u16, segment_id: u64) -> Self {
        let new = create_segment(shard_id, segment_id);
        assert_eq!(parse_segment_filename(&new.filename), Some((shard_id, segment_id)));
        Image {
            segment_id,
            data: new.header.to_vec(),
        }
    }

    fn write(&mut self, writer: &mut WalWriter, plan: &AppendPlan) -> bool {
        assert_eq!(plan.location.segment_id, self.segment_id);
        let at = plan.location.offset as usize;
        assert!(at <= self.data.len());
        self.data.truncate(at);
        self.data.extend_from_slice(&plan.data);
        writer.finish_append(plan.data.len() as u64)
    }

    fn read(&self, loc: &RecordLocation) -> &[u8] {
        &self.data[loc.offset as usize..loc.offset as usize + loc.size as usize]
    }
}

#[test]
fn recovers_index_and_stream_state_from_segments() {
    let mut writer = WalWriter::open(1, 1024, None, 0);
    let mut image = Image::create(1, writer.current_segment_id());
    let mut streams = StreamStateTable::new(8);

    let stream_id = 42;
    let plan0 = writer.append(stream_id, 3, 0, b"alpha", b"one");
    image.write(&mut writer, &plan0);
    streams.mark_appended(stream_id, 3, plan0.entry_id, 0, Bytes::from_static(b"one"));
    let plan1 = writer.append(stream_id, 3, 1, b"alpha", b"two");
    image.write(&mut writer, &plan1);
    streams.mark_appended(stream_id, 3, plan1.entry_id, 1, Bytes::from_static(b"two"));

    assert_eq!(plan0.entry_id, 0);
    assert_eq!(plan0.location.segment_id, 0);
    assert_eq!(writer.current_segment_id(), 0);

    let mut recovery = Recovery::new(8, None);
    assert_eq!(recovery.replay_segment(0, &image.data), Ok(true));
    assert_eq!(recovery.next_entry_id, 2);
    assert_eq!(recovery.index.len(), 2);
    assert_eq!(recovery.streams.len(), 1);

    let loc = locate_record(42, 1, &recovery.index).unwrap();
    let record = read_record(image.read(&loc)).unwrap();
    assert_eq!(record.stream_id, 42);
    assert_eq!(record.term, 3);
    assert_eq!(record.entry_id, 1);
    assert_eq!(record.stream_lsn, 1);
    assert_eq!(record.value.as_ref(), b"two");

    let reopened = WalWriter::open(1, 1024, Some((0, image.data.len() as u64)), recovery.next_entry_id);
    assert_eq!(reopened.next_entry_id(), 2);
    assert_eq!(reopened.current_offset(), image.data.len() as u64);
    assert_eq!(reopened.next_segment_id(), 1);
}

#[test]
fn a_torn_write_ends_the_scan() {
    let mut writer = WalWriter::open(0, 1 << 20, None, 0);
    let mut image = Image::create(0, 0);
    for lsn in 0..3u64 {
        let plan = writer.append_at(5, 1, lsn, b"", &[lsn as u8; 10], 77);
        image.write(&mut writer, &plan);
    }
    let torn = writer.append_at(5, 1, 3, b"", b"lost", 77);
    for n in 0..torn.data.len() {
        let mut data = image.data.clone();
        data.extend_from_slice(&torn.data[..n]);
        let found = scan_segment(&data).unwrap();
        assert_eq!(found.len(), 3);
        assert_eq!(found[2].record.stream_lsn, 2);
        assert_eq!(found[2].record.timestamp_ns, 77);
        assert_eq!(found[0].offset, 64);
        assert_eq!(found[1].offset, 64 + 60);
        assert_eq!(found[1].size, 60);
    }
}

#[test]
fn short_files_are_skipped_and_foreign_ones_refused() {
    let mut recovery = Recovery::new(2, None);
    assert_eq!(recovery.replay_segment(0, &[1, 2, 3]), Ok(true));
    assert!(recovery.index.is_empty());
    let mut data = Image::create(0, 0).data;
    data[0] = 0;
    let error = recovery.replay_segment(0, &data).unwrap_err();
    assert_eq!(error, WalWriterError::Segment(SegmentError::BadMagic(0x00534547)));
    assert_eq!(error.describe(), "WAL writer segment: bad segment magic: 0x00534547");
}

#[test]
fn counters_that_are_used_up_are_reported() {
    let mut image = Image::create(0, 0);
    let record = WalRecord {
        stream_id: 1,
        term: 1,
        entry_id: u64::MAX,
        stream_lsn: 0,
        timestamp_ns: 0,
        key: Bytes::new(),
        value: Bytes::new(),
    };
    image.data.extend_from_slice(&record.encode_to_vec());
    assert!(!room_left(&scan_segment(&image.data).unwrap()));
    let mut recovery = Recovery::new(2, None);
    assert_eq!(recovery.replay_segment(0, &image.data), Ok(false));
    assert_eq!(recovery.streams.len(), 0);
}

#[test]
fn a_full_segment_rotates() {
    let mut writer = WalWriter::open(3, 120, None, 0);
    let mut first = Image::create(3, 0);
    let plan = writer.append(1, 1, 0, b"", b"0123456789");
    assert!(first.write(&mut writer, &plan));
    let next = writer.next_segment();
    assert_eq!(next.segment_id, 1);
    assert_eq!(next.filename, segment_filename(3, 1));
    let (shard, segment, _) = decode_segment_header(&next.header).unwrap();
    assert_eq!((shard, segment), (3, 1));
    writer.finish_rotation();
    let mut second = Image::create(3, writer.current_segment_id());
    let plan = writer.append(1, 1, 1, b"", b"");
    assert_eq!((plan.location.segment_id, plan.location.offset, plan.location.size), (1, 64, 50));
    assert!(!second.write(&mut writer, &plan));

    let mut recovery = Recovery::new(4, None);
    assert_eq!(recovery.replay_segment(0, &first.data), Ok(true));
    assert_eq!(recovery.replay_segment(1, &second.data), Ok(true));
    assert_eq!(recovery.index.len(), 2);
    assert_eq!(recovery.index.lookup(1, 0).unwrap().segment_id, 0);
    assert_eq!(recovery.index.lookup(1, 1).unwrap().segment_id, 1);
    assert_eq!(recovery.streams.status(1).unwrap().next_stream_lsn, 2);
}

#[test]
fn replicated_entries_keep_their_log_index() {
    let mut writer = WalWriter::open(0, 1 << 20, None, 0);
    let plan = writer.append_with_log_index(9, 4, 2, 100, b"payload");
    assert_eq!(plan.entry_id, 100);
    assert_eq!(writer.next_entry_id(), 101);
    let record = read_record(&plan.data).unwrap();
    assert_eq!((record.stream_id, record.term, record.stream_lsn, record.entry_id), (9, 4, 2, 100));
    assert!(record.key.is_empty());
    assert_eq!(record.value.as_ref(), b"payload");
    let plan = writer.append_log_entry_at(9, 4, 3, 50, b"", 12);
    assert_eq!(writer.next_entry_id(), 101);
    assert_eq!(read_record(&plan.data).unwrap().timestamp_ns, 12);
}

#[test]
fn recovery_continues_from_a_snapshot() {
    let mut table = StreamStateTable::new(4);
    table.observe_recovered(7, 3, 11, 4, Bytes::new());
    table.advance_consumed(7, 3);
    let recovery = Recovery::new(4, Some(table));
    assert_eq!(recovery.streams.status(7).unwrap().consumed_stream_lsn, 3);
    assert_eq!(recovery.next_entry_id, 0);
}

#[test]
fn missing_and_corrupt_records_are_told_apart() {
    let index = StreamLogIndex::new();
    assert_eq!(locate_record(1, 8, &index), Err(WalReaderError::NotFound(8)));
    assert_eq!(WalReaderError::NotFound(8).describe(), "LSN 8 not found");
    let error = read_record(&[0; 10]).unwrap_err();
    assert_eq!(error, WalReaderError::Corrupt(WalRecordError::BufferTooSmall));
    assert_eq!(error.describe(), "corrupt record: buffer too small for WAL record");
}

#[test]
fn the_index_finds_counts_and_truncates() {
    let loc = |segment_id: u64, offset: u64| RecordLocation {
        segment_id,
        offset,
        size: 60,
    };
    let mut index = StreamLogIndex::new();
    assert!(index.is_empty());
    for lsn in 0..5u64 {
        index.insert(1, lsn, loc(lsn / 2, 64 + 60 * lsn));
    }
    index.insert(2, 9, loc(7, 64));
    assert_eq!(index.len(), 6);
    assert_eq!(index.stream_len(1), 5);
    assert_eq!(index.stream_len(3), 0);
    assert_eq!(index.lookup(1, 3), Some(&loc(1, 244)));
    assert_eq!(index.lookup(1, 5), None);
    assert_eq!(index.lookup(3, 0), None);
    let mut streams = index.stream_ids();
    streams.sort();
    assert_eq!(streams, vec![1, 2]);
    assert!(index.holds_outside(1, 4, 0) && !index.holds_outside(1, 4, 2));
    assert!(index.holds_outside(1, 3, 2) && !index.holds_outside(1, 5, 0));
    assert!(!index.holds_outside(3, 0, 0));
    let mut live: Vec<u64> = index.live_segment_ids().into_iter().collect();
    live.sort();
    assert_eq!(live, vec![0, 1, 2, 7]);

    index.truncate_stream_before(1, 4);
    assert_eq!(index.stream_len(1), 1);
    assert_eq!(index.lookup(1, 4), Some(&loc(2, 304)));
    let mut live: Vec<u64> = index.live_segment_ids().into_iter().collect();
    live.sort();
    assert_eq!(live, vec![2, 7]);
    index.truncate_stream_before(1, 100);
    index.truncate_stream_before(2, 100);
    index.truncate_stream_before(3, 100);
    assert!(index.is_empty());
    assert_eq!(index.len(), 0);
    assert!(index.stream_ids().is_empty());

    index.insert(1, 1, loc(1, 1));
    index.insert(1, 1, loc(2, 2));
    assert_eq!(index.lookup(1, 1), Some(&loc(2, 2)));
    assert_eq!(index.len(), 1);
}

#[test]
fn pending_writes_compare_by_their_fields() {
    let a = PendingWrite {
        connection_id: 1,
        stream_id: 2,
        entry_id: 3,
        stream_lsn: 4,
    };
    assert_eq!(a, a.clone());
}

#[test]
fn the_log_goes_on_after_a_torn_write() {
    let mut writer = WalWriter::open(1, 1 << 20, None, 0);
    let mut image = Image::create(1, 0);
    let first = writer.append(5, 1, 0, b"", b"kept");
    image.write(&mut writer, &first);
    let whole = image.data.len();
    let torn = writer.append(5, 1, 1, b"key", &[7u8; 100]);
    for n in 1..torn.data.len() {
        let mut data = image.data.clone();
        data.extend_from_slice(&torn.data[..n]);
        assert_eq!(resume_offset(&data), whole as u64);

        let mut recovery = Recovery::new(4, None);
        assert_eq!(recovery.replay_segment(0, &data), Ok(true));
        assert_eq!(recovery.next_entry_id, 1);
        let at = resume_offset(&data);
        data.truncate(at as usize);
        let mut again = WalWriter::open(1, 1 << 20, Some((0, at)), recovery.next_entry_id);
        let plan = again.append(5, 1, 1, b"", b"after");
        assert_eq!((plan.entry_id, plan.location.offset), (1, at));
        data.extend_from_slice(&plan.data);

        let mut recovery = Recovery::new(4, None);
        assert_eq!(recovery.replay_segment(0, &data), Ok(true));
        assert_eq!(recovery.next_entry_id, 2);
        assert_eq!(recovery.index.len(), 2);
        let loc = locate_record(5, 1, &recovery.index).unwrap();
        assert_eq!(loc, plan.location);
        assert_eq!(resume_offset(&data), data.len() as u64);
    }
    assert_eq!(resume_offset(&image.data), whole as u64);
}

#[test]
fn a_torn_header_is_written_anew() {
    let image = Image::create(2, 3);
    for n in 0..64 {
        assert_eq!(resume_offset(&image.data[..n]), 0);
    }
    assert_eq!(resume_offset(&image.data), 64);
    let mut writer = WalWriter::open(2, 1 << 20, Some((3, 0)), 9);
    assert_eq!((writer.current_segment_id(), writer.current_offset()), (3, 64));
    let mut image = Image::create(2, 3);
    let plan = writer.append(1, 1, 0, b"", b"x");
    image.write(&mut writer, &plan);
    let found = scan_segment(&image.data).unwrap();
    assert_eq!((found.len(), found[0].offset, found[0].record.entry_id), (1, 64, 9));
}

#[test]
fn a_restart_finds_the_log_as_it_was_left() {
    let mut writer = WalWriter::open(4, 300, None, 0);
    let mut images = vec![Image::create(4, 0)];
    let mut plans = Vec::new();
    for i in 0..20u64 {
        let plan = writer.append(i % 3, 2, i / 3, b"k", &vec![i as u8; (i * 7 % 50) as usize]);
        assert_eq!(plan.entry_id, i);
        if images.last_mut().unwrap().write(&mut writer, &plan) {
            let next = writer.next_segment();
            images.push(Image {
                segment_id: next.segment_id,
                data: next.header.to_vec(),
            });
            writer.finish_rotation();
        }
        plans.push(plan);
    }
    assert!(images.len() > 3);

    let mut recovery = Recovery::new(4, None);
    for image in &images {
        assert_eq!(recovery.replay_segment(image.segment_id, &image.data), Ok(true));
    }
    assert_eq!(recovery.index.len(), 20);
    assert_eq!(recovery.streams.len(), 3);
    assert_eq!(recovery.next_entry_id, 20);
    for (i, plan) in plans.iter().enumerate() {
        let i = i as u64;
        assert_eq!(recovery.index.lookup(i % 3, i / 3), Some(&plan.location));
    }
    let last = images.last().unwrap();
    let again = WalWriter::open(
        4,
        300,
        Some((last.segment_id, resume_offset(&last.data))),
        recovery.next_entry_id,
    );
    assert_eq!(again.current_segment_id(), writer.current_segment_id());
    assert_eq!(again.current_offset(), writer.current_offset());
    assert_eq!(again.next_segment_id(), writer.next_segment_id());
    assert_eq!(again.next_entry_id(), writer.next_entry_id());
}

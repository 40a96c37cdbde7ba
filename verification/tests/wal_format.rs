use bytes::Bytes;
use wal_server::wal::record::{
    checksum_bytes, current_time_ns, seal_record, timestamp_ns, WalRecord, WalRecordError,
    RECORD_HEADER_SIZE,
};
use wal_server::wal::segment::{
    decode_segment_header, encode_segment_header, find_segment, list_segments,
    parse_segment_filename, segment_filename, SegmentError,
};

#[test]
fn test_record_roundtrip() {
    let record = WalRecord {
        stream_id: 7,
        term: 2,
        entry_id: 42,
        stream_lsn: 3,
        timestamp_ns: 1234567890,
        key: Bytes::from_static(b"hello"),
        value: Bytes::from_static(b"world"),
    };

    let encoded = record.encode_to_vec();
    assert_eq!(encoded.len(), record.encoded_size());

    let (decoded, consumed) = WalRecord::decode(&encoded).unwrap();
    assert_eq!(consumed, encoded.len());
    assert_eq!(decoded.stream_id, 7);
    assert_eq!(decoded.term, 2);
    assert_eq!(decoded.entry_id, 42);
    assert_eq!(decoded.stream_lsn, 3);
    assert_eq!(decoded.timestamp_ns, 1234567890);
    assert_eq!(decoded.key.as_ref(), b"hello");
    assert_eq!(decoded.value.as_ref(), b"world");
}

#[test]
fn test_record_crc_corruption() {
    let record = WalRecord {
        stream_id: 1,
        term: 1,
        entry_id: 1,
        stream_lsn: 1,
        timestamp_ns: 0,
        key: Bytes::from_static(b"k"),
        value: Bytes::from_static(b"v"),
    };

    let mut encoded = record.encode_to_vec();
    // Corrupt a byte in the body
    encoded[10] ^= 0xFF;

    assert!(matches!(
        WalRecord::decode(&encoded),
        Err(WalRecordError::CrcMismatch { .. })
    ));
}

#[test]
fn test_empty_key_value() {
    let record = WalRecord {
        stream_id: 0,
        term: 1,
        entry_id: 0,
        stream_lsn: 0,
        timestamp_ns: 0,
        key: Bytes::new(),
        value: Bytes::new(),
    };

    let encoded = record.encode_to_vec();
    let (decoded, _) = WalRecord::decode(&encoded).unwrap();
    assert!(decoded.key.is_empty());
    assert!(decoded.value.is_empty());
}

fn sample() -> WalRecord {
    WalRecord {
        stream_id: 7,
        term: 2,
        entry_id: 42,
        stream_lsn: 3,
        timestamp_ns: 5,
        key: Bytes::from_static(b"key"),
        value: Bytes::from_static(b"value"),
    }
}

#[test]
fn the_checksum_is_crc32_of_everything_behind_it() {
    let data = sample().encode_to_vec();
    assert_eq!(&data[0..4], &crc32fast::hash(&data[4..]).to_be_bytes());
    assert_eq!(&data[4..8], &((data.len() - 8) as u32).to_be_bytes());
    assert_eq!(checksum_bytes(&data).unwrap(), &data[4..]);
    assert_eq!(seal_record(&sample().encode_body(), crc32fast::hash(&data[4..])), data);
}

#[test]
fn encode_writes_in_place_and_leaves_the_rest() {
    let record = sample();
    let mut buf = vec![9u8; record.encoded_size() + 3];
    let n = record.encode(&mut buf);
    assert_eq!(n, RECORD_HEADER_SIZE + 8);
    assert_eq!(&buf[..n], &record.encode_to_vec()[..]);
    assert_eq!(&buf[n..], &[9, 9, 9]);
}

#[test]
fn torn_records_and_bad_key_lengths_are_refused() {
    let data = sample().encode_to_vec();
    for n in 0..data.len() {
        assert_eq!(WalRecord::decode(&data[..n]).unwrap_err(), WalRecordError::BufferTooSmall);
        assert!(checksum_bytes(&data[..n]).is_none());
    }
    let mut bad = data.clone();
    bad[48] = 0xFF;
    let crc = crc32fast::hash(&bad[4..]);
    bad[0..4].copy_from_slice(&crc.to_be_bytes());
    assert_eq!(WalRecord::decode(&bad).unwrap_err(), WalRecordError::InvalidKeyLen);
    assert_eq!(
        WalRecord::decode_checked(&data, 1).unwrap_err(),
        WalRecordError::CrcMismatch {
            expected: crc32fast::hash(&data[4..]),
            actual: 1
        }
    );
}

#[test]
fn record_errors_describe_themselves() {
    assert_eq!(
        WalRecordError::CrcMismatch { expected: 0xAB, actual: 0xCD }.describe(),
        "CRC mismatch: expected 0x000000AB, got 0x000000CD"
    );
    assert_eq!(WalRecordError::BufferTooSmall.describe(), "buffer too small for WAL record");
    assert_eq!(WalRecordError::InvalidKeyLen.describe(), "key length exceeds record");
}

#[test]
fn timestamps_keep_the_low_bits() {
    assert_eq!(timestamp_ns(None), 0);
    assert_eq!(timestamp_ns(Some(17)), 17);
    assert_eq!(timestamp_ns(Some((1u128 << 64) + 5)), 5);
    assert!(current_time_ns() > 1_600_000_000_000_000_000);
}

#[test]
fn test_segment_filename() {
    assert_eq!(segment_filename(3, 1024), "0003_00000000000000001024.wal");
}

#[test]
fn test_parse_segment_filename() {
    let (sid, lsn) = parse_segment_filename("0003_00000000000000001024.wal").unwrap();
    assert_eq!(sid, 3);
    assert_eq!(lsn, 1024);
}

#[test]
fn test_header_roundtrip() {
    let hdr = encode_segment_header(7, 999, 1234567890);
    let (sid, segment_id, ts) = decode_segment_header(&hdr).unwrap();
    assert_eq!(sid, 7);
    assert_eq!(segment_id, 999);
    assert_eq!(ts, 1234567890);
}

#[test]
fn segment_names_roundtrip_at_the_limits() {
    for (shard, segment) in [(0u16, 0u64), (u16::MAX, u64::MAX), (12345, 1)] {
        assert_eq!(
            parse_segment_filename(&segment_filename(shard, segment)),
            Some((shard, segment))
        );
    }
    assert_eq!(segment_filename(u16::MAX, u64::MAX), "65535_18446744073709551615.wal");
}

#[test]
fn other_names_are_no_segments() {
    for name in ["", ".wal", "1.wal", "1_2", "1_2.log", "x_2.wal", "1_y.wal", "65536_1.wal", "1_18446744073709551616.wal", "1__2.wal"] {
        assert_eq!(parse_segment_filename(name), None);
    }
    assert_eq!(parse_segment_filename("+1_+2.wal"), Some((1, 2)));
    assert_eq!(parse_segment_filename("7_8.wal"), Some((7, 8)));
}

#[test]
fn bad_segment_headers_are_named() {
    let mut hdr = encode_segment_header(1, 2, 3);
    assert_eq!(&hdr[24..], &[0u8; 40]);
    hdr[4] = 2;
    assert_eq!(decode_segment_header(&hdr), Err(SegmentError::BadVersion(2)));
    hdr[0] = 0;
    assert_eq!(decode_segment_header(&hdr), Err(SegmentError::BadMagic(0x00534547)));
    assert_eq!(SegmentError::BadMagic(0x534547).describe(), "bad segment magic: 0x00534547");
    assert_eq!(SegmentError::BadVersion(2).describe(), "bad segment version: 2");
}

#[test]
fn segments_are_listed_in_order() {
    let names: Vec<String> = [
        "0001_00000000000000000009.wal",
        "0002_00000000000000000001.wal",
        "notes.txt",
        "0001_00000000000000000002.wal",
        "1_2.wal",
    ]
    .iter()
    .map(|s| s.to_string())
    .collect();
    let listed = list_segments(&names, 1);
    assert_eq!(listed, vec![(2, 3), (2, 4), (9, 0)]);
    assert_eq!(find_segment(&listed, 9), Some(0));
    assert_eq!(find_segment(&listed, 2), Some(3));
    assert_eq!(find_segment(&listed, 3), None);
}

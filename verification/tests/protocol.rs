use bytes::Bytes;
use wal_server::protocol::codec::{
    ack_request, append_request, decode_request, decode_response, decode_stream_status_payload,
    encode_request, encode_response, encode_stream_status_payload, get_status_request,
    read_request, response_payload_len, ProtocolError,
};
use wal_server::protocol::types::{OpCode, Request, Response, Status, StreamStatusPayload};
use wal_server::protocol::wire::{MAGIC, REQUEST_HEADER_SIZE, RESPONSE_HEADER_SIZE, VERSION};

#[test]
fn test_request_roundtrip() {
    let req = Request {
        op: OpCode::Write,
        stream_id: 99,
        epoch: 7,
        offset: 0,
        payload: Bytes::from_static(b"test-value"),
    };

    let encoded = encode_request(&req);
    let (decoded, consumed) = decode_request(&encoded).unwrap().unwrap();

    assert_eq!(consumed, encoded.len());
    assert_eq!(decoded.op, OpCode::Write);
    assert_eq!(decoded.stream_id, 99);
    assert_eq!(decoded.epoch, 7);
    assert_eq!(decoded.offset, 0);
    assert_eq!(decoded.payload.as_ref(), b"test-value");
}

#[test]
fn test_response_roundtrip() {
    let resp = Response {
        status: Status::Success,
        epoch: 7,
        offset: 42,
        payload: Bytes::from_static(b"abc"),
    };

    let encoded = encode_response(&resp);
    let decoded = decode_response(&encoded).unwrap();

    assert_eq!(decoded.status, Status::Success);
    assert_eq!(decoded.epoch, 7);
    assert_eq!(decoded.offset, 42);
    assert_eq!(decoded.payload.as_ref(), b"abc");
}

#[test]
fn test_status_payload_roundtrip() {
    let payload = StreamStatusPayload {
        next_stream_lsn: 11,
        commit_stream_lsn: 9,
        consumed_stream_lsn: 7,
        commit_index: 100,
        last_applied: 99,
    };

    let encoded = encode_stream_status_payload(&payload);
    let decoded = decode_stream_status_payload(&encoded).unwrap();
    assert_eq!(decoded, payload);
}

#[test]
fn test_incomplete_request() {
    let buf = [0u8; 5]; // too short
    assert!(decode_request(&buf).unwrap().is_none());
}

#[test]
fn test_bad_magic() {
    let mut buf = [0u8; REQUEST_HEADER_SIZE];
    buf[0..4].copy_from_slice(&0xDEADBEEFu32.to_be_bytes());
    assert!(matches!(
        decode_request(&buf),
        Err(ProtocolError::BadMagic(0xDEADBEEF))
    ));
}

#[test]
fn request_frame_has_the_documented_layout() {
    let frame = encode_request(&append_request(2, 3, Bytes::from_static(b"xy")));
    assert_eq!(frame.len(), REQUEST_HEADER_SIZE + 2);
    assert_eq!(&frame[0..4], &MAGIC.to_be_bytes());
    assert_eq!(frame[4], VERSION);
    assert_eq!(frame[5], 1);
    assert_eq!(&frame[6..14], &2u64.to_be_bytes());
    assert_eq!(&frame[14..22], &3u64.to_be_bytes());
    assert_eq!(&frame[22..30], &0u64.to_be_bytes());
    assert_eq!(&frame[30..34], &2u32.to_be_bytes());
    assert_eq!(&frame[34..], b"xy");
}

#[test]
fn malformed_requests_name_what_is_wrong() {
    let mut frame = encode_request(&read_request(1, 2, 3));
    frame[5] = 9;
    assert_eq!(decode_request(&frame).unwrap_err(), ProtocolError::BadOpCode(9));
    frame[4] = 77;
    assert_eq!(decode_request(&frame).unwrap_err(), ProtocolError::BadVersion(77));
    frame[0] = 0;
    assert!(matches!(decode_request(&frame), Err(ProtocolError::BadMagic(_))));
    assert!(ProtocolError::BadVersion(77).describe().contains("77"));
}

#[test]
fn a_cut_request_waits() {
    let frame = encode_request(&append_request(2, 3, Bytes::from_static(b"payload")));
    for n in 0..frame.len() {
        assert!(decode_request(&frame[..n]).unwrap().is_none());
    }
}

#[test]
fn request_builders_fill_their_fields() {
    let ack = ack_request(4, 5, 6);
    assert_eq!((ack.op, ack.stream_id, ack.epoch, ack.offset), (OpCode::Ack, 4, 5, 6));
    let status = get_status_request(8);
    assert_eq!((status.op, status.stream_id, status.epoch, status.offset), (OpCode::GetStatus, 8, 0, 0));
    let read = read_request(1, 2, 3);
    assert_eq!((read.op, read.offset), (OpCode::Read, 3));
    assert!(read.payload.is_empty());
}

#[test]
fn codes_go_both_ways() {
    for code in 0..=255u8 {
        if let Some(op) = OpCode::from_u8(code) {
            assert_eq!(op.to_u8(), code);
        }
        if let Some(status) = Status::from_u8(code) {
            assert_eq!(status.to_u8(), code);
        }
    }
    assert_eq!(OpCode::from_u8(0), None);
    assert_eq!(Status::from_u8(255), Some(Status::ErrInternal));
    assert_eq!(Status::from_u8(6), None);
}

#[test]
fn short_responses_are_refused() {
    let resp = Response {
        status: Status::ErrNotLeader,
        epoch: 1,
        offset: 2,
        payload: Bytes::from_static(b"abc"),
    };
    let frame = encode_response(&resp);
    assert_eq!(response_payload_len(&frame[..RESPONSE_HEADER_SIZE]), 3);
    assert!(matches!(decode_response(&frame[..10]), Err(ProtocolError::BufferTooSmall)));
    assert!(matches!(
        decode_response(&frame[..frame.len() - 1]),
        Err(ProtocolError::BufferTooSmall)
    ));
    assert!(matches!(
        decode_stream_status_payload(b"short"),
        Err(ProtocolError::BufferTooSmall)
    ));
}

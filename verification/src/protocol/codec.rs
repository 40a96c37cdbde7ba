//! Frames of the client protocol.

use bytes::Bytes;
use vstd::prelude::*;
use vstd::slice::slice_subrange;
use vstd::string::*;

use crate::be;
use crate::be::{get_u32, get_u64, put_be, put_slice};
use crate::buffer;
use crate::buffer::{bytes_as_slice, bytes_copy_from_slice, bytes_from_vec, bytes_new};
use crate::protocol::types;
use crate::protocol::types::{
    OpCode, Request, RequestModel, Response, ResponseModel, Status, StreamStatusPayload,
};
use crate::protocol::wire::{MAGIC, REQUEST_HEADER_SIZE, RESPONSE_HEADER_SIZE, VERSION};
use crate::text;
use crate::text::push_numeral;

verus! {

/// Why bytes are not a frame of the protocol.
#[derive(Debug, Clone, Copy, PartialEq, Eq, Structural)]
pub enum ProtocolError {
    BadMagic(u32),
    BadVersion(u8),
    BadOpCode(u8),
    BufferTooSmall,
}

/// The text that describes a protocol error.
pub open spec fn protocol_error_text(e: ProtocolError) -> Seq<char> {
    match e {
        ProtocolError::BadMagic(m) => "bad magic: 0x"@ + text::numeral(m as nat, 16, 8),
        ProtocolError::BadVersion(v) => "bad version: "@ + text::decimal(v as nat),
        ProtocolError::BadOpCode(op) => "bad opcode: "@ + text::decimal(op as nat),
        ProtocolError::BufferTooSmall => "buffer too small"@,
    }
}

impl ProtocolError {
    /// Describes the error.
    pub fn describe(&self) -> (s: String)
        ensures
            s@ == protocol_error_text(*self),
    {
        match self {
            ProtocolError::BadMagic(m) => {
                let mut s: String = String::from_str("bad magic: 0x");
                push_numeral(&mut s, *m as u64, 16, 8);
                s
            },
            ProtocolError::BadVersion(v) => {
                let mut s: String = String::from_str("bad version: ");
                push_numeral(&mut s, *v as u64, 10, 1);
                s
            },
            ProtocolError::BadOpCode(op) => {
                let mut s: String = String::from_str("bad opcode: ");
                push_numeral(&mut s, *op as u64, 10, 1);
                s
            },
            ProtocolError::BufferTooSmall => String::from_str("buffer too small"),
        }
    }
}

/// Size of an encoded stream status.
pub const STATUS_PAYLOAD_SIZE: usize = 40;

/// The frame of a request; a payload length above 32 bits is cut to its low ones.
pub open spec fn request_bytes(req: RequestModel) -> Seq<u8> {
    be::be_bytes(MAGIC as nat, 4) + seq![VERSION, types::op_code(req.op)] + be::be_bytes(
        req.stream_id as nat,
        8,
    ) + be::be_bytes(req.epoch as nat, 8) + be::be_bytes(req.offset as nat, 8) + be::be_bytes(
        req.payload.len(),
        4,
    ) + req.payload
}

/// The length of the frame that the request header at the start of `buf` announces.
pub open spec fn request_frame_len(buf: Seq<u8>) -> nat {
    34 + be::field32(buf, 30) as nat
}

/// The request that the frame at the start of `buf` holds.
pub open spec fn request_fields(buf: Seq<u8>) -> RequestModel {
    RequestModel {
        op: types::op_of_code(buf[5])->0,
        stream_id: be::field64(buf, 6),
        epoch: be::field64(buf, 14),
        offset: be::field64(buf, 22),
        payload: buf.subrange(34, request_frame_len(buf) as int),
    }
}

/// What decoding a request from the start of `buf` gives: the request and the
/// length of its frame, nothing yet if more bytes are needed, or an error.
pub open spec fn decoded_request(buf: Seq<u8>) -> Result<
    Option<(RequestModel, nat)>,
    ProtocolError,
> {
    if buf.len() < 34 {
        Ok(None)
    } else if be::field32(buf, 0) != MAGIC {
        Err(ProtocolError::BadMagic(be::field32(buf, 0)))
    } else if buf[4] != VERSION {
        Err(ProtocolError::BadVersion(buf[4]))
    } else if types::op_of_code(buf[5]) is None {
        Err(ProtocolError::BadOpCode(buf[5]))
    } else if buf.len() < request_frame_len(buf) {
        Ok(None)
    } else {
        Ok(Some((request_fields(buf), request_frame_len(buf))))
    }
}

/// Tries to decode a request from the start of the buffer: `Ok(Some(..))` with
/// the request and the bytes consumed if a complete frame is there, `Ok(None)`
/// if more data is needed, an error if the data is malformed.
pub fn decode_request(buf: &[u8]) -> (r: Result<Option<(Request, usize)>, ProtocolError>)
    ensures
        match r {
            Ok(Some((req, n))) => decoded_request(buf@) == Ok::<
                Option<(RequestModel, nat)>,
                ProtocolError,
            >(Some((req@, n as nat))),
            Ok(None) => decoded_request(buf@) == Ok::<Option<(RequestModel, nat)>, ProtocolError>(
                None,
            ),
            Err(e) => decoded_request(buf@) == Err::<Option<(RequestModel, nat)>, ProtocolError>(e),
        },
        r matches Ok(Some((req, n))) ==> 34 <= n <= buf@.len(),
{
    if buf.len() < REQUEST_HEADER_SIZE {
        return Ok(None);
    }
    let magic: u32 = get_u32(buf, 0);
    if magic != MAGIC {
        return Err(ProtocolError::BadMagic(magic));
    }
    let version: u8 = buf[4];
    if version != VERSION {
        return Err(ProtocolError::BadVersion(version));
    }
    let op: OpCode = match OpCode::from_u8(buf[5]) {
        Some(op) => op,
        None => {
            return Err(ProtocolError::BadOpCode(buf[5]));
        },
    };
    let stream_id: u64 = get_u64(buf, 6);
    let epoch: u64 = get_u64(buf, 14);
    let offset: u64 = get_u64(buf, 22);
    let payload_len: u32 = get_u32(buf, 30);
    if ((buf.len() - REQUEST_HEADER_SIZE) as u64) < payload_len as u64 {
        return Ok(None);
    }
    let total: usize = REQUEST_HEADER_SIZE + payload_len as usize;
    let payload: Bytes = bytes_copy_from_slice(slice_subrange(buf, REQUEST_HEADER_SIZE, total));
    Ok(Some((Request { op, stream_id, epoch, offset, payload }, total)))
}

/// Encodes a request.
pub fn encode_request(req: &Request) -> (buf: Vec<u8>)
    ensures
        buf@ == request_bytes(req@),
{
    let payload: &[u8] = bytes_as_slice(&req.payload);
    let mut buf: Vec<u8> = Vec::new();
    put_be(&mut buf, MAGIC as u64, 4);
    buf.push(VERSION);
    buf.push(req.op.to_u8());
    put_be(&mut buf, req.stream_id, 8);
    put_be(&mut buf, req.epoch, 8);
    put_be(&mut buf, req.offset, 8);
    put_be(&mut buf, payload.len() as u64, 4);
    put_slice(&mut buf, payload);
    assert(buf@ =~= request_bytes(req@));
    buf
}

/// The frame of a response; a payload length above 32 bits is cut to its low ones.
pub open spec fn response_bytes(resp: ResponseModel) -> Seq<u8> {
    be::be_bytes(MAGIC as nat, 4) + seq![VERSION, types::status_code(resp.status)] + be::be_bytes(
        resp.epoch as nat,
        8,
    ) + be::be_bytes(resp.offset as nat, 8) + be::be_bytes(resp.payload.len(), 4) + resp.payload
}

/// The length of the frame that the response header at the start of `buf` announces.
pub open spec fn response_frame_len(buf: Seq<u8>) -> nat {
    26 + be::field32(buf, 22) as nat
}

/// The response that the frame at the start of `buf` holds.
pub open spec fn response_fields(buf: Seq<u8>) -> ResponseModel {
    ResponseModel {
        status: types::status_of_code(buf[5])->0,
        epoch: be::field64(buf, 6),
        offset: be::field64(buf, 14),
        payload: buf.subrange(26, response_frame_len(buf) as int),
    }
}

/// What decoding a response from the start of `buf` gives.
pub open spec fn decoded_response(buf: Seq<u8>) -> Result<ResponseModel, ProtocolError> {
    if buf.len() < 26 {
        Err(ProtocolError::BufferTooSmall)
    } else if be::field32(buf, 0) != MAGIC {
        Err(ProtocolError::BadMagic(be::field32(buf, 0)))
    } else if buf[4] != VERSION {
        Err(ProtocolError::BadVersion(buf[4]))
    } else if types::status_of_code(buf[5]) is None {
        Err(ProtocolError::BadOpCode(buf[5]))
    } else if buf.len() < response_frame_len(buf) {
        Err(ProtocolError::BufferTooSmall)
    } else {
        Ok(response_fields(buf))
    }
}

/// Encodes a response.
pub fn encode_response(resp: &Response) -> (buf: Vec<u8>)
    ensures
        buf@ == response_bytes(resp@),
{
    let payload: &[u8] = bytes_as_slice(&resp.payload);
    let mut buf: Vec<u8> = Vec::new();
    put_be(&mut buf, MAGIC as u64, 4);
    buf.push(VERSION);
    buf.push(resp.status.to_u8());
    put_be(&mut buf, resp.epoch, 8);
    put_be(&mut buf, resp.offset, 8);
    put_be(&mut buf, payload.len() as u64, 4);
    put_slice(&mut buf, payload);
    assert(buf@ =~= response_bytes(resp@));
    buf
}

/// Decodes a response from the start of a buffer.
pub fn decode_response(buf: &[u8]) -> (r: Result<Response, ProtocolError>)
    ensures
        match r {
            Ok(resp) => decoded_response(buf@) == Ok::<ResponseModel, ProtocolError>(resp@),
            Err(e) => decoded_response(buf@) == Err::<ResponseModel, ProtocolError>(e),
        },
{
    if buf.len() < RESPONSE_HEADER_SIZE {
        return Err(ProtocolError::BufferTooSmall);
    }
    let magic: u32 = get_u32(buf, 0);
    if magic != MAGIC {
        return Err(ProtocolError::BadMagic(magic));
    }
    let version: u8 = buf[4];
    if version != VERSION {
        return Err(ProtocolError::BadVersion(version));
    }
    let status: Status = match Status::from_u8(buf[5]) {
        Some(status) => status,
        None => {
            return Err(ProtocolError::BadOpCode(buf[5]));
        },
    };
    let epoch: u64 = get_u64(buf, 6);
    let offset: u64 = get_u64(buf, 14);
    let payload_len: u32 = get_u32(buf, 22);
    if ((buf.len() - RESPONSE_HEADER_SIZE) as u64) < payload_len as u64 {
        return Err(ProtocolError::BufferTooSmall);
    }
    let total: usize = RESPONSE_HEADER_SIZE + payload_len as usize;
    let payload: Bytes = bytes_copy_from_slice(slice_subrange(buf, RESPONSE_HEADER_SIZE, total));
    Ok(Response { status, epoch, offset, payload })
}

/// How many payload bytes follow the response header `header`: what a client
/// has still to read once it has read the header.
pub fn response_payload_len(header: &[u8]) -> (n: u32)
    requires
        header@.len() >= RESPONSE_HEADER_SIZE,
    ensures
        n == be::field32(header@, 22),
{
    get_u32(header, 22)
}

/// A request to append `payload` to a stream.
pub fn append_request(stream_id: u64, epoch: u64, payload: Bytes) -> (req: Request)
    ensures
        req@ == (RequestModel {
            op: OpCode::Write,
            stream_id,
            epoch,
            offset: 0,
            payload: buffer::bytes_contents(payload),
        }),
{
    Request { op: OpCode::Write, stream_id, epoch, offset: 0, payload }
}

/// A request to read one record of a stream.
pub fn read_request(stream_id: u64, epoch: u64, stream_lsn: u64) -> (req: Request)
    ensures
        req@ == (RequestModel {
            op: OpCode::Read,
            stream_id,
            epoch,
            offset: stream_lsn,
            payload: Seq::empty(),
        }),
{
    Request { op: OpCode::Read, stream_id, epoch, offset: stream_lsn, payload: bytes_new() }
}

/// A request that acknowledges everything below an LSN as consumed.
pub fn ack_request(stream_id: u64, epoch: u64, consumed_stream_lsn: u64) -> (req: Request)
    ensures
        req@ == (RequestModel {
            op: OpCode::Ack,
            stream_id,
            epoch,
            offset: consumed_stream_lsn,
            payload: Seq::empty(),
        }),
{
    Request { op: OpCode::Ack, stream_id, epoch, offset: consumed_stream_lsn, payload: bytes_new() }
}

/// A request for the positions of a stream.
pub fn get_status_request(stream_id: u64) -> (req: Request)
    ensures
        req@ == (RequestModel {
            op: OpCode::GetStatus,
            stream_id,
            epoch: 0,
            offset: 0,
            payload: Seq::empty(),
        }),
{
    Request { op: OpCode::GetStatus, stream_id, epoch: 0, offset: 0, payload: bytes_new() }
}

/// An encoded stream status.
pub open spec fn stream_status_bytes(p: StreamStatusPayload) -> Seq<u8> {
    be::be_bytes(p.next_stream_lsn as nat, 8) + be::be_bytes(p.commit_stream_lsn as nat, 8)
        + be::be_bytes(p.consumed_stream_lsn as nat, 8) + be::be_bytes(p.commit_index as nat, 8)
        + be::be_bytes(p.last_applied as nat, 8)
}

/// What decoding a stream status gives.
pub open spec fn decoded_stream_status(buf: Seq<u8>) -> Result<StreamStatusPayload, ProtocolError> {
    if buf.len() < 40 {
        Err(ProtocolError::BufferTooSmall)
    } else {
        Ok(
            StreamStatusPayload {
                next_stream_lsn: be::field64(buf, 0),
                commit_stream_lsn: be::field64(buf, 8),
                consumed_stream_lsn: be::field64(buf, 16),
                commit_index: be::field64(buf, 24),
                last_applied: be::field64(buf, 32),
            },
        )
    }
}

/// Encodes the positions of a stream.
pub fn encode_stream_status_payload(payload: &StreamStatusPayload) -> (b: Bytes)
    ensures
        buffer::bytes_contents(b) == stream_status_bytes(*payload),
{
    let mut buf: Vec<u8> = Vec::new();
    put_be(&mut buf, payload.next_stream_lsn, 8);
    put_be(&mut buf, payload.commit_stream_lsn, 8);
    put_be(&mut buf, payload.consumed_stream_lsn, 8);
    put_be(&mut buf, payload.commit_index, 8);
    put_be(&mut buf, payload.last_applied, 8);
    assert(buf@ =~= stream_status_bytes(*payload));
    bytes_from_vec(buf)
}

/// Decodes the positions of a stream.
pub fn decode_stream_status_payload(buf: &[u8]) -> (r: Result<StreamStatusPayload, ProtocolError>)
    ensures
        r == decoded_stream_status(buf@),
{
    if buf.len() < STATUS_PAYLOAD_SIZE {
        return Err(ProtocolError::BufferTooSmall);
    }
    Ok(
        StreamStatusPayload {
            next_stream_lsn: get_u64(buf, 0),
            commit_stream_lsn: get_u64(buf, 8),
            consumed_stream_lsn: get_u64(buf, 16),
            commit_index: get_u64(buf, 24),
            last_applied: get_u64(buf, 32),
        },
    )
}

/// The layout of a request frame, field by field.
proof fn lemma_request_layout(req: RequestModel)
    ensures
        ({
            let f = request_bytes(req);
            &&& f.len() == 34 + req.payload.len()
            &&& f.subrange(0, 4) == be::be_bytes(MAGIC as nat, 4)
            &&& f[4] == VERSION
            &&& f[5] == types::op_code(req.op)
            &&& f.subrange(6, 14) == be::be_bytes(req.stream_id as nat, 8)
            &&& f.subrange(14, 22) == be::be_bytes(req.epoch as nat, 8)
            &&& f.subrange(22, 30) == be::be_bytes(req.offset as nat, 8)
            &&& f.subrange(30, 34) == be::be_bytes(req.payload.len(), 4)
            &&& f.subrange(34, f.len() as int) == req.payload
        }),
{
    broadcast use crate::be::lemma_be_bytes_len;

    let f = request_bytes(req);
    assert(f.subrange(0, 4) =~= be::be_bytes(MAGIC as nat, 4));
    assert(f.subrange(6, 14) =~= be::be_bytes(req.stream_id as nat, 8));
    assert(f.subrange(14, 22) =~= be::be_bytes(req.epoch as nat, 8));
    assert(f.subrange(22, 30) =~= be::be_bytes(req.offset as nat, 8));
    assert(f.subrange(30, 34) =~= be::be_bytes(req.payload.len(), 4));
    assert(f.subrange(34, f.len() as int) =~= req.payload);
}

/// Decoding an encoded request gives it back and consumes exactly its frame,
/// whatever bytes follow.
pub proof fn law_request_roundtrip(req: RequestModel, rest: Seq<u8>)
    requires
        req.payload.len() <= u32::MAX,
    ensures
        decoded_request(request_bytes(req) + rest) == Ok::<
            Option<(RequestModel, nat)>,
            ProtocolError,
        >(Some((req, request_bytes(req).len()))),
{
    lemma_request_layout(req);
    let f = request_bytes(req);
    let t = f + rest;
    assert(t.subrange(0, f.len() as int) =~= f);
    be::lemma_field_prefix(f, t, 0, 4);
    be::lemma_field_prefix(f, t, 6, 8);
    be::lemma_field_prefix(f, t, 14, 8);
    be::lemma_field_prefix(f, t, 22, 8);
    be::lemma_field_prefix(f, t, 30, 4);
    be::lemma_field_prefix(f, t, 34, f.len() - 34);
    be::lemma_field32(t, 0, MAGIC);
    be::lemma_field64(t, 6, req.stream_id);
    be::lemma_field64(t, 14, req.epoch);
    be::lemma_field64(t, 22, req.offset);
    be::lemma_field32(t, 30, req.payload.len() as u32);
    assert(request_fields(t) == req);
}

/// More bytes never change what was found: once a request or an error has been
/// found, the same is found however the stream goes on. So the way in which
/// bytes arrive in pieces does not matter.
pub proof fn law_request_decoding_is_incremental(buf: Seq<u8>, more: Seq<u8>)
    requires
        decoded_request(buf) !is Ok || decoded_request(buf)->Ok_0 is Some,
    ensures
        decoded_request(buf + more) == decoded_request(buf),
{
    let t = buf + more;
    assert(t.subrange(0, buf.len() as int) =~= buf);
    be::lemma_field_prefix(buf, t, 0, 4);
    be::lemma_field_prefix(buf, t, 6, 8);
    be::lemma_field_prefix(buf, t, 14, 8);
    be::lemma_field_prefix(buf, t, 22, 8);
    be::lemma_field_prefix(buf, t, 30, 4);
    if decoded_request(buf) is Ok {
        be::lemma_field_prefix(buf, t, 34, request_frame_len(buf) - 34);
        assert(request_fields(t) == request_fields(buf));
    }
}

/// A frame that has not arrived in full is neither taken for a request nor
/// for an error.
pub proof fn law_partial_request_waits(req: RequestModel, n: int)
    requires
        req.payload.len() <= u32::MAX,
        0 <= n < request_bytes(req).len(),
    ensures
        decoded_request(request_bytes(req).take(n)) == Ok::<
            Option<(RequestModel, nat)>,
            ProtocolError,
        >(None),
{
    let f = request_bytes(req);
    let t = f.take(n);
    lemma_request_layout(req);
    if n >= 34 {
        assert(f.subrange(0, n) =~= t);
        be::lemma_field_prefix(t, f, 0, 4);
        be::lemma_field_prefix(t, f, 30, 4);
        be::lemma_field32(t, 0, MAGIC);
        be::lemma_field32(t, 30, req.payload.len() as u32);
    }
}

/// Decoding an encoded response gives it back, whatever bytes follow.
pub proof fn law_response_roundtrip(resp: ResponseModel, rest: Seq<u8>)
    requires
        resp.payload.len() <= u32::MAX,
    ensures
        decoded_response(response_bytes(resp) + rest) == Ok::<ResponseModel, ProtocolError>(resp),
        response_frame_len(response_bytes(resp) + rest) == response_bytes(resp).len(),
{
    broadcast use crate::be::lemma_be_bytes_len;

    let f = response_bytes(resp);
    let t = f + rest;
    assert(t.subrange(0, 4) =~= be::be_bytes(MAGIC as nat, 4));
    assert(t.subrange(6, 14) =~= be::be_bytes(resp.epoch as nat, 8));
    assert(t.subrange(14, 22) =~= be::be_bytes(resp.offset as nat, 8));
    assert(t.subrange(22, 26) =~= be::be_bytes(resp.payload.len(), 4));
    assert(t.subrange(26, f.len() as int) =~= resp.payload);
    be::lemma_field32(t, 0, MAGIC);
    be::lemma_field64(t, 6, resp.epoch);
    be::lemma_field64(t, 14, resp.offset);
    be::lemma_field32(t, 22, resp.payload.len() as u32);
}

/// Decoding an encoded stream status gives it back.
pub proof fn law_stream_status_roundtrip(p: StreamStatusPayload)
    ensures
        decoded_stream_status(stream_status_bytes(p)) == Ok::<StreamStatusPayload, ProtocolError>(
            p,
        ),
{
    broadcast use crate::be::lemma_be_bytes_len;

    let t = stream_status_bytes(p);
    assert(t.subrange(0, 8) =~= be::be_bytes(p.next_stream_lsn as nat, 8));
    assert(t.subrange(8, 16) =~= be::be_bytes(p.commit_stream_lsn as nat, 8));
    assert(t.subrange(16, 24) =~= be::be_bytes(p.consumed_stream_lsn as nat, 8));
    assert(t.subrange(24, 32) =~= be::be_bytes(p.commit_index as nat, 8));
    assert(t.subrange(32, 40) =~= be::be_bytes(p.last_applied as nat, 8));
    be::lemma_field64(t, 0, p.next_stream_lsn);
    be::lemma_field64(t, 8, p.commit_stream_lsn);
    be::lemma_field64(t, 16, p.consumed_stream_lsn);
    be::lemma_field64(t, 24, p.commit_index);
    be::lemma_field64(t, 32, p.last_applied);
}

/// The layout of a request: the magic number in four bytes, the version, the code of
/// the operation, then the stream, the epoch and the offset in eight each, the length
/// of the payload in four, most significant byte first, and the payload.
pub proof fn law_request_layout(req: RequestModel)
    requires
        req.payload.len() <= u32::MAX,
    ensures
        ({
            let f = request_bytes(req);
            &&& f.len() == 34 + req.payload.len()
            &&& be::be_value(f.subrange(0, 4)) == 0x57414C53
            &&& f[4] == 1
            &&& f[5] == types::op_code(req.op)
            &&& be::be_value(f.subrange(6, 14)) == req.stream_id
            &&& be::be_value(f.subrange(14, 22)) == req.epoch
            &&& be::be_value(f.subrange(22, 30)) == req.offset
            &&& be::be_value(f.subrange(30, 34)) == req.payload.len()
            &&& f.skip(34) == req.payload
        }),
{
    lemma_request_layout(req);
    be::lemma_be_capacities();
    let f = request_bytes(req);
    be::lemma_be_value_of_bytes(MAGIC as nat, 4);
    be::lemma_be_value_of_bytes(req.stream_id as nat, 8);
    be::lemma_be_value_of_bytes(req.epoch as nat, 8);
    be::lemma_be_value_of_bytes(req.offset as nat, 8);
    be::lemma_be_value_of_bytes(req.payload.len(), 4);
    assert(f.skip(34) =~= f.subrange(34, f.len() as int));
}

/// Bytes that do not start like a request are refused as soon as a header is there,
/// and the error names what is wrong first: the magic number, the version or the
/// operation. With less than a header, more bytes are waited for.
pub proof fn law_foreign_request_is_refused(buf: Seq<u8>)
    ensures
        buf.len() < 34 ==> decoded_request(buf) == Ok::<Option<(RequestModel, nat)>, ProtocolError>(
            None,
        ),
        buf.len() >= 34 ==> {
            let magic = be::be_value(buf.subrange(0, 4));
            &&& magic != 0x57414C53 ==> decoded_request(buf) == Err::<
                Option<(RequestModel, nat)>,
                ProtocolError,
            >(ProtocolError::BadMagic(magic as u32))
            &&& magic == 0x57414C53 && buf[4] != 1 ==> decoded_request(buf) == Err::<
                Option<(RequestModel, nat)>,
                ProtocolError,
            >(ProtocolError::BadVersion(buf[4]))
            &&& magic == 0x57414C53 && buf[4] == 1 && types::op_of_code(buf[5]) is None
                ==> decoded_request(buf) == Err::<Option<(RequestModel, nat)>, ProtocolError>(
                ProtocolError::BadOpCode(buf[5]),
            )
        },
{
    if buf.len() >= 34 {
        be::lemma_be_capacities();
        be::lemma_be_value_bound(buf.subrange(0, 4));
    }
}

/// The layout of a response: the magic number in four bytes, the version, the code of
/// the status, then the epoch and the offset in eight each, the length of the payload
/// in four, most significant byte first, and the payload.
pub proof fn law_response_layout(resp: ResponseModel)
    requires
        resp.payload.len() <= u32::MAX,
    ensures
        ({
            let f = response_bytes(resp);
            &&& f.len() == 26 + resp.payload.len()
            &&& be::be_value(f.subrange(0, 4)) == 0x57414C53
            &&& f[4] == 1
            &&& f[5] == types::status_code(resp.status)
            &&& be::be_value(f.subrange(6, 14)) == resp.epoch
            &&& be::be_value(f.subrange(14, 22)) == resp.offset
            &&& be::be_value(f.subrange(22, 26)) == resp.payload.len()
            &&& f.skip(26) == resp.payload
        }),
{
    broadcast use crate::be::lemma_be_bytes_len;

    be::lemma_be_capacities();
    let f = response_bytes(resp);
    assert(f.subrange(0, 4) =~= be::be_bytes(MAGIC as nat, 4));
    assert(f.subrange(6, 14) =~= be::be_bytes(resp.epoch as nat, 8));
    assert(f.subrange(14, 22) =~= be::be_bytes(resp.offset as nat, 8));
    assert(f.subrange(22, 26) =~= be::be_bytes(resp.payload.len(), 4));
    assert(f.skip(26) =~= resp.payload);
    be::lemma_be_value_of_bytes(MAGIC as nat, 4);
    be::lemma_be_value_of_bytes(resp.epoch as nat, 8);
    be::lemma_be_value_of_bytes(resp.offset as nat, 8);
    be::lemma_be_value_of_bytes(resp.payload.len(), 4);
}

/// Bytes that are no response are refused, and the error names what is wrong first:
/// too few bytes for a header, the magic number, the version, the status, or too few
/// bytes for the payload.
pub proof fn law_foreign_response_is_refused(buf: Seq<u8>)
    ensures
        buf.len() < 26 ==> decoded_response(buf) == Err::<ResponseModel, ProtocolError>(
            ProtocolError::BufferTooSmall,
        ),
        buf.len() >= 26 ==> {
            let magic = be::be_value(buf.subrange(0, 4));
            let len = be::be_value(buf.subrange(22, 26));
            &&& magic != 0x57414C53 ==> decoded_response(buf) == Err::<
                ResponseModel,
                ProtocolError,
            >(ProtocolError::BadMagic(magic as u32))
            &&& magic == 0x57414C53 && buf[4] != 1 ==> decoded_response(buf) == Err::<
                ResponseModel,
                ProtocolError,
            >(ProtocolError::BadVersion(buf[4]))
            &&& magic == 0x57414C53 && buf[4] == 1 && types::status_of_code(buf[5]) is None
                ==> decoded_response(buf) == Err::<ResponseModel, ProtocolError>(
                ProtocolError::BadOpCode(buf[5]),
            )
            &&& magic == 0x57414C53 && buf[4] == 1 && types::status_of_code(buf[5]) is Some
                && buf.len() < 26 + len ==> decoded_response(buf) == Err::<
                ResponseModel,
                ProtocolError,
            >(ProtocolError::BufferTooSmall)
        },
{
    if buf.len() >= 26 {
        be::lemma_be_capacities();
        be::lemma_be_value_bound(buf.subrange(0, 4));
        be::lemma_be_value_bound(buf.subrange(22, 26));
    }
}

/// The layout of a stream status: its next, committed and consumed LSN, and the
/// committed and applied index of its group, in eight bytes each, most significant
/// byte first. Fewer bytes are no status.
pub proof fn law_stream_status_layout(p: StreamStatusPayload, buf: Seq<u8>)
    ensures
        ({
            let t = stream_status_bytes(p);
            &&& t.len() == 40
            &&& be::be_value(t.subrange(0, 8)) == p.next_stream_lsn
            &&& be::be_value(t.subrange(8, 16)) == p.commit_stream_lsn
            &&& be::be_value(t.subrange(16, 24)) == p.consumed_stream_lsn
            &&& be::be_value(t.subrange(24, 32)) == p.commit_index
            &&& be::be_value(t.subrange(32, 40)) == p.last_applied
        }),
        buf.len() < 40 ==> decoded_stream_status(buf) == Err::<StreamStatusPayload, ProtocolError>(
            ProtocolError::BufferTooSmall,
        ),
{
    broadcast use crate::be::lemma_be_bytes_len;

    be::lemma_be_capacities();
    let t = stream_status_bytes(p);
    assert(t.subrange(0, 8) =~= be::be_bytes(p.next_stream_lsn as nat, 8));
    assert(t.subrange(8, 16) =~= be::be_bytes(p.commit_stream_lsn as nat, 8));
    assert(t.subrange(16, 24) =~= be::be_bytes(p.consumed_stream_lsn as nat, 8));
    assert(t.subrange(24, 32) =~= be::be_bytes(p.commit_index as nat, 8));
    assert(t.subrange(32, 40) =~= be::be_bytes(p.last_applied as nat, 8));
    be::lemma_be_value_of_bytes(p.next_stream_lsn as nat, 8);
    be::lemma_be_value_of_bytes(p.commit_stream_lsn as nat, 8);
    be::lemma_be_value_of_bytes(p.consumed_stream_lsn as nat, 8);
    be::lemma_be_value_of_bytes(p.commit_index as nat, 8);
    be::lemma_be_value_of_bytes(p.last_applied as nat, 8);
}

/// A message that cannot be read is described with what was found in it.
pub proof fn law_protocol_error_is_described(m: u32, v: u8, op: u8)
    ensures
        protocol_error_text(ProtocolError::BadMagic(m)) == "bad magic: 0x"@ + text::numeral(
            m as nat,
            16,
            8,
        ),
        protocol_error_text(ProtocolError::BadVersion(v)) == "bad version: "@ + text::decimal(
            v as nat,
        ),
        protocol_error_text(ProtocolError::BadOpCode(op)) == "bad opcode: "@ + text::decimal(
            op as nat,
        ),
        protocol_error_text(ProtocolError::BufferTooSmall) == "buffer too small"@,
{
}

} // verus!

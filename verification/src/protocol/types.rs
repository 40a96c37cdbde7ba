//! Requests, responses and the codes they carry.

use bytes::Bytes;
use vstd::prelude::*;

use crate::buffer;

verus! {

/// What a client asks for.
#[derive(Debug, Clone, Copy, PartialEq, Eq, Structural)]
pub enum OpCode {
    Write,
    Read,
    Ack,
    GetStatus,
}

/// The wire code of an operation.
pub open spec fn op_code(op: OpCode) -> u8 {
    match op {
        OpCode::Write => 1,
        OpCode::Read => 2,
        OpCode::Ack => 3,
        OpCode::GetStatus => 4,
    }
}

/// The operation with a given wire code.
pub open spec fn op_of_code(code: u8) -> Option<OpCode> {
    if code == 1 {
        Some(OpCode::Write)
    } else if code == 2 {
        Some(OpCode::Read)
    } else if code == 3 {
        Some(OpCode::Ack)
    } else if code == 4 {
        Some(OpCode::GetStatus)
    } else {
        None
    }
}

impl OpCode {
    /// The operation with the given wire code.
    pub fn from_u8(v: u8) -> (r: Option<Self>)
        ensures
            r == op_of_code(v),
    {
        match v {
            1 => Some(OpCode::Write),
            2 => Some(OpCode::Read),
            3 => Some(OpCode::Ack),
            4 => Some(OpCode::GetStatus),
            _ => None,
        }
    }

    /// The wire code.
    pub fn to_u8(self) -> (v: u8)
        ensures
            v == op_code(self),
    {
        match self {
            OpCode::Write => 1,
            OpCode::Read => 2,
            OpCode::Ack => 3,
            OpCode::GetStatus => 4,
        }
    }
}

/// How a request ended.
#[derive(Debug, Clone, Copy, PartialEq, Eq, Structural)]
pub enum Status {
    Success,
    ErrInvalidRequest,
    ErrShardUnavailable,
    ErrNotFound,
    ErrEpochFenced,
    ErrNotLeader,
    ErrInternal,
}

/// The wire code of a status.
pub open spec fn status_code(status: Status) -> u8 {
    match status {
        Status::Success => 0,
        Status::ErrInvalidRequest => 1,
        Status::ErrShardUnavailable => 2,
        Status::ErrNotFound => 3,
        Status::ErrEpochFenced => 4,
        Status::ErrNotLeader => 5,
        Status::ErrInternal => 255,
    }
}

/// The status with a given wire code.
pub open spec fn status_of_code(code: u8) -> Option<Status> {
    if code == 0 {
        Some(Status::Success)
    } else if code == 1 {
        Some(Status::ErrInvalidRequest)
    } else if code == 2 {
        Some(Status::ErrShardUnavailable)
    } else if code == 3 {
        Some(Status::ErrNotFound)
    } else if code == 4 {
        Some(Status::ErrEpochFenced)
    } else if code == 5 {
        Some(Status::ErrNotLeader)
    } else if code == 255 {
        Some(Status::ErrInternal)
    } else {
        None
    }
}

impl Status {
    /// The status with the given wire code.
    pub fn from_u8(v: u8) -> (r: Option<Self>)
        ensures
            r == status_of_code(v),
    {
        match v {
            0 => Some(Status::Success),
            1 => Some(Status::ErrInvalidRequest),
            2 => Some(Status::ErrShardUnavailable),
            3 => Some(Status::ErrNotFound),
            4 => Some(Status::ErrEpochFenced),
            5 => Some(Status::ErrNotLeader),
            255 => Some(Status::ErrInternal),
            _ => None,
        }
    }

    /// The wire code.
    pub fn to_u8(self) -> (v: u8)
        ensures
            v == status_code(self),
    {
        match self {
            Status::Success => 0,
            Status::ErrInvalidRequest => 1,
            Status::ErrShardUnavailable => 2,
            Status::ErrNotFound => 3,
            Status::ErrEpochFenced => 4,
            Status::ErrNotLeader => 5,
            Status::ErrInternal => 255,
        }
    }
}

/// A client request.
#[derive(Debug, Clone)]
pub struct Request {
    pub op: OpCode,
    pub stream_id: u64,
    pub epoch: u64,
    /// For reads/acks this is the target stream LSN.
    /// For writes the server ignores it and allocates the next LSN.
    pub offset: u64,
    pub payload: Bytes,
}

/// A request as plain values.
#[verifier::ext_equal]
pub struct RequestModel {
    pub op: OpCode,
    pub stream_id: u64,
    pub epoch: u64,
    pub offset: u64,
    pub payload: Seq<u8>,
}

impl View for Request {
    type V = RequestModel;

    open spec fn view(&self) -> RequestModel {
        RequestModel {
            op: self.op,
            stream_id: self.stream_id,
            epoch: self.epoch,
            offset: self.offset,
            payload: buffer::bytes_contents(self.payload),
        }
    }
}

/// A server response.
#[derive(Debug, Clone)]
pub struct Response {
    pub status: Status,
    pub epoch: u64,
    pub offset: u64,
    pub payload: Bytes,
}

/// A response as plain values.
#[verifier::ext_equal]
pub struct ResponseModel {
    pub status: Status,
    pub epoch: u64,
    pub offset: u64,
    pub payload: Seq<u8>,
}

impl View for Response {
    type V = ResponseModel;

    open spec fn view(&self) -> ResponseModel {
        ResponseModel {
            status: self.status,
            epoch: self.epoch,
            offset: self.offset,
            payload: buffer::bytes_contents(self.payload),
        }
    }
}

/// Positions of one stream, as a status response carries them.
#[derive(Debug, Clone, Copy, PartialEq, Eq, Structural)]
pub struct StreamStatusPayload {
    pub next_stream_lsn: u64,
    pub commit_stream_lsn: u64,
    pub consumed_stream_lsn: u64,
    pub commit_index: u64,
    pub last_applied: u64,
}

/// The wire codes of the operations, and that they are told apart: a code stands for
/// the operation that has it, and for none if none has it.
pub proof fn law_op_codes(op: OpCode, code: u8)
    ensures
        op_code(OpCode::Write) == 1,
        op_code(OpCode::Read) == 2,
        op_code(OpCode::Ack) == 3,
        op_code(OpCode::GetStatus) == 4,
        op_of_code(op_code(op)) == Some(op),
        op_of_code(code) matches Some(found) ==> op_code(found) == code,
        code == 0 || code > 4 ==> op_of_code(code) is None,
{
}

/// The wire codes of the statuses, and that they are told apart: a code stands for
/// the status that has it, and for none if none has it.
pub proof fn law_status_codes(status: Status, code: u8)
    ensures
        status_code(Status::Success) == 0,
        status_code(Status::ErrInvalidRequest) == 1,
        status_code(Status::ErrShardUnavailable) == 2,
        status_code(Status::ErrNotFound) == 3,
        status_code(Status::ErrEpochFenced) == 4,
        status_code(Status::ErrNotLeader) == 5,
        status_code(Status::ErrInternal) == 255,
        status_of_code(status_code(status)) == Some(status),
        status_of_code(code) matches Some(found) ==> status_code(found) == code,
        5 < code < 255 ==> status_of_code(code) is None,
{
}

/// A request and a response as plain values hold what their fields hold.
pub proof fn law_messages_hold_their_fields(req: Request, resp: Response)
    ensures
        req@.op == req.op,
        req@.stream_id == req.stream_id,
        req@.epoch == req.epoch,
        req@.offset == req.offset,
        req@.payload == buffer::bytes_contents(req.payload),
        resp@.status == resp.status,
        resp@.epoch == resp.epoch,
        resp@.offset == resp.offset,
        resp@.payload == buffer::bytes_contents(resp.payload),
{
}

} // verus!

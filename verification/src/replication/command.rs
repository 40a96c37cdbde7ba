//! The commands that are replicated.
//!
//! Layout, all integers big-endian:
//! `[tag:u8][request_id:u64][stream_id:u64][epoch:u64][stream_lsn:u64][payload_len:u32][payload]`

use bytes::Bytes;
use vstd::prelude::*;
use vstd::slice::slice_subrange;
use vstd::string::*;

use crate::be;
use crate::be::{get_u32, get_u64, put_be, put_slice};
use crate::buffer;
use crate::buffer::{bytes_as_slice, bytes_copy_from_slice};
use crate::text;
use crate::text::push_numeral;

verus! {

/// An append to a stream.
#[derive(Debug, Clone)]
pub struct AppendCommand {
    pub request_id: u64,
    pub stream_id: u64,
    pub epoch: u64,
    pub stream_lsn: u64,
    pub payload: Bytes,
}

/// An append as plain values.
#[verifier::ext_equal]
pub struct CommandModel {
    pub request_id: u64,
    pub stream_id: u64,
    pub epoch: u64,
    pub stream_lsn: u64,
    pub payload: Seq<u8>,
}

impl View for AppendCommand {
    type V = CommandModel;

    open spec fn view(&self) -> CommandModel {
        CommandModel {
            request_id: self.request_id,
            stream_id: self.stream_id,
            epoch: self.epoch,
            stream_lsn: self.stream_lsn,
            payload: buffer::bytes_contents(self.payload),
        }
    }
}

/// Why bytes are not a command.
#[derive(Debug, Clone, Copy, PartialEq, Eq, Structural)]
pub enum CommandError {
    InvalidTag(u8),
    BufferTooSmall,
}

/// The text that describes a command error.
pub open spec fn command_error_text(e: CommandError) -> Seq<char> {
    match e {
        CommandError::InvalidTag(tag) => "invalid command tag: "@ + text::decimal(tag as nat),
        CommandError::BufferTooSmall => "command buffer too small"@,
    }
}

impl CommandError {
    /// Describes the error.
    pub fn describe(&self) -> (s: String)
        ensures
            s@ == command_error_text(*self),
    {
        match self {
            CommandError::InvalidTag(tag) => {
                let mut s: String = String::from_str("invalid command tag: ");
                push_numeral(&mut s, *tag as u64, 10, 1);
                s
            },
            CommandError::BufferTooSmall => String::from_str("command buffer too small"),
        }
    }
}

/// The tag of an append.
pub const APPEND_TAG: u8 = 1;

/// An encoded command. A payload length that does not fit its field is cut to
/// the low bits.
pub open spec fn command_bytes(c: CommandModel) -> Seq<u8> {
    seq![APPEND_TAG] + be::be_bytes(c.request_id as nat, 8) + be::be_bytes(c.stream_id as nat, 8)
        + be::be_bytes(c.epoch as nat, 8) + be::be_bytes(c.stream_lsn as nat, 8) + be::be_bytes(
        c.payload.len(),
        4,
    ) + c.payload
}

/// What decoding a command gives. Bytes behind the payload are ignored.
pub open spec fn decoded_command(buf: Seq<u8>) -> Result<CommandModel, CommandError> {
    if buf.len() < 37 {
        Err(CommandError::BufferTooSmall)
    } else if buf[0] != APPEND_TAG {
        Err(CommandError::InvalidTag(buf[0]))
    } else if buf.len() < 37 + be::field32(buf, 33) {
        Err(CommandError::BufferTooSmall)
    } else {
        Ok(
            CommandModel {
                request_id: be::field64(buf, 1),
                stream_id: be::field64(buf, 9),
                epoch: be::field64(buf, 17),
                stream_lsn: be::field64(buf, 25),
                payload: buf.subrange(37, 37 + be::field32(buf, 33)),
            },
        )
    }
}

/// Encodes a command.
pub fn encode_append_command(cmd: &AppendCommand) -> (buf: Vec<u8>)
    ensures
        buf@ == command_bytes(cmd@),
{
    let payload: &[u8] = bytes_as_slice(&cmd.payload);
    let mut buf: Vec<u8> = Vec::new();
    buf.push(APPEND_TAG);
    put_be(&mut buf, cmd.request_id, 8);
    put_be(&mut buf, cmd.stream_id, 8);
    put_be(&mut buf, cmd.epoch, 8);
    put_be(&mut buf, cmd.stream_lsn, 8);
    put_be(&mut buf, payload.len() as u64, 4);
    put_slice(&mut buf, payload);
    assert(buf@ =~= command_bytes(cmd@));
    buf
}

/// Decodes a command.
pub fn decode_append_command(buf: &[u8]) -> (r: Result<AppendCommand, CommandError>)
    ensures
        match r {
            Ok(cmd) => decoded_command(buf@) == Ok::<CommandModel, CommandError>(cmd@),
            Err(e) => decoded_command(buf@) == Err::<CommandModel, CommandError>(e),
        },
{
    if buf.len() < 37 {
        return Err(CommandError::BufferTooSmall);
    }
    if buf[0] != APPEND_TAG {
        return Err(CommandError::InvalidTag(buf[0]));
    }
    let payload_len: u32 = get_u32(buf, 33);
    if ((buf.len() - 37) as u64) < payload_len as u64 {
        return Err(CommandError::BufferTooSmall);
    }
    Ok(
        AppendCommand {
            request_id: get_u64(buf, 1),
            stream_id: get_u64(buf, 9),
            epoch: get_u64(buf, 17),
            stream_lsn: get_u64(buf, 25),
            payload: bytes_copy_from_slice(slice_subrange(buf, 37, 37 + payload_len as usize)),
        },
    )
}

/// Decoding an encoded command gives it back, if its payload length fits the
/// 32-bit field.
pub proof fn law_command_roundtrip(c: CommandModel)
    requires
        c.payload.len() <= u32::MAX,
    ensures
        decoded_command(command_bytes(c)) == Ok::<CommandModel, CommandError>(c),
{
    broadcast use crate::be::lemma_be_bytes_len;

    let t = command_bytes(c);
    assert(t.subrange(1, 9) =~= be::be_bytes(c.request_id as nat, 8));
    assert(t.subrange(9, 17) =~= be::be_bytes(c.stream_id as nat, 8));
    assert(t.subrange(17, 25) =~= be::be_bytes(c.epoch as nat, 8));
    assert(t.subrange(25, 33) =~= be::be_bytes(c.stream_lsn as nat, 8));
    assert(t.subrange(33, 37) =~= be::be_bytes(c.payload.len(), 4));
    assert(t.subrange(37, 37 + c.payload.len() as int) =~= c.payload);
    be::lemma_field64(t, 1, c.request_id);
    be::lemma_field64(t, 9, c.stream_id);
    be::lemma_field64(t, 17, c.epoch);
    be::lemma_field64(t, 25, c.stream_lsn);
    be::lemma_field32(t, 33, c.payload.len() as u32);
}

/// The layout of a command: the tag one, then its request id, its stream, its epoch
/// and its LSN in eight bytes each, the length of the payload in four, most
/// significant byte first, and the payload.
pub proof fn law_command_layout(c: CommandModel)
    requires
        c.payload.len() <= u32::MAX,
    ensures
        ({
            let t = command_bytes(c);
            &&& t.len() == 37 + c.payload.len()
            &&& t[0] == 1
            &&& be::be_value(t.subrange(1, 9)) == c.request_id
            &&& be::be_value(t.subrange(9, 17)) == c.stream_id
            &&& be::be_value(t.subrange(17, 25)) == c.epoch
            &&& be::be_value(t.subrange(25, 33)) == c.stream_lsn
            &&& be::be_value(t.subrange(33, 37)) == c.payload.len()
            &&& t.skip(37) == c.payload
        }),
{
    broadcast use crate::be::lemma_be_bytes_len;

    be::lemma_be_capacities();
    let t = command_bytes(c);
    assert(t.subrange(1, 9) =~= be::be_bytes(c.request_id as nat, 8));
    assert(t.subrange(9, 17) =~= be::be_bytes(c.stream_id as nat, 8));
    assert(t.subrange(17, 25) =~= be::be_bytes(c.epoch as nat, 8));
    assert(t.subrange(25, 33) =~= be::be_bytes(c.stream_lsn as nat, 8));
    assert(t.subrange(33, 37) =~= be::be_bytes(c.payload.len(), 4));
    assert(t.skip(37) =~= c.payload);
    be::lemma_be_value_of_bytes(c.request_id as nat, 8);
    be::lemma_be_value_of_bytes(c.stream_id as nat, 8);
    be::lemma_be_value_of_bytes(c.epoch as nat, 8);
    be::lemma_be_value_of_bytes(c.stream_lsn as nat, 8);
    be::lemma_be_value_of_bytes(c.payload.len(), 4);
}

/// Bytes that are no command are refused, and the error names what is wrong first: too
/// few bytes for a header, the tag, or too few bytes for the payload. Any others are a
/// command, and bytes behind its payload do not matter.
pub proof fn law_bytes_that_are_no_command(buf: Seq<u8>)
    ensures
        buf.len() < 37 ==> decoded_command(buf) == Err::<CommandModel, CommandError>(
            CommandError::BufferTooSmall,
        ),
        buf.len() >= 37 ==> {
            let len = be::be_value(buf.subrange(33, 37));
            &&& buf[0] != 1 ==> decoded_command(buf) == Err::<CommandModel, CommandError>(
                CommandError::InvalidTag(buf[0]),
            )
            &&& buf[0] == 1 && buf.len() < 37 + len ==> decoded_command(buf) == Err::<
                CommandModel,
                CommandError,
            >(CommandError::BufferTooSmall)
            &&& buf[0] == 1 && buf.len() >= 37 + len ==> {
                &&& decoded_command(buf) matches Ok(c) && c.payload == buf.subrange(
                    37,
                    37 + len as int,
                ) && c.request_id == be::be_value(buf.subrange(1, 9)) && c.stream_id
                    == be::be_value(buf.subrange(9, 17)) && c.epoch == be::be_value(
                    buf.subrange(17, 25),
                ) && c.stream_lsn == be::be_value(buf.subrange(25, 33))
            }
        },
{
    if buf.len() >= 37 {
        be::lemma_be_capacities();
        be::lemma_be_value_bound(buf.subrange(1, 9));
        be::lemma_be_value_bound(buf.subrange(9, 17));
        be::lemma_be_value_bound(buf.subrange(17, 25));
        be::lemma_be_value_bound(buf.subrange(25, 33));
        be::lemma_be_value_bound(buf.subrange(33, 37));
    }
}

/// A command as plain values holds what its fields hold.
pub proof fn law_command_holds_its_fields(c: AppendCommand)
    ensures
        c@.request_id == c.request_id,
        c@.stream_id == c.stream_id,
        c@.epoch == c.epoch,
        c@.stream_lsn == c.stream_lsn,
        c@.payload == buffer::bytes_contents(c.payload),
{
}

/// A command that cannot be read is described with its tag, or by where it ends.
pub proof fn law_command_error_is_described(tag: u8)
    ensures
        command_error_text(CommandError::InvalidTag(tag)) == "invalid command tag: "@
            + text::decimal(tag as nat),
        command_error_text(CommandError::BufferTooSmall) == "command buffer too small"@,
{
}

} // verus!

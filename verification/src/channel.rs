//! What passes between the threads of the server, and the frames that raft
//! messages travel in.
//!
//! Frame layout: `[group_id:u16][len:u32][message]`, integers big-endian.

use protobuf::{Message as PbMessage, ProtobufError};
use raft::eraftpb::Message;
use vstd::arithmetic::power::*;
use vstd::prelude::*;
use vstd::slice::slice_subrange;
use vstd::string::*;

use crate::be;
use crate::be::{get_u16, get_u32, put_be, put_slice};
use crate::protocol::types::{Request, Response, ResponseModel};

verus! {

/// A message between the raft state machines of a group.
#[verifier::external_type_specification]
#[verifier::external_body]
pub struct ExRaftMessage(raft::eraftpb::Message);

/// Message from acceptor to shard.
pub struct ShardRequest {
    pub connection_id: u64,
    pub request: Request,
}

/// Message from shard to acceptor.
pub struct ShardResponse {
    pub connection_id: u64,
    pub response: Response,
}

/// A response and the connection that it goes to, as plain values.
#[verifier::ext_equal]
pub struct ReplyModel {
    pub connection_id: u64,
    pub response: ResponseModel,
}

impl View for ShardResponse {
    type V = ReplyModel;

    open spec fn view(&self) -> ReplyModel {
        ReplyModel { connection_id: self.connection_id, response: self.response@ }
    }
}

/// Responses as plain values.
pub open spec fn reply_models(replies: Seq<ShardResponse>) -> Seq<ReplyModel> {
    replies.map_values(|r: ShardResponse| r@)
}

/// Message from peer transport to shard raft state machine.
pub struct RaftInbound {
    pub group_id: u16,
    pub message: Message,
}

/// Message from shard raft state machine to peer transport.
pub struct RaftOutbound {
    pub group_id: u16,
    pub target_id: u64,
    pub message: Message,
}

/// Why a frame cannot be written or read.
#[derive(Debug, Clone, Copy, PartialEq, Eq, Structural)]
pub enum RaftFrameError {
    Codec,
}

impl RaftFrameError {
    /// Describes the error.
    pub fn describe(&self) -> (s: String)
        ensures
            s@ == "malformed raft message"@,
    {
        String::from_str("malformed raft message")
    }
}

/// What the length of the encoding of an entry depends on: its numbers and the
/// lengths of its byte strings.
#[derive(Debug, Clone, Copy, PartialEq, Eq, Structural)]
pub struct EntrySizes {
    pub entry_type: u64,
    pub term: u64,
    pub index: u64,
    pub sync_log: bool,
    pub data: usize,
    pub context: usize,
}

/// What the length of the encoding of a message depends on: of each entry what
/// counts there, of the message the length of its context, and of its snapshot
/// the length of the data and the members of the group, from all four lists.
pub struct MessageSizes {
    pub entries: Vec<EntrySizes>,
    pub context: usize,
    pub snapshot_data: usize,
    pub members: Vec<u64>,
}

/// What the length of the encoding of a message depends on, as sequences.
#[verifier::ext_equal]
pub struct SizesModel {
    pub entries: Seq<EntrySizes>,
    pub context: usize,
    pub snapshot_data: usize,
    pub members: Seq<u64>,
}

impl View for MessageSizes {
    type V = SizesModel;

    open spec fn view(&self) -> SizesModel {
        SizesModel {
            entries: self.entries@,
            context: self.context,
            snapshot_data: self.snapshot_data,
            members: self.members@,
        }
    }
}

/// The fields of a message and its parts that the codec does not know: how many
/// numbers of each wire type stand under a field number, and the lengths of the
/// byte strings.
pub struct UnknownSizes {
    pub numbers: Vec<(usize, usize, usize)>,
    pub lengths: Vec<usize>,
}

/// The fields that the codec does not know, as sequences.
#[verifier::ext_equal]
pub struct UnknownModel {
    pub numbers: Seq<(usize, usize, usize)>,
    pub lengths: Seq<usize>,
}

impl View for UnknownSizes {
    type V = UnknownModel;

    open spec fn view(&self) -> UnknownModel {
        UnknownModel { numbers: self.numbers@, lengths: self.lengths@ }
    }
}

/// What the length of the encoding of a message depends on.
pub uninterp spec fn message_sizes(m: Message) -> SizesModel;

/// The fields of a message and its parts that the codec does not know.
pub uninterp spec fn message_unknown(m: Message) -> UnknownModel;

/// The protobuf encoding of a message.
pub uninterp spec fn message_wire(m: Message) -> Seq<u8>;

/// The message that bytes are the protobuf encoding of, if they are one.
pub uninterp spec fn message_parsed(buf: Seq<u8>) -> Option<Message>;

/// How many bytes a number takes: seven bits go into each.
pub open spec fn varint_len(n: nat) -> nat
    decreases n,
{
    if n < 128 {
        1
    } else {
        1 + varint_len(n / 128)
    }
}

/// The length of a number with its tag. Zero is left out.
pub open spec fn number_len(n: nat) -> nat {
    if n == 0 {
        0
    } else {
        1 + varint_len(n)
    }
}

/// The length of a byte string with its tag and its length. An empty one is left
/// out.
pub open spec fn bytes_len(n: nat) -> nat {
    if n == 0 {
        0
    } else {
        1 + varint_len(n) + n
    }
}

/// The length of an entry, without fields that the codec does not know.
pub open spec fn entry_len(e: EntrySizes) -> nat {
    number_len(e.entry_type as nat) + number_len(e.term as nat) + number_len(e.index as nat)
        + number_len(
        if e.sync_log {
            1
        } else {
            0
        },
    ) + bytes_len(e.data as nat) + bytes_len(e.context as nat)
}

/// What an entry takes in a message: a tag, its length and itself.
pub open spec fn entry_cost(e: EntrySizes) -> nat {
    1 + varint_len(entry_len(e)) + entry_len(e)
}

/// What the entries of a message take.
pub open spec fn entries_cost(entries: Seq<EntrySizes>) -> nat
    decreases entries.len(),
{
    if entries.len() == 0 {
        0
    } else {
        entries_cost(entries.drop_last()) + entry_cost(entries.last())
    }
}

/// What the members of a group take.
pub open spec fn members_cost(members: Seq<u64>) -> nat
    decreases members.len(),
{
    if members.len() == 0 {
        0
    } else {
        members_cost(members.drop_last()) + 1 + varint_len(members.last() as nat)
    }
}

/// What numbers under unknown fields take at most: a tag, ten bytes, and what the
/// length of the part that holds them grows by.
pub open spec fn unknown_numbers_bound(numbers: Seq<(usize, usize, usize)>) -> nat
    decreases numbers.len(),
{
    if numbers.len() == 0 {
        0
    } else {
        let (a, b, c) = numbers.last();
        unknown_numbers_bound(numbers.drop_last()) + 20 * (a as nat + b as nat + c as nat)
    }
}

/// What byte strings under unknown fields take at most: a tag, a length,
/// themselves, and what the length of the part that holds them grows by.
pub open spec fn unknown_lengths_bound(lengths: Seq<usize>) -> nat
    decreases lengths.len(),
{
    if lengths.len() == 0 {
        0
    } else {
        unknown_lengths_bound(lengths.drop_last()) + 20 + lengths.last() as nat
    }
}

/// What a message takes at most. What is not in the lists, the numbers of the
/// message and the framing of its snapshot, takes no more than 256 bytes.
pub open spec fn size_bound(s: SizesModel, u: UnknownModel) -> nat {
    entries_cost(s.entries) + members_cost(s.members) + unknown_numbers_bound(u.numbers)
        + unknown_lengths_bound(u.lengths) + s.context as nat + s.snapshot_data as nat + 256
}

/// Whether the protobuf codec, which counts in 32 bits, can count the bytes of a
/// message.
pub open spec fn is_countable(m: Message) -> bool {
    size_bound(message_sizes(m), message_unknown(m)) <= u32::MAX
}

/// `eraftpb::Message`'s accessors: what the length of its encoding depends on. A
/// part that is missing is empty.
#[verifier::external_body]
fn sizes_of(m: &Message) -> (s: MessageSizes)
    ensures
        s@ == message_sizes(*m),
{
    let c = m.get_snapshot().get_metadata().get_conf_state();
    let sizes = |e: &raft::eraftpb::Entry| EntrySizes {
        entry_type: e.entry_type as u64,
        term: e.term,
        index: e.index,
        sync_log: e.sync_log,
        data: e.data.len(),
        context: e.context.len(),
    };
    let entries = m.get_entries().iter().map(sizes).collect();
    let members = [&c.voters[..], &c.learners, &c.voters_outgoing, &c.learners_next].concat();
    let snapshot_data = m.get_snapshot().data.len();
    MessageSizes { entries, context: m.context.len(), snapshot_data, members }
}

/// `UnknownFields` of an `eraftpb::Message` and of its entries, its snapshot, the
/// snapshot's metadata and the group in it: the fields that the codec does not
/// know. Their map has a hasher without a seed.
#[verifier::external_body]
fn unknown_of(m: &Message) -> (u: UnknownSizes)
    ensures
        u@ == message_unknown(*m),
{
    let snap = m.get_snapshot();
    let meta = snap.get_metadata();
    let group = &meta.get_conf_state().unknown_fields;
    let own = [&m.unknown_fields, &snap.unknown_fields, &meta.unknown_fields, group];
    let entries = m.get_entries().iter().map(|e| &e.unknown_fields);
    let all: Vec<_> = entries.chain(own).flatten().map(|f| f.1).collect();
    let numbers = all.iter().map(|v| (v.fixed32.len(), v.fixed64.len(), v.varint.len())).collect();
    let lengths = all.iter().flat_map(|v| &v.length_delimited).map(Vec::len).collect();
    UnknownSizes { numbers, lengths }
}

/// `Message::write_to_bytes` on `eraftpb::Message`: the encoding, a function of
/// the message alone; its length is counted in 32 bits. It does not fail: no
/// field of the message is required, and the buffer has the length that was
/// counted. That parsing gives the message back is not said: a message is opaque
/// here, so there is nothing to compare by.
#[verifier::external_body]
fn write_message(m: &Message) -> (r: Result<Vec<u8>, ProtobufError>)
    requires
        is_countable(*m),
    ensures
        r is Ok,
        r matches Ok(b) ==> b@ == message_wire(*m) && b@.len() <= u32::MAX,
{
    m.write_to_bytes()
}

/// `Message::parse_from_bytes` of `eraftpb::Message`: a function of the bytes
/// alone.
#[verifier::external_body]
fn parse_message(buf: &[u8]) -> (r: Result<Message, ProtobufError>)
    ensures
        match r {
            Ok(m) => message_parsed(buf@) == Some(m),
            Err(_) => message_parsed(buf@) is None,
        },
{
    Message::parse_from_bytes(buf)
}

/// A frame with a message in it.
pub open spec fn raft_frame(group_id: u16, wire: Seq<u8>) -> Seq<u8> {
    be::be_bytes(group_id as nat, 2) + be::be_bytes(wire.len(), 4) + wire
}

/// The frame at the start of `buf`: its group, the bytes of its message and its
/// length. `None` asks for more bytes.
pub open spec fn leading_frame(buf: Seq<u8>) -> Option<(u16, Seq<u8>, nat)> {
    if buf.len() < 6 || buf.len() < 6 + be::field32(buf, 2) {
        None
    } else {
        Some(
            (
                be::field16(buf, 0),
                buf.subrange(6, 6 + be::field32(buf, 2)),
                6 + be::field32(buf, 2) as nat,
            ),
        )
    }
}

/// Puts the bytes of a message into a frame.
pub fn frame_message(group_id: u16, wire: &Vec<u8>) -> (frame: Vec<u8>)
    ensures
        frame@ == raft_frame(group_id, wire@),
{
    let mut frame: Vec<u8> = Vec::new();
    put_be(&mut frame, group_id as u64, 2);
    put_be(&mut frame, wire.len() as u64, 4);
    put_slice(&mut frame, wire.as_slice());
    assert(frame@ =~= raft_frame(group_id, wire@));
    frame
}

/// Finds the frame at the start of `buf`: its group, the bytes of its message and
/// its length.
pub fn find_frame(buf: &[u8]) -> (r: Option<(u16, &[u8], usize)>)
    ensures
        match r {
            Some((group_id, wire, n)) => leading_frame(buf@) == Some(
                (group_id, wire@, n as nat),
            ) && n <= buf@.len(),
            None => leading_frame(buf@) is None,
        },
{
    if buf.len() < 6 {
        return None;
    }
    let len: u32 = get_u32(buf, 2);
    if ((buf.len() - 6) as u64) < len as u64 {
        return None;
    }
    let end: usize = 6 + len as usize;
    Some((get_u16(buf, 0), slice_subrange(buf, 6, end), end))
}

/// Encodes a message into a frame.
pub fn encode_raft_message(group_id: u16, message: &Message) -> (r: Result<
    Vec<u8>,
    RaftFrameError,
>)
    requires
        is_countable(*message),
    ensures
        r matches Ok(frame) && frame@ == raft_frame(group_id, message_wire(*message)),
        message_wire(*message).len() <= u32::MAX,
{
    match write_message(message) {
        Ok(wire) => Ok(frame_message(group_id, &wire)),
        Err(_) => Err(RaftFrameError::Codec),
    }
}

/// A count that stops one above what 32 bits hold.
spec fn capped(n: nat) -> nat {
    if n > u32::MAX {
        0x1_0000_0000
    } else {
        n
    }
}

fn plus(total: u64, cost: u128) -> (r: u64)
    requires
        total <= 0x1_0000_0000,
        cost <= 0x1_0000_0000_0000_0000_0000,
    ensures
        r == capped(total as nat + cost as nat),
{
    let sum: u128 = total as u128 + cost;
    if sum > u32::MAX as u128 {
        0x1_0000_0000
    } else {
        sum as u64
    }
}

fn varint_size(n: u128) -> (len: u128)
    requires
        n <= 0xFF_FFFF_FFFF_FFFF_FFFF,
    ensures
        len == varint_len(n as nat),
        len <= n + 1,
{
    let mut rest: u128 = n;
    let mut len: u128 = 1;
    while rest >= 128
        invariant
            n <= 0xFF_FFFF_FFFF_FFFF_FFFF,
            1 <= len,
            len + rest <= n + 1,
            len + varint_len(rest as nat) == varint_len(n as nat) + 1,
        decreases rest,
    {
        rest = rest / 128;
        len = len + 1;
    }
    len
}

fn number_size(n: u64) -> (len: u128)
    ensures
        len == number_len(n as nat),
        len <= n + 2,
{
    if n == 0 {
        0
    } else {
        1 + varint_size(n as u128)
    }
}

fn bytes_size(n: usize) -> (len: u128)
    ensures
        len == bytes_len(n as nat),
        len <= 2 * n + 2,
{
    if n == 0 {
        0
    } else {
        1 + varint_size(n as u128) + n as u128
    }
}

fn entry_size(e: &EntrySizes) -> (len: u128)
    ensures
        len == entry_cost(*e),
        len <= 0x1_0000_0000_0000_0000_0000,
{
    let sync_log: u64 = if e.sync_log {
        1
    } else {
        0
    };
    let body: u128 = number_size(e.entry_type) + number_size(e.term) + number_size(e.index)
        + number_size(sync_log) + bytes_size(e.data) + bytes_size(e.context);
    1 + varint_size(body) + body
}

fn add_entries(total: u64, entries: &Vec<EntrySizes>) -> (r: u64)
    requires
        total <= 0x1_0000_0000,
    ensures
        r == capped(total as nat + entries_cost(entries@)),
{
    let mut r: u64 = total;
    let mut i: usize = 0;
    assert(entries@.take(0) =~= Seq::empty());
    while i < entries.len()
        invariant
            i <= entries@.len(),
            total <= 0x1_0000_0000,
            r == capped(total as nat + entries_cost(entries@.take(i as int))),
        decreases entries@.len() - i,
    {
        r = plus(r, entry_size(&entries[i]));
        proof {
            let next = entries@.take(i + 1);
            assert(next.drop_last() =~= entries@.take(i as int));
            assert(next.last() == entries@[i as int]);
        }
        i = i + 1;
    }
    assert(entries@.take(i as int) =~= entries@);
    r
}

fn add_members(total: u64, members: &Vec<u64>) -> (r: u64)
    requires
        total <= 0x1_0000_0000,
    ensures
        r == capped(total as nat + members_cost(members@)),
{
    let mut r: u64 = total;
    let mut i: usize = 0;
    assert(members@.take(0) =~= Seq::empty());
    while i < members.len()
        invariant
            i <= members@.len(),
            total <= 0x1_0000_0000,
            r == capped(total as nat + members_cost(members@.take(i as int))),
        decreases members@.len() - i,
    {
        r = plus(r, 1 + varint_size(members[i] as u128));
        proof {
            let next = members@.take(i + 1);
            assert(next.drop_last() =~= members@.take(i as int));
            assert(next.last() == members@[i as int]);
        }
        i = i + 1;
    }
    assert(members@.take(i as int) =~= members@);
    r
}

fn add_unknown_numbers(total: u64, numbers: &Vec<(usize, usize, usize)>) -> (r: u64)
    requires
        total <= 0x1_0000_0000,
    ensures
        r == capped(total as nat + unknown_numbers_bound(numbers@)),
{
    let mut r: u64 = total;
    let mut i: usize = 0;
    assert(numbers@.take(0) =~= Seq::empty());
    while i < numbers.len()
        invariant
            i <= numbers@.len(),
            total <= 0x1_0000_0000,
            r == capped(total as nat + unknown_numbers_bound(numbers@.take(i as int))),
        decreases numbers@.len() - i,
    {
        let (a, b, c): (usize, usize, usize) = numbers[i];
        r = plus(r, 20 * (a as u128 + b as u128 + c as u128));
        proof {
            let next = numbers@.take(i + 1);
            assert(next.drop_last() =~= numbers@.take(i as int));
            assert(next.last() == numbers@[i as int]);
        }
        i = i + 1;
    }
    assert(numbers@.take(i as int) =~= numbers@);
    r
}

fn add_unknown_lengths(total: u64, lengths: &Vec<usize>) -> (r: u64)
    requires
        total <= 0x1_0000_0000,
    ensures
        r == capped(total as nat + unknown_lengths_bound(lengths@)),
{
    let mut r: u64 = total;
    let mut i: usize = 0;
    assert(lengths@.take(0) =~= Seq::empty());
    while i < lengths.len()
        invariant
            i <= lengths@.len(),
            total <= 0x1_0000_0000,
            r == capped(total as nat + unknown_lengths_bound(lengths@.take(i as int))),
        decreases lengths@.len() - i,
    {
        r = plus(r, 20 + lengths[i] as u128);
        proof {
            let next = lengths@.take(i + 1);
            assert(next.drop_last() =~= lengths@.take(i as int));
            assert(next.last() == lengths@[i as int]);
        }
        i = i + 1;
    }
    assert(lengths@.take(i as int) =~= lengths@);
    r
}

/// Whether a message with these parts takes no more bytes than 32 bits count.
pub fn sizes_fit(sizes: &MessageSizes, unknown: &UnknownSizes) -> (r: bool)
    ensures
        r == (size_bound(sizes@, unknown@) <= u32::MAX),
{
    let mut total: u64 = plus(256, sizes.context as u128 + sizes.snapshot_data as u128);
    total = add_entries(total, &sizes.entries);
    total = add_members(total, &sizes.members);
    total = add_unknown_numbers(total, &unknown.numbers);
    total = add_unknown_lengths(total, &unknown.lengths);
    total <= u32::MAX as u64
}

/// Whether the codec can count the bytes of a message.
pub fn message_fits(message: &Message) -> (r: bool)
    ensures
        r == is_countable(*message),
{
    sizes_fit(&sizes_of(message), &unknown_of(message))
}

/// Encodes a message into a frame. `None` says that the codec could not count
/// its bytes.
pub fn try_encode_raft_message(group_id: u16, message: &Message) -> (r: Option<
    Result<Vec<u8>, RaftFrameError>,
>)
    ensures
        r is Some <==> is_countable(*message),
        r matches Some(res) ==> {
            &&& res matches Ok(frame) && frame@ == raft_frame(group_id, message_wire(*message))
            &&& message_wire(*message).len() <= u32::MAX
        },
{
    if !message_fits(message) {
        return None;
    }
    Some(encode_raft_message(group_id, message))
}

/// What decoding the frame at the start of `buf` gives: its group, its message
/// and its length; `None` if it is not complete.
pub open spec fn decoded_raft_message(buf: Seq<u8>) -> Result<
    Option<(u16, Message, nat)>,
    RaftFrameError,
> {
    match leading_frame(buf) {
        None => Ok(None),
        Some((group_id, wire, n)) => match message_parsed(wire) {
            Some(message) => Ok(Some((group_id, message, n))),
            None => Err(RaftFrameError::Codec),
        },
    }
}

/// Decodes the frame at the start of `buf`.
pub fn try_decode_raft_message(buf: &[u8]) -> (r: Result<
    Option<(u16, Message, usize)>,
    RaftFrameError,
>)
    ensures
        match r {
            Ok(Some((group_id, message, n))) => decoded_raft_message(buf@) == Ok::<
                Option<(u16, Message, nat)>,
                RaftFrameError,
            >(Some((group_id, message, n as nat))) && 6 <= n <= buf@.len(),
            Ok(None) => decoded_raft_message(buf@) == Ok::<
                Option<(u16, Message, nat)>,
                RaftFrameError,
            >(None),
            Err(e) => decoded_raft_message(buf@) == Err::<
                Option<(u16, Message, nat)>,
                RaftFrameError,
            >(e),
        },
{
    match find_frame(buf) {
        None => Ok(None),
        Some((group_id, wire, n)) => match parse_message(wire) {
            Ok(message) => Ok(Some((group_id, message, n))),
            Err(_) => Err(RaftFrameError::Codec),
        },
    }
}

/// The frame that was written is the frame that is read, whatever follows it.
pub proof fn law_frame_roundtrip(group_id: u16, wire: Seq<u8>, rest: Seq<u8>)
    requires
        wire.len() <= u32::MAX,
    ensures
        leading_frame(raft_frame(group_id, wire) + rest) == Some(
            (group_id, wire, 6 + wire.len()),
        ),
{
    broadcast use crate::be::lemma_be_bytes_len;

    let t = raft_frame(group_id, wire) + rest;
    assert(t.subrange(0, 2) =~= be::be_bytes(group_id as nat, 2));
    assert(t.subrange(2, 6) =~= be::be_bytes(wire.len(), 4));
    be::lemma_field16(t, 0, group_id);
    be::lemma_field32(t, 2, wire.len() as u32);
    assert(t.subrange(6, 6 + wire.len() as int) =~= wire);
}

/// A frame that was cut short asks for more bytes.
pub proof fn law_partial_frame_waits(group_id: u16, wire: Seq<u8>, n: int)
    requires
        wire.len() <= u32::MAX,
        0 <= n < 6 + wire.len(),
    ensures
        leading_frame(raft_frame(group_id, wire).take(n)) is None,
{
    broadcast use crate::be::lemma_be_bytes_len;

    let t = raft_frame(group_id, wire).take(n);
    if n >= 6 {
        assert(t.subrange(2, 6) =~= be::be_bytes(wire.len(), 4));
        be::lemma_field32(t, 2, wire.len() as u32);
    }
}

/// The layout of a frame: its group in two bytes and the length of its message in
/// four, most significant byte first, and the message.
pub proof fn law_frame_layout(group_id: u16, wire: Seq<u8>)
    requires
        wire.len() <= u32::MAX,
    ensures
        raft_frame(group_id, wire).len() == 6 + wire.len(),
        be::be_value(raft_frame(group_id, wire).subrange(0, 2)) == group_id,
        be::be_value(raft_frame(group_id, wire).subrange(2, 6)) == wire.len(),
        raft_frame(group_id, wire).skip(6) == wire,
{
    broadcast use crate::be::lemma_be_bytes_len;

    be::lemma_be_capacities();
    let t = raft_frame(group_id, wire);
    assert(t.subrange(0, 2) =~= be::be_bytes(group_id as nat, 2));
    assert(t.subrange(2, 6) =~= be::be_bytes(wire.len(), 4));
    assert(t.skip(6) =~= wire);
    be::lemma_be_value_of_bytes(group_id as nat, 2);
    be::lemma_be_value_of_bytes(wire.len(), 4);
}

/// More bytes never change a frame that was found.
pub proof fn law_frames_are_found_incrementally(buf: Seq<u8>, more: Seq<u8>)
    requires
        leading_frame(buf) is Some,
    ensures
        leading_frame(buf + more) == leading_frame(buf),
{
    let t = buf + more;
    let n = be::field32(buf, 2) as int;
    assert(t.subrange(0, buf.len() as int) =~= buf);
    be::lemma_field_prefix(buf, t, 0, 2);
    be::lemma_field_prefix(buf, t, 2, 4);
    be::lemma_field_prefix(buf, t, 6, n);
}

/// A frame gives its group and the message that its bytes are the encoding of, and
/// takes its own bytes, whatever follows. Bytes that are the encoding of no message
/// are an error.
pub proof fn law_framed_message_is_decoded(group_id: u16, wire: Seq<u8>, rest: Seq<u8>)
    requires
        wire.len() <= u32::MAX,
    ensures
        match message_parsed(wire) {
            Some(message) => decoded_raft_message(raft_frame(group_id, wire) + rest) == Ok::<
                Option<(u16, Message, nat)>,
                RaftFrameError,
            >(Some((group_id, message, 6 + wire.len()))),
            None => decoded_raft_message(raft_frame(group_id, wire) + rest) == Err::<
                Option<(u16, Message, nat)>,
                RaftFrameError,
            >(RaftFrameError::Codec),
        },
        leading_frame(rest) is None ==> decoded_raft_message(rest) == Ok::<
            Option<(u16, Message, nat)>,
            RaftFrameError,
        >(None),
{
    law_frame_roundtrip(group_id, wire, rest);
}

proof fn lemma_varint_bound(n: nat)
    requires
        n <= 0x7F_FFFF_FFFF_FFFF_FFFF,
    ensures
        1 <= varint_len(n) <= 11,
{
    reveal_with_fuel(varint_len, 12);
}

/// What the byte strings of entries take by themselves.
pub open spec fn payload_bytes(entries: Seq<EntrySizes>) -> nat
    decreases entries.len(),
{
    if entries.len() == 0 {
        0
    } else {
        payload_bytes(entries.drop_last()) + entries.last().data as nat
            + entries.last().context as nat
    }
}

proof fn lemma_entries_cost(entries: Seq<EntrySizes>)
    ensures
        payload_bytes(entries) <= entries_cost(entries) <= payload_bytes(entries) + 100
            * entries.len(),
    decreases entries.len(),
{
    if entries.len() > 0 {
        lemma_entries_cost(entries.drop_last());
        let e = entries.last();
        lemma_varint_bound(e.entry_type as nat);
        lemma_varint_bound(e.term as nat);
        lemma_varint_bound(e.index as nat);
        lemma_varint_bound(e.data as nat);
        lemma_varint_bound(e.context as nat);
        lemma_varint_bound(1);
        lemma_varint_bound(entry_len(e));
        assert(entries.len() == entries.drop_last().len() + 1);
    }
}

proof fn lemma_members_cost(members: Seq<u64>)
    ensures
        members_cost(members) <= 12 * members.len(),
    decreases members.len(),
{
    if members.len() > 0 {
        lemma_members_cost(members.drop_last());
        lemma_varint_bound(members.last() as nat);
        assert(members.len() == members.drop_last().len() + 1);
    }
}

/// What a message without unknown fields is counted as is what its byte strings take
/// by themselves, and a small number of bytes more for each entry and each member of
/// its group. So every message of ordinary size is sent.
pub proof fn law_message_of_ordinary_size_is_countable(m: Message)
    requires
        message_unknown(m).numbers.len() == 0,
        message_unknown(m).lengths.len() == 0,
    ensures
        ({
            let s = message_sizes(m);
            let own = payload_bytes(s.entries) + s.context + s.snapshot_data;
            &&& own <= size_bound(s, message_unknown(m))
            &&& own + 100 * s.entries.len() + 12 * s.members.len() + 256 <= u32::MAX
                ==> is_countable(m)
            &&& own > u32::MAX ==> !is_countable(m)
        }),
{
    let s = message_sizes(m);
    lemma_entries_cost(s.entries);
    lemma_members_cost(s.members);
}

/// A response on its way as plain values holds its connection and the response, and
/// several hold each of them in order.
pub proof fn law_replies_hold_their_fields(r: ShardResponse, replies: Seq<ShardResponse>, i: int)
    ensures
        r@.connection_id == r.connection_id,
        r@.response == r.response@,
        reply_models(replies).len() == replies.len(),
        0 <= i < replies.len() ==> reply_models(replies)[i] == replies[i]@,
{
}

/// A number takes as few bytes as hold it, with seven bits in each.
pub proof fn law_number_takes_seven_bits_a_byte(n: nat)
    ensures
        varint_len(n) >= 1,
        n < pow(128, varint_len(n)),
        varint_len(n) > 1 ==> n >= pow(128, (varint_len(n) - 1) as nat),
    decreases n,
{
    reveal(pow);
    if n < 128 {
        lemma_pow1(128);
    } else {
        let m = n / 128;
        let k = varint_len(m);
        law_number_takes_seven_bits_a_byte(m);
        assert(pow(128, k + 1) == 128 * pow(128, k));
        if k == 1 {
            lemma_pow1(128);
        } else {
            assert(pow(128, k) == 128 * pow(128, (k - 1) as nat));
        }
    }
}

/// Of a field that is zero or empty nothing is written. Any other takes one byte for its
/// tag, and a byte string takes its length and itself.
pub proof fn law_fields_take_tag_and_value(n: nat)
    ensures
        n == 0 ==> number_len(n) == 0 && bytes_len(n) == 0,
        n > 0 ==> number_len(n) == 1 + varint_len(n) && bytes_len(n) == number_len(n) + n,
{
}

/// An entry takes what its six fields take, and in a message a tag and its length more.
/// Entries and members of a group take what they take one by one.
pub proof fn law_entries_take_what_their_fields_take(
    e: EntrySizes,
    entries: Seq<EntrySizes>,
    member: u64,
    members: Seq<u64>,
)
    ensures
        entry_len(e) == number_len(e.entry_type as nat) + number_len(e.term as nat) + number_len(
            e.index as nat,
        ) + bytes_len(e.data as nat) + bytes_len(e.context as nat) + (if e.sync_log {
            2nat
        } else {
            0nat
        }),
        entry_cost(e) == entry_len(e) + varint_len(entry_len(e)) + 1,
        entries_cost(Seq::empty()) == 0,
        entries_cost(entries.push(e)) == entries_cost(entries) + entry_cost(e),
        members_cost(Seq::empty()) == 0,
        members_cost(members.push(member)) == members_cost(members) + 1 + varint_len(
            member as nat,
        ),
{
    assert(entries.push(e).drop_last() =~= entries);
    assert(members.push(member).drop_last() =~= members);
}

/// Fields that the codec does not know are counted with twenty bytes each for what is
/// around them, and byte strings with their own length in addition.
pub proof fn law_unknown_fields_are_counted(
    numbers: Seq<(usize, usize, usize)>,
    a: usize,
    b: usize,
    c: usize,
    lengths: Seq<usize>,
    n: usize,
)
    ensures
        unknown_numbers_bound(Seq::empty()) == 0,
        unknown_numbers_bound(numbers.push((a, b, c))) == unknown_numbers_bound(numbers) + 20 * a
            + 20 * b + 20 * c,
        unknown_lengths_bound(Seq::empty()) == 0,
        unknown_lengths_bound(lengths.push(n)) == unknown_lengths_bound(lengths) + 20 + n,
{
    assert(numbers.push((a, b, c)).drop_last() =~= numbers);
    assert(lengths.push(n).drop_last() =~= lengths);
}

/// A message is countable if what its parts take fits in 32 bits with 256 bytes to spare.
pub proof fn law_message_is_counted_by_its_parts(m: Message)
    ensures
        ({
            let (s, u) = (message_sizes(m), message_unknown(m));
            is_countable(m) <==> entries_cost(s.entries) + members_cost(s.members)
                + unknown_numbers_bound(u.numbers) + unknown_lengths_bound(u.lengths) + s.context
                + s.snapshot_data + 256 < 0x1_0000_0000
        }),
{
}

} // verus!

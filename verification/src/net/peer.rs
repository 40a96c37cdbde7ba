//! Connections between the replicas of a group.

use std::collections::{HashMap, HashSet};

use raft::eraftpb::Message;
use vstd::prelude::*;

use crate::be::put_slice;
use crate::channel;
use crate::channel::{
    try_decode_raft_message, try_encode_raft_message, RaftFrameError, RaftInbound, RaftOutbound,
};
use crate::config::PeerConfig;
use crate::net::acceptor::drop_front;

verus! {

/// How many messages go out to a peer in one write.
pub const MAX_OUTBOUND_BATCH: usize = 128;

/// The bytes of a peer that are not yet a message.
pub struct FrameBuffer {
    bytes: Vec<u8>,
}

impl View for FrameBuffer {
    type V = Seq<u8>;

    closed spec fn view(&self) -> Seq<u8> {
        self.bytes@
    }
}

/// The next message for a known group, and the bytes behind it. Messages for
/// other groups are dropped; `None` asks for more bytes.
pub open spec fn next_message(buf: Seq<u8>, known: Set<u16>) -> (
    Result<Option<(u16, Message)>, RaftFrameError>,
    Seq<u8>,
)
    decreases buf.len(),
{
    match channel::decoded_raft_message(buf) {
        Err(e) => (Err(e), buf),
        Ok(None) => (Ok(None), buf),
        Ok(Some((group_id, message, n))) => if known.contains(group_id) {
            (Ok(Some((group_id, message))), buf.skip(n as int))
        } else {
            next_message(buf.skip(n as int), known)
        },
    }
}

impl FrameBuffer {
    /// A buffer without bytes.
    pub fn new() -> (b: Self)
        ensures
            b@ == Seq::<u8>::empty(),
    {
        FrameBuffer { bytes: Vec::new() }
    }

    /// Takes in bytes that arrived.
    pub fn feed(&mut self, data: &[u8])
        ensures
            final(self)@ == old(self)@ + data@,
    {
        self.bytes.extend_from_slice(data);
        assert(self@ =~= old(self)@ + data@);
    }

    /// Takes the next message for one of the known groups out of the buffer,
    /// dropping those for other groups; `None` asks for more bytes.
    pub fn next_inbound(&mut self, known: &HashSet<u16>) -> (r: Result<
        Option<RaftInbound>,
        RaftFrameError,
    >)
        ensures
            final(self)@ == next_message(old(self)@, known@).1,
            match next_message(old(self)@, known@).0 {
                Ok(Some((group_id, message))) => r == Ok::<Option<RaftInbound>, RaftFrameError>(
                    Some(RaftInbound { group_id, message }),
                ),
                Ok(None) => r == Ok::<Option<RaftInbound>, RaftFrameError>(None),
                Err(e) => r == Err::<Option<RaftInbound>, RaftFrameError>(e),
            },
    {
        broadcast use vstd::std_specs::hash::group_hash_axioms;

        loop
            invariant
                next_message(self@, known@) == next_message(old(self)@, known@),
            decreases self@.len(),
        {
            match try_decode_raft_message(self.bytes.as_slice()) {
                Ok(Some((group_id, message, n))) => {
                    let rest: Vec<u8> = drop_front(&self.bytes, n);
                    self.bytes = rest;
                    if known.contains(&group_id) {
                        return Ok(Some(RaftInbound { group_id, message }));
                    }
                },
                Ok(None) => {
                    return Ok(None);
                },
                Err(e) => {
                    return Err(e);
                },
            }
        }
    }
}

/// The frames of a batch of messages, one behind the other.
pub open spec fn batch_frames(batch: Seq<RaftOutbound>) -> Seq<u8>
    decreases batch.len(),
{
    if batch.len() == 0 {
        Seq::empty()
    } else {
        batch_frames(batch.drop_last()) + channel::raft_frame(
            batch.last().group_id,
            channel::message_wire(batch.last().message),
        )
    }
}

/// Frames one behind the other.
pub open spec fn joined(frames: Seq<Vec<u8>>) -> Seq<u8>
    decreases frames.len(),
{
    if frames.len() == 0 {
        Seq::empty()
    } else {
        joined(frames.drop_last()) + frames.last()@
    }
}

/// Joins the frames of a batch for one write.
pub fn join_frames(frames: &Vec<Vec<u8>>) -> (all: Vec<u8>)
    ensures
        all@ == joined(frames@),
{
    let mut all: Vec<u8> = Vec::new();
    let mut i: usize = 0;
    assert(frames@.take(0) =~= Seq::empty());
    while i < frames.len()
        invariant
            i <= frames@.len(),
            all@ == joined(frames@.take(i as int)),
        decreases frames@.len() - i,
    {
        put_slice(&mut all, frames[i].as_slice());
        assert(frames@.take(i + 1).drop_last() =~= frames@.take(i as int));
        i = i + 1;
    }
    assert(frames@.take(i as int) =~= frames@);
    all
}

/// Encodes a batch of messages for one write. A batch with a message whose bytes
/// the codec cannot count is dropped whole, and so is an empty one.
pub fn encode_batch(batch: &Vec<RaftOutbound>) -> (r: Option<Vec<u8>>)
    ensures
        r is Some <==> batch@.len() > 0 && forall|i: int|
            0 <= i < batch@.len() ==> channel::is_countable((#[trigger] batch@[i]).message),
        r matches Some(frames) ==> frames@ == batch_frames(batch@),
{
    if batch.len() == 0 {
        return None;
    }
    let mut frames: Vec<Vec<u8>> = Vec::new();
    let mut i: usize = 0;
    assert(batch@.take(0) =~= Seq::empty());
    while i < batch.len()
        invariant
            i <= batch@.len(),
            joined(frames@) == batch_frames(batch@.take(i as int)),
            batch@.len() > 0,
            forall|j: int| 0 <= j < i ==> channel::is_countable((#[trigger] batch@[j]).message),
        decreases batch@.len() - i,
    {
        match try_encode_raft_message(batch[i].group_id, &batch[i].message) {
            Some(Ok(frame)) => {
                let ghost before = frames@;
                frames.push(frame);
                assert(frames@.drop_last() =~= before);
                assert(batch@.take(i + 1).drop_last() =~= batch@.take(i as int));
            },
            _ => {
                assert(!channel::is_countable(batch@[i as int].message));
                return None;
            },
        }
        i = i + 1;
    }
    assert(batch@.take(i as int) =~= batch@);
    Some(join_frames(&frames))
}

/// The addresses of peers by their ids; of two peers with one id the later one
/// counts.
pub open spec fn address_table(peers: Seq<PeerConfig>) -> Map<u64, String>
    decreases peers.len(),
{
    if peers.len() == 0 {
        Map::empty()
    } else {
        address_table(peers.drop_last()).insert(peers.last().id, peers.last().addr)
    }
}

/// Tables the addresses of peers by their ids.
pub fn peer_addresses(peers: &Vec<PeerConfig>) -> (table: HashMap<u64, String>)
    ensures
        table@.dom() == address_table(peers@).dom(),
        forall|id: u64| #[trigger]
            table@.contains_key(id) ==> table@[id]@ == address_table(peers@)[id]@,
{
    broadcast use vstd::std_specs::hash::group_hash_axioms;

    let mut table: HashMap<u64, String> = HashMap::new();
    let mut i: usize = 0;
    assert(peers@.take(0) =~= Seq::empty());
    while i < peers.len()
        invariant
            i <= peers@.len(),
            table@.dom() == address_table(peers@.take(i as int)).dom(),
            forall|id: u64| #[trigger]
                table@.contains_key(id) ==> table@[id]@ == address_table(
                    peers@.take(i as int),
                )[id]@,
        decreases peers@.len() - i,
    {
        let addr: String = peers[i].addr.clone();
        table.insert(peers[i].id, addr);
        proof {
            let next = peers@.take(i + 1);
            assert(next.drop_last() =~= peers@.take(i as int));
            assert(table@.dom() =~= address_table(next).dom());
        }
        i = i + 1;
    }
    assert(peers@.take(i as int) =~= peers@);
    table
}

proof fn lemma_batch_first(batch: Seq<RaftOutbound>)
    requires
        batch.len() > 0,
    ensures
        batch_frames(batch) == channel::raft_frame(
            batch[0].group_id,
            channel::message_wire(batch[0].message),
        ) + batch_frames(batch.skip(1)),
    decreases batch.len(),
{
    let first = channel::raft_frame(batch[0].group_id, channel::message_wire(batch[0].message));
    let init = batch.drop_last();
    if init.len() == 0 {
        assert(batch.skip(1) =~= Seq::empty());
        assert(init =~= Seq::empty());
        assert(batch_frames(init) + first =~= first + batch_frames(batch.skip(1)));
    } else {
        lemma_batch_first(init);
        assert(init[0] == batch[0]);
        assert(batch.skip(1).drop_last() =~= init.skip(1));
        let last = channel::raft_frame(
            batch.last().group_id,
            channel::message_wire(batch.last().message),
        );
        assert((first + batch_frames(init.skip(1))) + last =~= first + (batch_frames(init.skip(1))
            + last));
    }
}

/// A batch is read back frame by frame: first the frame of its first message, with
/// its group and its encoding, and behind it the frames of the others. Nothing is
/// read of an empty one.
pub proof fn law_batch_is_read_frame_by_frame(batch: Seq<RaftOutbound>, rest: Seq<u8>)
    requires
        forall|i: int|
            0 <= i < batch.len() ==> channel::message_wire((#[trigger] batch[i]).message).len()
                <= u32::MAX,
    ensures
        batch.len() == 0 ==> batch_frames(batch).len() == 0,
        batch.len() > 0 ==> {
            let wire = channel::message_wire(batch[0].message);
            &&& channel::leading_frame(batch_frames(batch) + rest) == Some(
                (batch[0].group_id, wire, 6 + wire.len()),
            )
            &&& (batch_frames(batch) + rest).skip(6 + wire.len() as int) == batch_frames(
                batch.skip(1),
            ) + rest
        },
{
    if batch.len() > 0 {
        let wire = channel::message_wire(batch[0].message);
        let first = channel::raft_frame(batch[0].group_id, wire);
        let more = batch_frames(batch.skip(1)) + rest;
        lemma_batch_first(batch);
        channel::law_frame_roundtrip(batch[0].group_id, wire, more);
        channel::law_frame_layout(batch[0].group_id, wire);
        assert(batch_frames(batch) + rest =~= first + more);
        assert((first + more).skip(6 + wire.len() as int) =~= more);
    }
}

/// Frames stand one behind the other: those of two batches as those of the whole.
pub proof fn law_frames_are_joined_in_order(a: Seq<Vec<u8>>, b: Seq<Vec<u8>>, one: Vec<u8>)
    ensures
        joined(a + b) == joined(a) + joined(b),
        joined(seq![one]) == one@,
        joined(Seq::empty()) == Seq::<u8>::empty(),
    decreases b.len(),
{
    assert(seq![one].drop_last() =~= Seq::empty());
    assert(joined(seq![one].drop_last()) + one@ =~= one@);
    if b.len() == 0 {
        assert(a + b =~= a);
        assert(joined(a) + Seq::<u8>::empty() =~= joined(a));
    } else {
        law_frames_are_joined_in_order(a, b.drop_last(), one);
        assert((a + b).drop_last() =~= a + b.drop_last());
        assert((joined(a) + joined(b.drop_last())) + b.last()@ =~= joined(a) + (joined(
            b.drop_last(),
        ) + b.last()@));
    }
}

/// A frame for a known group gives its message and leaves what follows; one for
/// another group is dropped, and what follows decides. Bytes that are the encoding of
/// no message are an error, and a frame that is not complete is waited for; the bytes
/// stay then.
pub proof fn law_messages_for_other_groups_are_dropped(
    group_id: u16,
    wire: Seq<u8>,
    rest: Seq<u8>,
    known: Set<u16>,
)
    requires
        wire.len() <= u32::MAX,
    ensures
        ({
            let buf = channel::raft_frame(group_id, wire) + rest;
            match channel::message_parsed(wire) {
                Some(message) => if known.contains(group_id) {
                    next_message(buf, known) == (
                        Ok::<Option<(u16, Message)>, RaftFrameError>(Some((group_id, message))),
                        rest,
                    )
                } else {
                    next_message(buf, known) == next_message(rest, known)
                },
                None => next_message(buf, known) == (
                    Err::<Option<(u16, Message)>, RaftFrameError>(RaftFrameError::Codec),
                    buf,
                ),
            }
        }),
        channel::leading_frame(rest) is None ==> next_message(rest, known) == (
            Ok::<Option<(u16, Message)>, RaftFrameError>(None),
            rest,
        ),
{
    channel::law_framed_message_is_decoded(group_id, wire, rest);
    channel::law_frame_layout(group_id, wire);
    let buf = channel::raft_frame(group_id, wire) + rest;
    assert(buf.skip(6 + wire.len() as int) =~= rest);
}

/// The messages of a peer do not depend on how its bytes were cut on their way: a
/// message or an error that was found is found however the bytes go on.
pub proof fn law_messages_do_not_depend_on_chunks(
    buf: Seq<u8>,
    more: Seq<u8>,
    known: Set<u16>,
)
    ensures
        match next_message(buf, known) {
            (Ok(Some(found)), rest) => next_message(buf + more, known) == (
                Ok::<Option<(u16, Message)>, RaftFrameError>(Some(found)),
                rest + more,
            ),
            (Ok(None), rest) => next_message(buf + more, known) == next_message(rest + more, known),
            (Err(e), rest) => next_message(buf + more, known) == (
                Err::<Option<(u16, Message)>, RaftFrameError>(e),
                rest + more,
            ),
        },
    decreases buf.len(),
{
    if channel::leading_frame(buf) is Some {
        channel::law_frames_are_found_incrementally(buf, more);
        let (group_id, wire, n) = channel::leading_frame(buf)->0;
        assert((buf + more).skip(n as int) =~= buf.skip(n as int) + more);
        if channel::message_parsed(wire) is Some && !known.contains(group_id) {
            law_messages_do_not_depend_on_chunks(buf.skip(n as int), more, known);
        }
    }
}

/// The table holds the address of every peer under its id, the last one if several
/// have the same id, and no others.
pub proof fn law_last_address_of_a_peer_counts(peers: Seq<PeerConfig>, i: int, id: u64)
    ensures
        0 <= i < peers.len() ==> address_table(peers).contains_key(peers[i].id),
        0 <= i < peers.len() && (forall|j: int|
            i < j < peers.len() ==> (#[trigger] peers[j]).id != peers[i].id) ==> address_table(
            peers,
        )[peers[i].id] == peers[i].addr,
        (forall|j: int| 0 <= j < peers.len() ==> (#[trigger] peers[j]).id != id)
            ==> !address_table(peers).contains_key(id),
    decreases peers.len(),
{
    if peers.len() > 0 {
        let init = peers.drop_last();
        let last = peers.len() - 1;
        law_last_address_of_a_peer_counts(init, i, id);
        assert(peers[last] == peers.last());
        if 0 <= i < last {
            assert(init[i] == peers[i]);
        }
        assert forall|j: int| 0 <= j < init.len() implies #[trigger] init[j] == peers[j] by {}
    }
}

} // verus!

//! The parts of a raft log as plain values, and their protobuf encoding.

use bytes::Bytes;
use protobuf::{Message as PbMessage, ProtobufError};
use raft::eraftpb;
use vstd::prelude::*;

use crate::buffer;
use crate::buffer::{bytes_as_slice, bytes_new};

verus! {

/// The error of the protobuf codec.
#[verifier::external_type_specification]
#[verifier::external_body]
pub struct ExProtobufError(protobuf::ProtobufError);

/// What a replica has promised: its term, its vote, and how far it committed.
#[derive(Debug, Clone, Copy, PartialEq, Eq, Structural)]
pub struct HardState {
    pub term: u64,
    pub vote: u64,
    pub commit: u64,
}

/// The members of a group.
#[derive(Debug)]
pub struct ConfState {
    pub voters: Vec<u64>,
    pub learners: Vec<u64>,
    pub voters_outgoing: Vec<u64>,
    pub learners_next: Vec<u64>,
    pub auto_leave: bool,
}

/// The members of a group as sequences.
#[verifier::ext_equal]
pub struct ConfModel {
    pub voters: Seq<u64>,
    pub learners: Seq<u64>,
    pub voters_outgoing: Seq<u64>,
    pub learners_next: Seq<u64>,
    pub auto_leave: bool,
}

impl View for ConfState {
    type V = ConfModel;

    open spec fn view(&self) -> ConfModel {
        ConfModel {
            voters: self.voters@,
            learners: self.learners@,
            voters_outgoing: self.voters_outgoing@,
            learners_next: self.learners_next@,
            auto_leave: self.auto_leave,
        }
    }
}

/// The kind of a log entry.
#[derive(Debug, Clone, Copy, PartialEq, Eq, Structural)]
pub enum EntryKind {
    Normal,
    ConfChange,
    ConfChangeV2,
}

/// An entry of the log.
#[derive(Debug)]
pub struct Entry {
    pub kind: EntryKind,
    pub term: u64,
    pub index: u64,
    pub data: Bytes,
    pub context: Bytes,
    pub sync_log: bool,
}

/// An entry of the log as plain values.
#[verifier::ext_equal]
pub struct EntryModel {
    pub kind: EntryKind,
    pub term: u64,
    pub index: u64,
    pub data: Seq<u8>,
    pub context: Seq<u8>,
    pub sync_log: bool,
}

impl View for Entry {
    type V = EntryModel;

    open spec fn view(&self) -> EntryModel {
        EntryModel {
            kind: self.kind,
            term: self.term,
            index: self.index,
            data: buffer::bytes_contents(self.data),
            context: buffer::bytes_contents(self.context),
            sync_log: self.sync_log,
        }
    }
}

/// A snapshot of the state machine, and the place in the log that it covers.
#[derive(Debug)]
pub struct Snapshot {
    pub data: Bytes,
    pub conf_state: ConfState,
    pub index: u64,
    pub term: u64,
}

/// A snapshot as plain values.
#[verifier::ext_equal]
pub struct SnapshotModel {
    pub data: Seq<u8>,
    pub conf_state: ConfModel,
    pub index: u64,
    pub term: u64,
}

impl View for Snapshot {
    type V = SnapshotModel;

    open spec fn view(&self) -> SnapshotModel {
        SnapshotModel {
            data: buffer::bytes_contents(self.data),
            conf_state: self.conf_state@,
            index: self.index,
            term: self.term,
        }
    }
}

/// A group without members.
pub open spec fn empty_conf() -> ConfModel {
    ConfModel {
        voters: Seq::empty(),
        learners: Seq::empty(),
        voters_outgoing: Seq::empty(),
        learners_next: Seq::empty(),
        auto_leave: false,
    }
}

/// An entry that carries nothing.
pub open spec fn empty_entry(term: u64, index: u64) -> EntryModel {
    EntryModel {
        kind: EntryKind::Normal,
        term,
        index,
        data: Seq::empty(),
        context: Seq::empty(),
        sync_log: false,
    }
}

/// A snapshot of nothing.
pub open spec fn empty_snapshot(conf_state: ConfModel) -> SnapshotModel {
    SnapshotModel { data: Seq::empty(), conf_state, index: 0, term: 0 }
}

/// The protobuf codec counts the bytes of a message in 32 bits. This is what
/// the parts of variable length may take of them.
pub const MAX_MESSAGE_BYTES: u64 = 0xFFFF_FF00;

/// How many members the four lists of a group name.
pub open spec fn conf_members(c: ConfModel) -> nat {
    c.voters.len() + c.learners.len() + c.voters_outgoing.len() + c.learners_next.len()
}

/// Whether the codec can count the bytes of a group.
pub open spec fn conf_fits(c: ConfModel) -> bool {
    11 * conf_members(c) <= MAX_MESSAGE_BYTES
}

/// Whether the codec can count the bytes of an entry.
pub open spec fn entry_fits(e: EntryModel) -> bool {
    e.data.len() + e.context.len() <= MAX_MESSAGE_BYTES
}

/// Whether the codec can count the bytes of a snapshot.
pub open spec fn snapshot_fits(s: SnapshotModel) -> bool {
    s.data.len() + 11 * conf_members(s.conf_state) <= MAX_MESSAGE_BYTES
}

/// The protobuf encoding of a hard state.
pub uninterp spec fn hard_state_wire(hs: HardState) -> Seq<u8>;

/// The hard state that bytes are the protobuf encoding of, if they are one.
pub uninterp spec fn hard_state_parsed(buf: Seq<u8>) -> Option<HardState>;

/// The protobuf encoding of the members of a group.
pub uninterp spec fn conf_wire(c: ConfModel) -> Seq<u8>;

/// The group that bytes are the protobuf encoding of, if they are one.
pub uninterp spec fn conf_parsed(buf: Seq<u8>) -> Option<ConfModel>;

/// The protobuf encoding of an entry.
pub uninterp spec fn entry_wire(e: EntryModel) -> Seq<u8>;

/// The entry that bytes are the protobuf encoding of, if they are one.
pub uninterp spec fn entry_parsed(buf: Seq<u8>) -> Option<EntryModel>;

/// The protobuf encoding of a snapshot.
pub uninterp spec fn snapshot_wire(s: SnapshotModel) -> Seq<u8>;

/// The snapshot that bytes are the protobuf encoding of, if they are one.
pub uninterp spec fn snapshot_parsed(buf: Seq<u8>) -> Option<SnapshotModel>;

/// `Message::write_to_bytes` on `eraftpb::HardState`: the encoding, which
/// parsing reads back. Its length is counted in 32 bits. It does not fail: no
/// field is required, and the buffer has the length that was counted.
#[verifier::external_body]
pub(crate) fn write_hard_state(hs: &HardState) -> (r: Result<Vec<u8>, ProtobufError>)
    ensures
        r is Ok,
        r matches Ok(b) ==> {
            &&& b@ == hard_state_wire(*hs)
            &&& b@.len() <= u32::MAX
            &&& hard_state_parsed(b@) == Some(*hs)
        },
{
    let mut m = eraftpb::HardState::default();
    m.term = hs.term;
    m.vote = hs.vote;
    m.commit = hs.commit;
    m.write_to_bytes()
}

/// `Message::parse_from_bytes` of `eraftpb::HardState`: a function of the bytes
/// alone. Fields that the message does not know are dropped.
#[verifier::external_body]
pub(crate) fn parse_hard_state(buf: &[u8]) -> (r: Result<HardState, ProtobufError>)
    ensures
        match r {
            Ok(hs) => hard_state_parsed(buf@) == Some(hs),
            Err(_) => hard_state_parsed(buf@) is None,
        },
{
    let m = eraftpb::HardState::parse_from_bytes(buf)?;
    Ok(HardState { term: m.term, vote: m.vote, commit: m.commit })
}

/// `Message::write_to_bytes` on `eraftpb::ConfState`: the encoding, which
/// parsing reads back. Its length is counted in 32 bits. It does not fail: no
/// field is required, and the buffer has the length that was counted.
#[verifier::external_body]
pub(crate) fn write_conf_state(c: &ConfState) -> (r: Result<Vec<u8>, ProtobufError>)
    requires
        conf_fits(c@),
    ensures
        r is Ok,
        r matches Ok(b) ==> {
            &&& b@ == conf_wire(c@)
            &&& b@.len() <= u32::MAX
            &&& conf_parsed(b@) == Some(c@)
        },
{
    let mut m = eraftpb::ConfState::default();
    m.voters = c.voters.clone();
    m.learners = c.learners.clone();
    m.voters_outgoing = c.voters_outgoing.clone();
    m.learners_next = c.learners_next.clone();
    m.auto_leave = c.auto_leave;
    m.write_to_bytes()
}

/// `Message::parse_from_bytes` of `eraftpb::ConfState`: a function of the bytes
/// alone. Fields that the message does not know are dropped.
#[verifier::external_body]
pub(crate) fn parse_conf_state(buf: &[u8]) -> (r: Result<ConfState, ProtobufError>)
    ensures
        match r {
            Ok(c) => conf_parsed(buf@) == Some(c@),
            Err(_) => conf_parsed(buf@) is None,
        },
{
    let m = eraftpb::ConfState::parse_from_bytes(buf)?;
    Ok(
        ConfState {
            voters: m.voters,
            learners: m.learners,
            voters_outgoing: m.voters_outgoing,
            learners_next: m.learners_next,
            auto_leave: m.auto_leave,
        },
    )
}

/// `Message::write_to_bytes` on `eraftpb::Entry`: the encoding, which parsing
/// reads back. Its length is counted in 32 bits. It does not fail: no field is
/// required, and the buffer has the length that was counted.
#[verifier::external_body]
pub(crate) fn write_entry(e: &Entry) -> (r: Result<Vec<u8>, ProtobufError>)
    requires
        entry_fits(e@),
    ensures
        r is Ok,
        r matches Ok(b) ==> {
            &&& b@ == entry_wire(e@)
            &&& b@.len() <= u32::MAX
            &&& entry_parsed(b@) == Some(e@)
        },
{
    let mut m = eraftpb::Entry::default();
    m.entry_type = match e.kind {
        EntryKind::Normal => eraftpb::EntryType::EntryNormal,
        EntryKind::ConfChange => eraftpb::EntryType::EntryConfChange,
        EntryKind::ConfChangeV2 => eraftpb::EntryType::EntryConfChangeV2,
    };
    (m.term, m.index) = (e.term, e.index);
    (m.data, m.context) = (e.data.clone(), e.context.clone());
    m.sync_log = e.sync_log;
    m.write_to_bytes()
}

/// `Message::compute_size` on `eraftpb::Entry`: the length of the encoding.
#[verifier::external_body]
pub(crate) fn entry_size(e: &Entry) -> (n: u32)
    requires
        entry_fits(e@),
    ensures
        n == entry_wire(e@).len(),
{
    let mut m = eraftpb::Entry::default();
    m.entry_type = match e.kind {
        EntryKind::Normal => eraftpb::EntryType::EntryNormal,
        EntryKind::ConfChange => eraftpb::EntryType::EntryConfChange,
        EntryKind::ConfChangeV2 => eraftpb::EntryType::EntryConfChangeV2,
    };
    (m.term, m.index) = (e.term, e.index);
    (m.data, m.context) = (e.data.clone(), e.context.clone());
    m.sync_log = e.sync_log;
    m.compute_size()
}

/// `Message::parse_from_bytes` of `eraftpb::Entry`: a function of the bytes
/// alone. Fields that the message does not know are dropped.
#[verifier::external_body]
pub(crate) fn parse_entry(buf: &[u8]) -> (r: Result<Entry, ProtobufError>)
    ensures
        match r {
            Ok(e) => entry_parsed(buf@) == Some(e@),
            Err(_) => entry_parsed(buf@) is None,
        },
{
    let m = eraftpb::Entry::parse_from_bytes(buf)?;
    let kind = match m.entry_type {
        eraftpb::EntryType::EntryNormal => EntryKind::Normal,
        eraftpb::EntryType::EntryConfChange => EntryKind::ConfChange,
        eraftpb::EntryType::EntryConfChangeV2 => EntryKind::ConfChangeV2,
    };
    let (term, index, sync_log) = (m.term, m.index, m.sync_log);
    Ok(Entry { kind, term, index, data: m.data, context: m.context, sync_log })
}

/// `Message::write_to_bytes` on `eraftpb::Snapshot`: the encoding, which parsing
/// reads back. Its length is counted in 32 bits. It does not fail: no field is
/// required, and the buffer has the length that was counted.
#[verifier::external_body]
pub(crate) fn write_snapshot(s: &Snapshot) -> (r: Result<Vec<u8>, ProtobufError>)
    requires
        snapshot_fits(s@),
    ensures
        r is Ok,
        r matches Ok(b) ==> {
            &&& b@ == snapshot_wire(s@)
            &&& b@.len() <= u32::MAX
            &&& snapshot_parsed(b@) == Some(s@)
        },
{
    let mut m = eraftpb::Snapshot::default();
    m.data = s.data.clone();
    let meta = m.mut_metadata();
    (meta.index, meta.term) = (s.index, s.term);
    let c = meta.mut_conf_state();
    c.voters = s.conf_state.voters.clone();
    c.learners = s.conf_state.learners.clone();
    c.voters_outgoing = s.conf_state.voters_outgoing.clone();
    c.learners_next = s.conf_state.learners_next.clone();
    c.auto_leave = s.conf_state.auto_leave;
    m.write_to_bytes()
}

/// `Message::parse_from_bytes` of `eraftpb::Snapshot`: a function of the bytes
/// alone. A part that is missing counts as empty, and fields that the message
/// does not know are dropped.
#[verifier::external_body]
pub(crate) fn parse_snapshot(buf: &[u8]) -> (r: Result<Snapshot, ProtobufError>)
    ensures
        match r {
            Ok(s) => snapshot_parsed(buf@) == Some(s@),
            Err(_) => snapshot_parsed(buf@) is None,
        },
{
    let m = eraftpb::Snapshot::parse_from_bytes(buf)?;
    let meta = m.get_metadata();
    let c = meta.get_conf_state();
    let conf_state = ConfState {
        voters: c.voters.clone(),
        learners: c.learners.clone(),
        voters_outgoing: c.voters_outgoing.clone(),
        learners_next: c.learners_next.clone(),
        auto_leave: c.auto_leave,
    };
    Ok(Snapshot { conf_state, index: meta.index, term: meta.term, data: m.data })
}

impl Default for HardState {
    fn default() -> (hs: Self)
        ensures
            hs == (HardState { term: 0, vote: 0, commit: 0 }),
    {
        HardState { term: 0, vote: 0, commit: 0 }
    }
}

fn copy_ids(ids: &Vec<u64>) -> (r: Vec<u64>)
    ensures
        r@ == ids@,
{
    let r: Vec<u64> = ids.clone();
    assert(r@ =~= ids@);
    r
}

impl ConfState {
    /// The group of the given voters.
    pub fn of_voters(voters: Vec<u64>) -> (c: Self)
        ensures
            c@ == (ConfModel { voters: voters@, ..empty_conf() }),
    {
        let c = ConfState {
            voters,
            learners: Vec::new(),
            voters_outgoing: Vec::new(),
            learners_next: Vec::new(),
            auto_leave: false,
        };
        assert(c@ =~= ConfModel { voters: voters@, ..empty_conf() });
        c
    }

    /// A copy.
    pub fn copy(&self) -> (c: Self)
        ensures
            c@ == self@,
    {
        ConfState {
            voters: copy_ids(&self.voters),
            learners: copy_ids(&self.learners),
            voters_outgoing: copy_ids(&self.voters_outgoing),
            learners_next: copy_ids(&self.learners_next),
            auto_leave: self.auto_leave,
        }
    }
}

impl ConfState {
    /// What the lists of members take at most.
    fn member_bytes(&self) -> (n: u128)
        ensures
            n == 11 * conf_members(self@),
            n <= 44 * 0xFFFF_FFFF_FFFF_FFFF,
    {
        11 * (self.voters.len() as u128 + self.learners.len() as u128
            + self.voters_outgoing.len() as u128 + self.learners_next.len() as u128)
    }

    /// Whether the codec can count the bytes of the group.
    pub fn fits(&self) -> (r: bool)
        ensures
            r == conf_fits(self@),
    {
        self.member_bytes() <= MAX_MESSAGE_BYTES as u128
    }
}

impl Entry {
    /// An entry that carries nothing.
    pub fn empty(term: u64, index: u64) -> (e: Self)
        ensures
            e@ == empty_entry(term, index),
    {
        let e = Entry {
            kind: EntryKind::Normal,
            term,
            index,
            data: bytes_new(),
            context: bytes_new(),
            sync_log: false,
        };
        assert(e@ =~= empty_entry(term, index));
        e
    }

    /// A copy.
    pub fn copy(&self) -> (e: Self)
        ensures
            e@ == self@,
    {
        Entry {
            kind: self.kind,
            term: self.term,
            index: self.index,
            data: self.data.clone(),
            context: self.context.clone(),
            sync_log: self.sync_log,
        }
    }

    /// Whether the codec can count the bytes of the entry.
    pub fn fits(&self) -> (r: bool)
        ensures
            r == entry_fits(self@),
    {
        let data: u64 = bytes_as_slice(&self.data).len() as u64;
        let context: u64 = bytes_as_slice(&self.context).len() as u64;
        data <= MAX_MESSAGE_BYTES && context <= MAX_MESSAGE_BYTES - data
    }
}

impl Snapshot {
    /// Whether the codec can count the bytes of the snapshot.
    pub fn fits(&self) -> (r: bool)
        ensures
            r == snapshot_fits(self@),
    {
        let data: u128 = bytes_as_slice(&self.data).len() as u128;
        data + self.conf_state.member_bytes() <= MAX_MESSAGE_BYTES as u128
    }

    /// A snapshot of nothing.
    pub fn empty(conf_state: ConfState) -> (s: Self)
        ensures
            s@ == empty_snapshot(conf_state@),
    {
        let s = Snapshot { data: bytes_new(), conf_state, index: 0, term: 0 };
        assert(s@ =~= empty_snapshot(conf_state@));
        s
    }

    /// A copy.
    pub fn copy(&self) -> (s: Self)
        ensures
            s@ == self@,
    {
        Snapshot {
            data: self.data.clone(),
            conf_state: self.conf_state.copy(),
            index: self.index,
            term: self.term,
        }
    }
}

/// An entry that carries nothing has its term and its index, no bytes, and is an
/// ordinary one; a group without members has none of any kind; and a snapshot of
/// nothing covers nothing and names its group.
pub proof fn law_empty_parts(term: u64, index: u64, conf_state: ConfModel)
    ensures
        empty_entry(term, index).term == term,
        empty_entry(term, index).index == index,
        empty_entry(term, index).kind == EntryKind::Normal,
        empty_entry(term, index).data.len() == 0,
        empty_entry(term, index).context.len() == 0,
        !empty_entry(term, index).sync_log,
        conf_members(empty_conf()) == 0,
        !empty_conf().auto_leave,
        empty_snapshot(conf_state).data.len() == 0,
        empty_snapshot(conf_state).index == 0,
        empty_snapshot(conf_state).term == 0,
        empty_snapshot(conf_state).conf_state == conf_state,
{
}

/// Every entry, group and snapshot of ordinary size can be stored: one whose bytes,
/// with eleven for each member, stay 256 below what 32 bits count.
pub proof fn law_parts_of_ordinary_size_fit(e: EntryModel, c: ConfModel, s: SnapshotModel)
    ensures
        e.data.len() + e.context.len() <= 0xFFFF_FF00 <==> entry_fits(e),
        11 * (c.voters.len() + c.learners.len() + c.voters_outgoing.len() + c.learners_next.len())
            <= 0xFFFF_FF00 <==> conf_fits(c),
        s.data.len() + 11 * (s.conf_state.voters.len() + s.conf_state.learners.len()
            + s.conf_state.voters_outgoing.len() + s.conf_state.learners_next.len())
            <= 0xFFFF_FF00 <==> snapshot_fits(s),
{
}

/// The parts of a log as plain values hold what their fields hold.
pub proof fn law_parts_hold_their_fields(e: Entry, c: ConfState, s: Snapshot)
    ensures
        e@.kind == e.kind,
        e@.term == e.term,
        e@.index == e.index,
        e@.data == buffer::bytes_contents(e.data),
        e@.context == buffer::bytes_contents(e.context),
        e@.sync_log == e.sync_log,
        c@.voters == c.voters@,
        c@.learners == c.learners@,
        c@.voters_outgoing == c.voters_outgoing@,
        c@.learners_next == c.learners_next@,
        c@.auto_leave == c.auto_leave,
        s@.data == buffer::bytes_contents(s.data),
        s@.conf_state == s.conf_state@,
        s@.index == s.index,
        s@.term == s.term,
{
}

} // verus!

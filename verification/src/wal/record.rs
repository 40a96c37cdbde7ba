//! Log records.
//!
//! On-disk layout, all integers big-endian:
//! `[crc32:u32][total_len:u32][stream_id:u64][term:u64][entry_id:u64][stream_lsn:u64]`
//! `[timestamp_ns:u64][key_len:u16][key:bytes][value:bytes]`
//!
//! `total_len` is the size of everything after the `total_len` field. The CRC32
//! covers the bytes from `total_len` onward.

use std::time::SystemTime;

use bytes::Bytes;
use vstd::prelude::*;
use vstd::slice::slice_subrange;
use vstd::string::*;

use crate::be;
use crate::be::{get_u16, get_u32, get_u64, put_be, put_slice};
use crate::buffer;
use crate::buffer::{bytes_as_slice, bytes_copy_from_slice};
use crate::clock;
use crate::clock::{duration_nanos, since_unix_epoch, system_now};
use crate::text;
use crate::text::push_numeral;

verus! {

/// Fixed overhead:
/// crc32(4) + total_len(4) + stream_id(8) + term(8) + entry_id(8) + stream_lsn(8)
/// + timestamp_ns(8) + key_len(2) = 50 bytes
pub const RECORD_HEADER_SIZE: usize = 50;

/// The CRC-32 checksum of a byte string, as the `crc32fast` crate computes it.
pub uninterp spec fn crc32(data: Seq<u8>) -> u32;

/// `crc32fast::hash`: the checksum, a function of the bytes alone.
#[verifier::external_body]
fn crc32_hash(data: &[u8]) -> (sum: u32)
    ensures
        sum == crc32(data@),
{
    crc32fast::hash(data)
}

/// One record of the log.
#[derive(Debug, Clone)]
pub struct WalRecord {
    pub stream_id: u64,
    pub term: u64,
    pub entry_id: u64,
    pub stream_lsn: u64,
    pub timestamp_ns: u64,
    pub key: Bytes,
    pub value: Bytes,
}

/// A record as plain values.
#[verifier::ext_equal]
pub struct RecordModel {
    pub stream_id: u64,
    pub term: u64,
    pub entry_id: u64,
    pub stream_lsn: u64,
    pub timestamp_ns: u64,
    pub key: Seq<u8>,
    pub value: Seq<u8>,
}

impl View for WalRecord {
    type V = RecordModel;

    open spec fn view(&self) -> RecordModel {
        RecordModel {
            stream_id: self.stream_id,
            term: self.term,
            entry_id: self.entry_id,
            stream_lsn: self.stream_lsn,
            timestamp_ns: self.timestamp_ns,
            key: buffer::bytes_contents(self.key),
            value: buffer::bytes_contents(self.value),
        }
    }
}

/// Why bytes are not a record.
#[derive(Debug, Clone, Copy, PartialEq, Eq, Structural)]
pub enum WalRecordError {
    BufferTooSmall,
    CrcMismatch { expected: u32, actual: u32 },
    InvalidKeyLen,
}

/// The text that describes a record error.
pub open spec fn record_error_text(e: WalRecordError) -> Seq<char> {
    match e {
        WalRecordError::BufferTooSmall => "buffer too small for WAL record"@,
        WalRecordError::CrcMismatch { expected, actual } => "CRC mismatch: expected 0x"@
            + text::numeral(expected as nat, 16, 8) + ", got 0x"@ + text::numeral(
            actual as nat,
            16,
            8,
        ),
        WalRecordError::InvalidKeyLen => "key length exceeds record"@,
    }
}

impl WalRecordError {
    /// Describes the error.
    pub fn describe(&self) -> (s: String)
        ensures
            s@ == record_error_text(*self),
    {
        match self {
            WalRecordError::BufferTooSmall => String::from_str("buffer too small for WAL record"),
            WalRecordError::CrcMismatch { expected, actual } => {
                let mut s: String = String::from_str("CRC mismatch: expected 0x");
                push_numeral(&mut s, *expected as u64, 16, 8);
                s.append(", got 0x");
                push_numeral(&mut s, *actual as u64, 16, 8);
                s
            },
            WalRecordError::InvalidKeyLen => String::from_str("key length exceeds record"),
        }
    }
}

/// The size of a record on disk.
pub open spec fn record_size(r: RecordModel) -> nat {
    50 + r.key.len() + r.value.len()
}

/// The part of a record that its checksum covers. Lengths that do not fit
/// their fields are cut to the low bits.
pub open spec fn record_body(r: RecordModel) -> Seq<u8> {
    be::be_bytes((record_size(r) - 8) as nat, 4) + be::be_bytes(r.stream_id as nat, 8)
        + be::be_bytes(r.term as nat, 8) + be::be_bytes(r.entry_id as nat, 8) + be::be_bytes(
        r.stream_lsn as nat,
        8,
    ) + be::be_bytes(r.timestamp_ns as nat, 8) + be::be_bytes(r.key.len(), 2) + r.key + r.value
}

/// A record on disk.
pub open spec fn record_bytes(r: RecordModel) -> Seq<u8> {
    be::be_bytes(crc32(record_body(r)) as nat, 4) + record_body(r)
}

/// Whether the lengths of a record fit the fields that hold them.
pub open spec fn record_fits(r: RecordModel) -> bool {
    &&& r.key.len() <= u16::MAX
    &&& record_size(r) - 8 <= u32::MAX
}

/// The size that the record at the start of `buf` announces.
pub open spec fn record_frame_len(buf: Seq<u8>) -> nat {
    8 + be::field32(buf, 4) as nat
}

/// The record that the frame at the start of `buf` holds.
pub open spec fn record_fields(buf: Seq<u8>) -> RecordModel {
    let key_end = 50 + be::field16(buf, 48);
    RecordModel {
        stream_id: be::field64(buf, 8),
        term: be::field64(buf, 16),
        entry_id: be::field64(buf, 24),
        stream_lsn: be::field64(buf, 32),
        timestamp_ns: be::field64(buf, 40),
        key: buf.subrange(50, key_end),
        value: buf.subrange(key_end, record_frame_len(buf) as int),
    }
}

/// The bytes of the record at the start of `buf` that its checksum covers, if all
/// of them are there.
pub open spec fn covered_by_checksum(buf: Seq<u8>) -> Option<Seq<u8>> {
    if buf.len() < 50 || buf.len() < record_frame_len(buf) {
        None
    } else {
        Some(buf.subrange(4, record_frame_len(buf) as int))
    }
}

/// What decoding a record from the start of `buf` gives when the checksum of the
/// bytes that it covers is `actual`: the record and its size on disk, or an error.
pub open spec fn checked_record(buf: Seq<u8>, actual: u32) -> Result<
    (RecordModel, nat),
    WalRecordError,
> {
    let total = record_frame_len(buf);
    if buf.len() < 50 || buf.len() < total {
        Err(WalRecordError::BufferTooSmall)
    } else if be::field32(buf, 0) != actual {
        Err(WalRecordError::CrcMismatch { expected: be::field32(buf, 0), actual })
    } else if 50 + be::field16(buf, 48) > total {
        Err(WalRecordError::InvalidKeyLen)
    } else {
        Ok((record_fields(buf), total))
    }
}

/// What decoding a record from the start of `buf` gives.
pub open spec fn decoded_record(buf: Seq<u8>) -> Result<(RecordModel, nat), WalRecordError> {
    checked_record(buf, crc32(buf.subrange(4, record_frame_len(buf) as int)))
}

/// Finds the bytes of the record at the start of `buf` that its checksum covers.
pub fn checksum_bytes(buf: &[u8]) -> (r: Option<&[u8]>)
    ensures
        match r {
            Some(b) => covered_by_checksum(buf@) == Some(b@),
            None => covered_by_checksum(buf@) is None,
        },
{
    if buf.len() < RECORD_HEADER_SIZE {
        return None;
    }
    let body_len: u32 = get_u32(buf, 4);
    if ((buf.len() - 8) as u64) < body_len as u64 {
        return None;
    }
    Some(slice_subrange(buf, 4, 8 + body_len as usize))
}

/// Puts the checksum before the bytes that it covers.
pub fn seal_record(body: &Vec<u8>, sum: u32) -> (data: Vec<u8>)
    ensures
        data@ == be::be_bytes(sum as nat, 4) + body@,
{
    let mut data: Vec<u8> = Vec::new();
    put_be(&mut data, sum as u64, 4);
    put_slice(&mut data, body.as_slice());
    assert(data@ =~= be::be_bytes(sum as nat, 4) + body@);
    data
}

impl WalRecord {
    /// Total serialized size on disk.
    pub fn encoded_size(&self) -> (n: usize)
        requires
            record_size(self@) <= usize::MAX,
        ensures
            n == record_size(self@),
    {
        RECORD_HEADER_SIZE + bytes_as_slice(&self.key).len() + bytes_as_slice(&self.value).len()
    }

    /// Serializes this record into the start of `buf` and returns the bytes
    /// written. `buf` must be at least `encoded_size()` bytes long.
    pub fn encode(&self, buf: &mut [u8]) -> (n: usize)
        requires
            record_size(self@) <= old(buf)@.len(),
        ensures
            n == record_size(self@),
            final(buf)@ == record_bytes(self@) + old(buf)@.skip(n as int),
    {
        proof {
            lemma_record_len(self@);
        }
        let cap: usize = buf.len();
        let data: Vec<u8> = self.encode_to_vec();
        let n: usize = data.len();
        let mut i: usize = 0;
        let ghost before = old(buf)@;
        while i < n
            invariant
                i <= n,
                n == data.len(),
                cap == before.len(),
                n <= cap,
                buf@.len() == cap,
                forall|j: int| 0 <= j < i ==> buf@[j] == data@[j],
                forall|j: int| i <= j < cap ==> buf@[j] == before[j],
            decreases n - i,
        {
            buf[i] = data[i];
            i = i + 1;
        }
        assert(buf@ =~= record_bytes(self@) + before.skip(n as int));
        n
    }

    /// The part of the serialized record that its checksum covers.
    pub fn encode_body(&self) -> (body: Vec<u8>)
        requires
            record_size(self@) <= usize::MAX,
        ensures
            body@ == record_body(self@),
    {
        let key: &[u8] = bytes_as_slice(&self.key);
        let value: &[u8] = bytes_as_slice(&self.value);
        let mut body: Vec<u8> = Vec::new();
        put_be(&mut body, (self.encoded_size() - 8) as u64, 4);
        put_be(&mut body, self.stream_id, 8);
        put_be(&mut body, self.term, 8);
        put_be(&mut body, self.entry_id, 8);
        put_be(&mut body, self.stream_lsn, 8);
        put_be(&mut body, self.timestamp_ns, 8);
        put_be(&mut body, key.len() as u64, 2);
        put_slice(&mut body, key);
        put_slice(&mut body, value);
        assert(body@ =~= record_body(self@));
        body
    }

    /// Serializes this record into a new vector.
    pub fn encode_to_vec(&self) -> (data: Vec<u8>)
        requires
            record_size(self@) <= usize::MAX,
        ensures
            data@ == record_bytes(self@),
    {
        let body: Vec<u8> = self.encode_body();
        let sum: u32 = crc32_hash(body.as_slice());
        seal_record(&body, sum)
    }

    /// Decodes a record from the start of the buffer, given the checksum of the
    /// bytes that it covers. Returns the record and the bytes consumed.
    pub fn decode_checked(buf: &[u8], actual: u32) -> (r: Result<(Self, usize), WalRecordError>)
        ensures
            match r {
                Ok((rec, n)) => checked_record(buf@, actual) == Ok::<
                    (RecordModel, nat),
                    WalRecordError,
                >((rec@, n as nat)) && 50 <= n <= buf@.len(),
                Err(e) => checked_record(buf@, actual) == Err::<(RecordModel, nat), WalRecordError>(
                    e,
                ),
            },
    {
        if buf.len() < RECORD_HEADER_SIZE {
            return Err(WalRecordError::BufferTooSmall);
        }
        let stored: u32 = get_u32(buf, 0);
        let body_len: u32 = get_u32(buf, 4);
        if ((buf.len() - 8) as u64) < body_len as u64 {
            return Err(WalRecordError::BufferTooSmall);
        }
        let total: usize = 8 + body_len as usize;
        if stored != actual {
            return Err(WalRecordError::CrcMismatch { expected: stored, actual });
        }
        let stream_id: u64 = get_u64(buf, 8);
        let term: u64 = get_u64(buf, 16);
        let entry_id: u64 = get_u64(buf, 24);
        let stream_lsn: u64 = get_u64(buf, 32);
        let timestamp_ns: u64 = get_u64(buf, 40);
        let key_end: usize = 50 + get_u16(buf, 48) as usize;
        if key_end > total {
            return Err(WalRecordError::InvalidKeyLen);
        }
        let key: Bytes = bytes_copy_from_slice(slice_subrange(buf, 50, key_end));
        let value: Bytes = bytes_copy_from_slice(slice_subrange(buf, key_end, total));
        Ok(
            (
                WalRecord { stream_id, term, entry_id, stream_lsn, timestamp_ns, key, value },
                total,
            ),
        )
    }

    /// Decodes a record from the start of the buffer. Returns the record and
    /// the bytes consumed.
    pub fn decode(buf: &[u8]) -> (r: Result<(Self, usize), WalRecordError>)
        ensures
            match r {
                Ok((rec, n)) => decoded_record(buf@) == Ok::<(RecordModel, nat), WalRecordError>(
                    (rec@, n as nat),
                ),
                Err(e) => decoded_record(buf@) == Err::<(RecordModel, nat), WalRecordError>(e),
            },
            r matches Ok((rec, n)) ==> 50 <= n <= buf@.len(),
    {
        match checksum_bytes(buf) {
            Some(covered) => Self::decode_checked(buf, crc32_hash(covered)),
            None => Err(WalRecordError::BufferTooSmall),
        }
    }
}

pub proof fn lemma_record_len(r: RecordModel)
    ensures
        record_bytes(r).len() == record_size(r),
        record_body(r).len() == record_size(r) - 4,
{
    broadcast use crate::be::lemma_be_bytes_len;

}

/// Decoding an encoded record gives it back and consumes exactly its size,
/// whatever bytes follow.
pub proof fn law_record_roundtrip(r: RecordModel, rest: Seq<u8>)
    requires
        record_fits(r),
    ensures
        decoded_record(record_bytes(r) + rest) == Ok::<(RecordModel, nat), WalRecordError>(
            (r, record_size(r)),
        ),
{
    broadcast use crate::be::lemma_be_bytes_len;

    lemma_record_len(r);
    let t = record_bytes(r) + rest;
    let n = record_size(r) as int;
    let k = 50 + r.key.len() as int;
    assert(t.subrange(0, 4) =~= be::be_bytes(crc32(record_body(r)) as nat, 4));
    assert(t.subrange(4, n) =~= record_body(r));
    assert(t.subrange(4, 8) =~= be::be_bytes((record_size(r) - 8) as nat, 4));
    assert(t.subrange(8, 16) =~= be::be_bytes(r.stream_id as nat, 8));
    assert(t.subrange(16, 24) =~= be::be_bytes(r.term as nat, 8));
    assert(t.subrange(24, 32) =~= be::be_bytes(r.entry_id as nat, 8));
    assert(t.subrange(32, 40) =~= be::be_bytes(r.stream_lsn as nat, 8));
    assert(t.subrange(40, 48) =~= be::be_bytes(r.timestamp_ns as nat, 8));
    assert(t.subrange(48, 50) =~= be::be_bytes(r.key.len(), 2));
    assert(t.subrange(50, k) =~= r.key);
    assert(t.subrange(k, n) =~= r.value);
    be::lemma_field32(t, 0, crc32(record_body(r)));
    be::lemma_field32(t, 4, (record_size(r) - 8) as u32);
    be::lemma_field64(t, 8, r.stream_id);
    be::lemma_field64(t, 16, r.term);
    be::lemma_field64(t, 24, r.entry_id);
    be::lemma_field64(t, 32, r.stream_lsn);
    be::lemma_field64(t, 40, r.timestamp_ns);
    be::lemma_field16(t, 48, r.key.len() as u16);
    assert(record_fields(t) == r);
}

/// A decoded record depends on its own bytes alone: more bytes behind it
/// change nothing.
pub proof fn law_record_decoding_is_local(buf: Seq<u8>, more: Seq<u8>)
    requires
        decoded_record(buf) is Ok,
    ensures
        decoded_record(buf + more) == decoded_record(buf),
{
    let t = buf + more;
    let n = record_frame_len(buf) as int;
    assert(t.subrange(0, buf.len() as int) =~= buf);
    be::lemma_field_prefix(buf, t, 0, 4);
    be::lemma_field_prefix(buf, t, 4, 4);
    be::lemma_field_prefix(buf, t, 4, n - 4);
    be::lemma_field_prefix(buf, t, 8, 8);
    be::lemma_field_prefix(buf, t, 16, 8);
    be::lemma_field_prefix(buf, t, 24, 8);
    be::lemma_field_prefix(buf, t, 32, 8);
    be::lemma_field_prefix(buf, t, 40, 8);
    be::lemma_field_prefix(buf, t, 48, 2);
    let k = 50 + be::field16(buf, 48);
    be::lemma_field_prefix(buf, t, 50, k - 50);
    be::lemma_field_prefix(buf, t, k, n - k);
}

/// A decoded record depends on no more bytes than it consumed.
pub proof fn law_record_decoding_needs_its_own_bytes_only(buf: Seq<u8>)
    requires
        decoded_record(buf) is Ok,
    ensures
        50 <= decoded_record(buf)->Ok_0.1 <= buf.len(),
        decoded_record(buf.take(decoded_record(buf)->Ok_0.1 as int)) == decoded_record(buf),
{
    let n = record_frame_len(buf) as int;
    let t = buf.take(n);
    assert(buf.subrange(0, t.len() as int) =~= t);
    be::lemma_field_prefix(t, buf, 0, 4);
    be::lemma_field_prefix(t, buf, 4, 4);
    be::lemma_field_prefix(t, buf, 4, n - 4);
    be::lemma_field_prefix(t, buf, 8, 8);
    be::lemma_field_prefix(t, buf, 16, 8);
    be::lemma_field_prefix(t, buf, 24, 8);
    be::lemma_field_prefix(t, buf, 32, 8);
    be::lemma_field_prefix(t, buf, 40, 8);
    be::lemma_field_prefix(t, buf, 48, 2);
    let k = 50 + be::field16(buf, 48);
    be::lemma_field_prefix(t, buf, 50, k - 50);
    be::lemma_field_prefix(t, buf, k, n - k);
}

/// A record that was cut short is never decoded.
pub proof fn law_torn_record_is_rejected(r: RecordModel, n: int)
    requires
        record_fits(r),
        0 <= n < record_size(r),
    ensures
        decoded_record(record_bytes(r).take(n)) == Err::<(RecordModel, nat), WalRecordError>(
            WalRecordError::BufferTooSmall,
        ),
{
    broadcast use crate::be::lemma_be_bytes_len;

    lemma_record_len(r);
    let t = record_bytes(r).take(n);
    if n >= 50 {
        assert(t.subrange(4, 8) =~= be::be_bytes((record_size(r) - 8) as nat, 4));
        be::lemma_field32(t, 4, (record_size(r) - 8) as u32);
    }
}

/// Bytes that were altered behind the length field are rejected wherever the
/// alteration changes the checksum, and the error names both checksums.
pub proof fn law_corruption_is_detected(r: RecordModel, t: Seq<u8>)
    requires
        record_fits(r),
        t.len() == record_size(r),
        t.subrange(0, 8) == record_bytes(r).subrange(0, 8),
        crc32(t.skip(4)) != crc32(record_body(r)),
    ensures
        decoded_record(t) == Err::<(RecordModel, nat), WalRecordError>(
            WalRecordError::CrcMismatch { expected: crc32(record_body(r)), actual: crc32(t.skip(4)) },
        ),
{
    broadcast use crate::be::lemma_be_bytes_len;

    lemma_record_len(r);
    let f = record_bytes(r);
    assert(t.subrange(0, 8).subrange(0, 4) =~= t.subrange(0, 4));
    assert(t.subrange(0, 8).subrange(4, 8) =~= t.subrange(4, 8));
    assert(f.subrange(0, 8).subrange(0, 4) =~= be::be_bytes(crc32(record_body(r)) as nat, 4));
    assert(f.subrange(0, 8).subrange(4, 8) =~= be::be_bytes((record_size(r) - 8) as nat, 4));
    be::lemma_field32(t, 0, crc32(record_body(r)));
    be::lemma_field32(t, 4, (record_size(r) - 8) as u32);
    assert(t.subrange(4, t.len() as int) =~= t.skip(4));
}

/// A time since the Unix epoch in nanoseconds as records store it: the low 64
/// bits, and zero for a clock that stands before the epoch.
pub open spec fn stored_time(since_epoch: Option<u128>) -> int {
    match since_epoch {
        Some(ns) => ns as int % 0x1_0000_0000_0000_0000,
        None => 0,
    }
}

/// Computes the time that a record stores.
pub fn timestamp_ns(since_epoch: Option<u128>) -> (t: u64)
    ensures
        t == stored_time(since_epoch),
{
    match since_epoch {
        Some(ns) => (ns % 0x1_0000_0000_0000_0000) as u64,
        None => 0,
    }
}

/// The wall clock in nanoseconds since the Unix epoch, as records store it. The
/// point `now` that the clock showed is not determined.
pub fn current_time_ns() -> (t: u64)
    ensures
        exists|now: SystemTime| t == stored_time(#[trigger] clock::unix_nanos(now)),
{
    let now: SystemTime = system_now();
    let t: u64 = match since_unix_epoch(now) {
        Ok(d) => timestamp_ns(Some(duration_nanos(d))),
        Err(_) => timestamp_ns(None),
    };
    assert(t == stored_time(clock::unix_nanos(now)));
    t
}

/// The layout of a record: numbers with the most significant byte first, the
/// checksum of all that follows in four bytes, the length of all that follows that
/// in four, then the stream, the term, the entry id, the LSN and the time in eight
/// each, the length of the key in two, the key, and the value.
pub proof fn law_record_layout(r: RecordModel)
    requires
        record_fits(r),
    ensures
        ({
            let t = record_bytes(r);
            let k = 50 + r.key.len() as int;
            &&& t.len() == 50 + r.key.len() + r.value.len()
            &&& be::be_value(t.subrange(0, 4)) == crc32(t.skip(4))
            &&& be::be_value(t.subrange(4, 8)) == t.len() - 8
            &&& be::be_value(t.subrange(8, 16)) == r.stream_id
            &&& be::be_value(t.subrange(16, 24)) == r.term
            &&& be::be_value(t.subrange(24, 32)) == r.entry_id
            &&& be::be_value(t.subrange(32, 40)) == r.stream_lsn
            &&& be::be_value(t.subrange(40, 48)) == r.timestamp_ns
            &&& be::be_value(t.subrange(48, 50)) == r.key.len()
            &&& t.subrange(50, k) == r.key
            &&& t.skip(k) == r.value
        }),
{
    broadcast use crate::be::lemma_be_bytes_len;

    lemma_record_len(r);
    be::lemma_be_capacities();
    let t = record_bytes(r);
    let k = 50 + r.key.len() as int;
    assert(t.skip(4) =~= record_body(r));
    assert(t.subrange(0, 4) =~= be::be_bytes(crc32(record_body(r)) as nat, 4));
    assert(t.subrange(4, 8) =~= be::be_bytes((record_size(r) - 8) as nat, 4));
    assert(t.subrange(8, 16) =~= be::be_bytes(r.stream_id as nat, 8));
    assert(t.subrange(16, 24) =~= be::be_bytes(r.term as nat, 8));
    assert(t.subrange(24, 32) =~= be::be_bytes(r.entry_id as nat, 8));
    assert(t.subrange(32, 40) =~= be::be_bytes(r.stream_lsn as nat, 8));
    assert(t.subrange(40, 48) =~= be::be_bytes(r.timestamp_ns as nat, 8));
    assert(t.subrange(48, 50) =~= be::be_bytes(r.key.len(), 2));
    assert(t.subrange(50, k) =~= r.key);
    assert(t.skip(k) =~= r.value);
    be::lemma_be_value_of_bytes(crc32(record_body(r)) as nat, 4);
    be::lemma_be_value_of_bytes((record_size(r) - 8) as nat, 4);
    be::lemma_be_value_of_bytes(r.stream_id as nat, 8);
    be::lemma_be_value_of_bytes(r.term as nat, 8);
    be::lemma_be_value_of_bytes(r.entry_id as nat, 8);
    be::lemma_be_value_of_bytes(r.stream_lsn as nat, 8);
    be::lemma_be_value_of_bytes(r.timestamp_ns as nat, 8);
    be::lemma_be_value_of_bytes(r.key.len(), 2);
}

/// Bytes are a record only if they are all there, their checksum is the one that
/// they start with, and the key ends within them. What is wrong first is told.
pub proof fn law_bytes_that_are_no_record(buf: Seq<u8>)
    ensures
        buf.len() < 50 ==> decoded_record(buf) == Err::<(RecordModel, nat), WalRecordError>(
            WalRecordError::BufferTooSmall,
        ),
        buf.len() >= 50 ==> {
            let sum = be::be_value(buf.subrange(0, 4));
            let total = 8 + be::be_value(buf.subrange(4, 8));
            let key_len = be::be_value(buf.subrange(48, 50));
            let actual = crc32(buf.subrange(4, total as int));
            &&& buf.len() < total ==> decoded_record(buf) == Err::<
                (RecordModel, nat),
                WalRecordError,
            >(WalRecordError::BufferTooSmall)
            &&& buf.len() >= total && sum != actual ==> decoded_record(buf) == Err::<
                (RecordModel, nat),
                WalRecordError,
            >(WalRecordError::CrcMismatch { expected: sum as u32, actual })
            &&& buf.len() >= total && sum == actual && 50 + key_len > total ==> decoded_record(buf)
                == Err::<(RecordModel, nat), WalRecordError>(WalRecordError::InvalidKeyLen)
            &&& buf.len() >= total && sum == actual && 50 + key_len <= total ==> {
                &&& decoded_record(buf) matches Ok((r, n)) && n == total && r.key == buf.subrange(
                    50,
                    50 + key_len as int,
                ) && r.value == buf.subrange(50 + key_len as int, total as int)
            }
        },
{
    if buf.len() >= 50 {
        be::lemma_be_capacities();
        be::lemma_be_value_bound(buf.subrange(0, 4));
        be::lemma_be_value_bound(buf.subrange(4, 8));
        be::lemma_be_value_bound(buf.subrange(48, 50));
    }
}

/// The time that is stored is the number of nanoseconds since the epoch, up to the
/// largest that 64 bits hold; a time that lies as many nanoseconds later as 64 bits
/// count is stored as the same, and one before the epoch as zero.
pub proof fn law_time_is_stored_in_nanoseconds(ns: u128)
    ensures
        stored_time(None) == 0,
        ns <= u64::MAX ==> stored_time(Some(ns)) == ns,
        0 <= stored_time(Some(ns)) <= u64::MAX,
        ns > u64::MAX ==> stored_time(Some(ns)) == stored_time(
            Some((ns - 0x1_0000_0000_0000_0000) as u128),
        ),
{
    if ns > u64::MAX {
        vstd::arithmetic::div_mod::lemma_mod_sub_multiples_vanish(
            ns as int,
            0x1_0000_0000_0000_0000,
        );
    }
}

/// A record as plain values holds what its fields hold.
pub proof fn law_record_holds_its_fields(r: WalRecord)
    ensures
        r@.stream_id == r.stream_id,
        r@.term == r.term,
        r@.entry_id == r.entry_id,
        r@.stream_lsn == r.stream_lsn,
        r@.timestamp_ns == r.timestamp_ns,
        r@.key == buffer::bytes_contents(r.key),
        r@.value == buffer::bytes_contents(r.value),
{
}

/// The checksum covers what follows it in a record, to the end that the length says. It
/// is not computed if the buffer ends before, or before the header does.
pub proof fn law_checksum_covers_what_follows_it(buf: Seq<u8>)
    ensures
        buf.len() < 50 ==> covered_by_checksum(buf) is None,
        buf.len() >= 50 ==> {
            let end = 8 + be::be_value(buf.subrange(4, 8));
            &&& buf.len() < end ==> covered_by_checksum(buf) is None
            &&& buf.len() >= end ==> covered_by_checksum(buf) == Some(buf.subrange(4, end as int))
        },
{
    if buf.len() >= 50 {
        be::lemma_be_capacities();
        be::lemma_be_value_bound(buf.subrange(4, 8));
    }
}

/// An error of decoding is described in words, and a broken checksum with both values in
/// hexadecimal.
pub proof fn law_record_error_is_described(expected: u32, actual: u32)
    ensures
        record_error_text(WalRecordError::BufferTooSmall) == "buffer too small for WAL record"@,
        record_error_text(WalRecordError::InvalidKeyLen) == "key length exceeds record"@,
        record_error_text(WalRecordError::CrcMismatch { expected, actual })
            == "CRC mismatch: expected 0x"@ + text::numeral(expected as nat, 16, 8) + ", got 0x"@
            + text::numeral(actual as nat, 16, 8),
{
}

} // verus!

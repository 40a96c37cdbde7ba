//! Reading records back by stream and LSN.

use vstd::prelude::*;
use vstd::string::*;

use crate::text;
use crate::text::push_numeral;
use crate::wal::index::{RecordLocation, StreamLogIndex};
use crate::wal::record;
use crate::wal::record::{RecordModel, WalRecord, WalRecordError};

verus! {

/// Why a record cannot be read.
#[derive(Debug, Clone, Copy, PartialEq, Eq, Structural)]
pub enum WalReaderError {
    NotFound(u64),
    Corrupt(WalRecordError),
}

/// The text that describes a reader error.
pub open spec fn reader_error_text(e: WalReaderError) -> Seq<char> {
    match e {
        WalReaderError::NotFound(lsn) => "LSN "@ + text::decimal(lsn as nat) + " not found"@,
        WalReaderError::Corrupt(e) => "corrupt record: "@ + record::record_error_text(e),
    }
}

impl WalReaderError {
    /// Describes the error.
    pub fn describe(&self) -> (s: String)
        ensures
            s@ == reader_error_text(*self),
    {
        match self {
            WalReaderError::NotFound(lsn) => {
                let mut s: String = String::from_str("LSN ");
                push_numeral(&mut s, *lsn, 10, 1);
                s.append(" not found");
                s
            },
            WalReaderError::Corrupt(e) => {
                let mut s: String = String::from_str("corrupt record: ");
                s.append(e.describe().as_str());
                s
            },
        }
    }
}

/// Finds where the record of a stream at an LSN lies.
pub fn locate_record(stream_id: u64, stream_lsn: u64, index: &StreamLogIndex) -> (r: Result<
    RecordLocation,
    WalReaderError,
>)
    ensures
        r == (if index@.contains_key((stream_id, stream_lsn)) {
            Ok::<RecordLocation, WalReaderError>(index@[(stream_id, stream_lsn)])
        } else {
            Err::<RecordLocation, WalReaderError>(WalReaderError::NotFound(stream_lsn))
        }),
{
    match index.lookup(stream_id, stream_lsn) {
        Some(loc) => Ok(*loc),
        None => Err(WalReaderError::NotFound(stream_lsn)),
    }
}

/// What the bytes at the location of a record give.
pub open spec fn read_record_from(buf: Seq<u8>) -> Result<RecordModel, WalReaderError> {
    match record::decoded_record(buf) {
        Ok((r, _)) => Ok(r),
        Err(e) => Err(WalReaderError::Corrupt(e)),
    }
}

/// Decodes the bytes that were read at the location of a record.
pub fn read_record(buf: &[u8]) -> (r: Result<WalRecord, WalReaderError>)
    ensures
        match r {
            Ok(rec) => read_record_from(buf@) == Ok::<RecordModel, WalReaderError>(rec@),
            Err(e) => read_record_from(buf@) == Err::<RecordModel, WalReaderError>(e),
        },
{
    match WalRecord::decode(buf) {
        Ok((rec, _)) => Ok(rec),
        Err(e) => Err(WalReaderError::Corrupt(e)),
    }
}

/// A read that found nothing is described with the LSN, and one of a broken record with
/// what is broken.
pub proof fn law_reader_error_is_described(lsn: u64, e: WalRecordError)
    ensures
        reader_error_text(WalReaderError::NotFound(lsn)) == "LSN "@ + text::decimal(lsn as nat)
            + " not found"@,
        reader_error_text(WalReaderError::Corrupt(e)) == "corrupt record: "@
            + record::record_error_text(e),
{
}

} // verus!

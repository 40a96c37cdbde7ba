//! Segment files: their names, their headers, and which of a directory's files
//! belong to a shard.

use vstd::prelude::*;
use vstd::slice::slice_subrange;
use vstd::string::*;

use crate::be;
use crate::be::{get_u16, get_u32, get_u64, put_be};
use crate::order;
use crate::order::insert_ordered;
use crate::text;
use crate::text::{chars_of, find, parse_unsigned, push_numeral};

verus! {

/// Segment header magic: "WSEG".
pub const SEGMENT_MAGIC: u32 = 0x57534547;

/// Segment header size: 64 bytes.
/// [magic:u32][version:u8][shard_id:u16][_pad:u8][segment_id:u64][created_ts_ns:u64][reserved:40]
pub const SEGMENT_HEADER_SIZE: u64 = 64;

/// Why a file is not a segment.
#[derive(Debug, Clone, Copy, PartialEq, Eq, Structural)]
pub enum SegmentError {
    BadMagic(u32),
    BadVersion(u8),
}

/// The text that describes a segment error.
pub open spec fn segment_error_text(e: SegmentError) -> Seq<char> {
    match e {
        SegmentError::BadMagic(m) => "bad segment magic: 0x"@ + text::numeral(m as nat, 16, 8),
        SegmentError::BadVersion(v) => "bad segment version: "@ + text::decimal(v as nat),
    }
}

impl SegmentError {
    /// Describes the error.
    pub fn describe(&self) -> (s: String)
        ensures
            s@ == segment_error_text(*self),
    {
        match self {
            SegmentError::BadMagic(m) => {
                let mut s: String = String::from_str("bad segment magic: 0x");
                push_numeral(&mut s, *m as u64, 16, 8);
                s
            },
            SegmentError::BadVersion(v) => {
                let mut s: String = String::from_str("bad segment version: ");
                push_numeral(&mut s, *v as u64, 10, 1);
                s
            },
        }
    }
}

/// The name of a segment file: `{shard_id:04}_{segment_id:020}.wal`.
pub open spec fn segment_name(shard_id: u16, segment_id: u64) -> Seq<char> {
    text::numeral(shard_id as nat, 10, 4) + "_"@ + text::numeral(segment_id as nat, 10, 20)
        + ".wal"@
}

/// Generates a segment file name.
pub fn segment_filename(shard_id: u16, segment_id: u64) -> (name: String)
    ensures
        name@ == segment_name(shard_id, segment_id),
{
    let mut name: String = String::new();
    push_numeral(&mut name, shard_id as u64, 10, 4);
    name.append("_");
    push_numeral(&mut name, segment_id, 10, 20);
    name.append(".wal");
    assert(name@ =~= segment_name(shard_id, segment_id));
    name
}

/// The shard and the segment that a file name spells, if it spells them.
pub open spec fn parsed_segment_name(name: Seq<char>) -> Option<(u16, u64)> {
    if name.len() < 4 || name.skip(name.len() - 4) != seq!['.', 'w', 'a', 'l'] {
        None
    } else {
        let stem = name.take(name.len() - 4);
        let at = text::first_of(stem, '_') as int;
        if at >= stem.len() {
            None
        } else {
            match (
                text::parsed_unsigned(stem.take(at), u16::MAX as nat),
                text::parsed_unsigned(stem.skip(at + 1), u64::MAX as nat),
            ) {
                (Some(shard), Some(segment)) => Some((shard as u16, segment as u64)),
                _ => None,
            }
        }
    }
}

/// Parses shard_id and segment_id from a segment file name.
pub fn parse_segment_filename(name: &str) -> (r: Option<(u16, u64)>)
    ensures
        r == parsed_segment_name(name@),
{
    let all: Vec<char> = chars_of(name);
    let chars: &[char] = all.as_slice();
    let n: usize = chars.len();
    if n < 4 {
        return None;
    }
    let m: usize = n - 4;
    if chars[m] != '.' || chars[m + 1] != 'w' || chars[m + 2] != 'a' || chars[m + 3] != 'l' {
        assert(name@.skip(m as int)[0] == chars@[m as int]);
        assert(name@.skip(m as int)[1] == chars@[m + 1]);
        assert(name@.skip(m as int)[2] == chars@[m + 2]);
        assert(name@.skip(m as int)[3] == chars@[m + 3]);
        return None;
    }
    assert(name@.skip(m as int) =~= seq!['.', 'w', 'a', 'l']);
    let stem: &[char] = slice_subrange(chars, 0, m);
    assert(stem@ =~= name@.take(m as int));
    let at: usize = find(stem, '_');
    if at >= stem.len() {
        return None;
    }
    let left: &[char] = slice_subrange(stem, 0, at);
    let right: &[char] = slice_subrange(stem, at + 1, m);
    assert(left@ =~= stem@.take(at as int));
    assert(right@ =~= stem@.skip(at + 1));
    match (parse_unsigned(left, u16::MAX as u64), parse_unsigned(right, u64::MAX)) {
        (Some(shard), Some(segment)) => Some((shard as u16, segment)),
        _ => None,
    }
}

/// The name of a segment file spells its shard and its segment.
pub proof fn law_segment_name_roundtrip(shard_id: u16, segment_id: u64)
    ensures
        parsed_segment_name(segment_name(shard_id, segment_id)) == Some((shard_id, segment_id)),
{
    reveal_strlit("_");
    reveal_strlit(".wal");
    let a = text::numeral(shard_id as nat, 10, 4);
    let b = text::numeral(segment_id as nat, 10, 20);
    let name = segment_name(shard_id, segment_id);
    let stem = name.take(name.len() - 4);
    text::lemma_numeral_digits(shard_id as nat, 4);
    text::lemma_numeral_digits(segment_id as nat, 20);
    text::lemma_parse_numeral(shard_id as nat, 4, u16::MAX as nat);
    text::lemma_parse_numeral(segment_id as nat, 20, u64::MAX as nat);
    assert(name.skip(name.len() - 4) =~= seq!['.', 'w', 'a', 'l']);
    assert(stem =~= a + seq!['_'] + b);
    assert forall|i: int| 0 <= i < a.len() implies stem[i] != '_' by {
        assert(stem[i] == a[i]);
        assert(text::is_digit(a[i]));
    }
    text::lemma_first_of_unique(stem, '_', a.len());
    assert(stem.take(a.len() as int) =~= a);
    assert(stem.skip(a.len() as int + 1) =~= b);
}

/// A segment header.
pub open spec fn segment_header(shard_id: u16, segment_id: u64, created_ts_ns: u64) -> Seq<u8> {
    be::be_bytes(SEGMENT_MAGIC as nat, 4) + seq![1u8] + be::be_bytes(shard_id as nat, 2) + seq![
        0u8,
    ] + be::be_bytes(segment_id as nat, 8) + be::be_bytes(created_ts_ns as nat, 8) + Seq::new(
        40,
        |i: int| 0u8,
    )
}

/// What decoding a segment header gives: (shard_id, segment_id, created_ts_ns).
pub open spec fn decoded_segment_header(hdr: Seq<u8>) -> Result<(u16, u64, u64), SegmentError> {
    if be::field32(hdr, 0) != SEGMENT_MAGIC {
        Err(SegmentError::BadMagic(be::field32(hdr, 0)))
    } else if hdr[4] != 1 {
        Err(SegmentError::BadVersion(hdr[4]))
    } else {
        Ok((be::field16(hdr, 5), be::field64(hdr, 8), be::field64(hdr, 16)))
    }
}

/// Encodes the 64-byte segment header.
pub fn encode_segment_header(shard_id: u16, segment_id: u64, created_ts_ns: u64) -> (hdr: [u8; 64])
    ensures
        hdr@ == segment_header(shard_id, segment_id, created_ts_ns),
{
    let mut buf: Vec<u8> = Vec::new();
    put_be(&mut buf, SEGMENT_MAGIC as u64, 4);
    buf.push(1);
    put_be(&mut buf, shard_id as u64, 2);
    buf.push(0);
    put_be(&mut buf, segment_id, 8);
    put_be(&mut buf, created_ts_ns, 8);
    proof {
        lemma_header_prefix(shard_id, segment_id, created_ts_ns);
    }
    assert(buf@ =~= segment_header(shard_id, segment_id, created_ts_ns).take(24));
    let mut hdr: [u8; 64] = [0;64];
    let mut i: usize = 0;
    while i < 24
        invariant
            i <= 24,
            buf.len() == 24,
            forall|j: int| 0 <= j < i ==> hdr@[j] == buf@[j],
            forall|j: int| i <= j < 64 ==> hdr@[j] == 0,
        decreases 24 - i,
    {
        hdr[i] = buf[i];
        i = i + 1;
    }
    assert(hdr@ =~= segment_header(shard_id, segment_id, created_ts_ns));
    hdr
}

proof fn lemma_header_prefix(shard_id: u16, segment_id: u64, created_ts_ns: u64)
    ensures
        segment_header(shard_id, segment_id, created_ts_ns).len() == 64,
        forall|j: int|
            24 <= j < 64 ==> segment_header(shard_id, segment_id, created_ts_ns)[j] == 0,
{
    broadcast use crate::be::lemma_be_bytes_len;

}

/// Decodes and validates a segment header. Returns (shard_id, segment_id, created_ts_ns).
pub fn decode_segment_header(hdr: &[u8; 64]) -> (r: Result<(u16, u64, u64), SegmentError>)
    ensures
        r == decoded_segment_header(hdr@),
{
    let bytes: &[u8] = hdr.as_slice();
    let magic: u32 = get_u32(bytes, 0);
    if magic != SEGMENT_MAGIC {
        return Err(SegmentError::BadMagic(magic));
    }
    let version: u8 = bytes[4];
    if version != 1 {
        return Err(SegmentError::BadVersion(version));
    }
    Ok((get_u16(bytes, 5), get_u64(bytes, 8), get_u64(bytes, 16)))
}

/// The header at the start of a segment file.
pub fn leading_header(data: &[u8]) -> (hdr: [u8; 64])
    requires
        data@.len() >= 64,
    ensures
        hdr@ == data@.take(64),
{
    let mut hdr: [u8; 64] = [0;64];
    let mut i: usize = 0;
    while i < 64
        invariant
            i <= 64,
            data.len() >= 64,
            forall|j: int| 0 <= j < i ==> hdr@[j] == data@[j],
        decreases 64 - i,
    {
        hdr[i] = data[i];
        i = i + 1;
    }
    assert(hdr@ =~= data@.take(64));
    hdr
}

/// Decoding an encoded segment header gives its fields back.
pub proof fn law_segment_header_roundtrip(shard_id: u16, segment_id: u64, created_ts_ns: u64)
    ensures
        decoded_segment_header(segment_header(shard_id, segment_id, created_ts_ns)) == Ok::<
            (u16, u64, u64),
            SegmentError,
        >((shard_id, segment_id, created_ts_ns)),
{
    broadcast use crate::be::lemma_be_bytes_len;

    let t = segment_header(shard_id, segment_id, created_ts_ns);
    assert(t.subrange(0, 4) =~= be::be_bytes(SEGMENT_MAGIC as nat, 4));
    assert(t.subrange(5, 7) =~= be::be_bytes(shard_id as nat, 2));
    assert(t.subrange(8, 16) =~= be::be_bytes(segment_id as nat, 8));
    assert(t.subrange(16, 24) =~= be::be_bytes(created_ts_ns as nat, 8));
    be::lemma_field32(t, 0, SEGMENT_MAGIC);
    be::lemma_field16(t, 5, shard_id);
    be::lemma_field64(t, 8, segment_id);
    be::lemma_field64(t, 16, created_ts_ns);
}

/// Whether file `i` of a directory listing is a segment of the shard, and which.
pub open spec fn listed_segment(names: Seq<String>, shard_id: u16, i: int) -> Option<u64> {
    match parsed_segment_name(names[i]@) {
        Some((sid, segment_id)) => if sid == shard_id {
            Some(segment_id)
        } else {
            None
        },
        None => None,
    }
}

/// Finds the segment files of a shard among the file names of its directory:
/// the segment ids, ascending, each with the position of its file in `names`.
pub fn list_segments(names: &Vec<String>, shard_id: u16) -> (segments: Vec<(u64, usize)>)
    ensures
        order::ordered(segments@),
        forall|k: int|
            0 <= k < segments@.len() ==> (#[trigger] segments@[k]).1 < names@.len()
                && listed_segment(names@, shard_id, segments@[k].1 as int) == Some(segments@[k].0),
        forall|i: int|
            0 <= i < names@.len() ==> ((#[trigger] listed_segment(names@, shard_id, i)) matches Some(
                segment_id,
            ) ==> segments@.contains((segment_id, i as usize))),
{
    let mut segments: Vec<(u64, usize)> = Vec::new();
    let mut i: usize = 0;
    while i < names.len()
        invariant
            i <= names@.len(),
            order::ordered(segments@),
            forall|k: int|
                0 <= k < segments@.len() ==> (#[trigger] segments@[k]).1 < i && listed_segment(
                    names@,
                    shard_id,
                    segments@[k].1 as int,
                ) == Some(segments@[k].0),
            forall|j: int|
                0 <= j < i ==> ((#[trigger] listed_segment(names@, shard_id, j)) matches Some(
                    segment_id,
                ) ==> segments@.contains((segment_id, j as usize))),
        decreases names@.len() - i,
    {
        let ghost before = segments@;
        match parse_segment_filename(names[i].as_str()) {
            Some((sid, segment_id)) => {
                if sid == shard_id {
                    insert_ordered(&mut segments, segment_id, i);
                    assert forall|k: int| 0 <= k < segments@.len() implies (
                    #[trigger] segments@[k]).1 <= i && listed_segment(
                        names@,
                        shard_id,
                        segments@[k].1 as int,
                    ) == Some(segments@[k].0) by {
                        let x = segments@[k];
                        assert(segments@.contains(x));
                        if x != (segment_id, i) {
                            let j = choose|j: int| 0 <= j < before.len() && before[j] == x;
                            assert(before[j].1 < i);
                        }
                    }
                }
            },
            None => {},
        }
        i = i + 1;
    }
    segments
}

/// Finds a segment in a list of segments: the position of its file.
pub fn find_segment(segments: &Vec<(u64, usize)>, segment_id: u64) -> (r: Option<usize>)
    ensures
        r matches Some(at) ==> exists|k: int|
            0 <= k < segments@.len() && #[trigger] segments@[k] == (segment_id, at) && forall|j: int|
                0 <= j < k ==> (#[trigger] segments@[j]).0 != segment_id,
        r is None ==> forall|k: int| 0 <= k < segments@.len() ==> (#[trigger] segments@[k]).0
            != segment_id,
{
    let mut k: usize = 0;
    while k < segments.len()
        invariant
            k <= segments@.len(),
            forall|j: int| 0 <= j < k ==> (#[trigger] segments@[j]).0 != segment_id,
        decreases segments@.len() - k,
    {
        if segments[k].0 == segment_id {
            assert(segments@[k as int] == (segment_id, segments@[k as int].1));
            return Some(segments[k].1);
        }
        k = k + 1;
    }
    None
}

/// The layout of a segment header: the magic number in four bytes, the version one,
/// the shard in two, a zero, the segment and the time of its creation in eight each,
/// most significant byte first, and zeros up to 64 bytes.
pub proof fn law_segment_header_layout(shard_id: u16, segment_id: u64, created_ts_ns: u64, i: int)
    ensures
        ({
            let t = segment_header(shard_id, segment_id, created_ts_ns);
            &&& t.len() == 64
            &&& be::be_value(t.subrange(0, 4)) == 0x57534547
            &&& t[4] == 1
            &&& be::be_value(t.subrange(5, 7)) == shard_id
            &&& t[7] == 0
            &&& be::be_value(t.subrange(8, 16)) == segment_id
            &&& be::be_value(t.subrange(16, 24)) == created_ts_ns
            &&& 24 <= i < 64 ==> t[i] == 0
        }),
{
    broadcast use crate::be::lemma_be_bytes_len;

    be::lemma_be_capacities();
    let t = segment_header(shard_id, segment_id, created_ts_ns);
    assert(t.subrange(0, 4) =~= be::be_bytes(SEGMENT_MAGIC as nat, 4));
    assert(t.subrange(5, 7) =~= be::be_bytes(shard_id as nat, 2));
    assert(t.subrange(8, 16) =~= be::be_bytes(segment_id as nat, 8));
    assert(t.subrange(16, 24) =~= be::be_bytes(created_ts_ns as nat, 8));
    be::lemma_be_value_of_bytes(SEGMENT_MAGIC as nat, 4);
    be::lemma_be_value_of_bytes(shard_id as nat, 2);
    be::lemma_be_value_of_bytes(segment_id as nat, 8);
    be::lemma_be_value_of_bytes(created_ts_ns as nat, 8);
}

/// A header with another magic number or version is refused, and the error names
/// what was found; any other gives its shard, its segment and its time.
pub proof fn law_foreign_header_is_refused(hdr: Seq<u8>)
    requires
        hdr.len() == 64,
    ensures
        ({
            let magic = be::be_value(hdr.subrange(0, 4));
            &&& magic != 0x57534547 ==> decoded_segment_header(hdr) == Err::<
                (u16, u64, u64),
                SegmentError,
            >(SegmentError::BadMagic(magic as u32))
            &&& magic == 0x57534547 && hdr[4] != 1 ==> decoded_segment_header(hdr) == Err::<
                (u16, u64, u64),
                SegmentError,
            >(SegmentError::BadVersion(hdr[4]))
            &&& magic == 0x57534547 && hdr[4] == 1 ==> {
                &&& decoded_segment_header(hdr) matches Ok((shard_id, segment_id, created))
                    && shard_id == be::be_value(hdr.subrange(5, 7)) && segment_id == be::be_value(
                    hdr.subrange(8, 16),
                ) && created == be::be_value(hdr.subrange(16, 24))
            }
        }),
{
    be::lemma_be_capacities();
    be::lemma_be_value_bound(hdr.subrange(0, 4));
    be::lemma_be_value_bound(hdr.subrange(5, 7));
    be::lemma_be_value_bound(hdr.subrange(8, 16));
    be::lemma_be_value_bound(hdr.subrange(16, 24));
}

/// A file is a segment of a shard exactly if its name spells that shard, and it is
/// the segment that the name spells.
pub proof fn law_listed_segment_is_named(
    names: Seq<String>,
    shard_id: u16,
    i: int,
    other: u16,
    segment_id: u64,
)
    requires
        0 <= i < names.len(),
    ensures
        names[i]@ == segment_name(shard_id, segment_id) ==> listed_segment(names, shard_id, i)
            == Some(segment_id),
        names[i]@ == segment_name(other, segment_id) && other != shard_id ==> listed_segment(
            names,
            shard_id,
            i,
        ) is None,
        parsed_segment_name(names[i]@) is None ==> listed_segment(names, shard_id, i) is None,
{
    law_segment_name_roundtrip(shard_id, segment_id);
    law_segment_name_roundtrip(other, segment_id);
}

/// The name of a segment file: the shard in at least four digits, an underscore, the
/// segment in at least twenty, and ".wal".
pub proof fn law_segment_name_shape(shard_id: u16, segment_id: u64)
    ensures
        ({
            let name = segment_name(shard_id, segment_id);
            let at = text::first_of(name, '_') as int;
            &&& at >= 4
            &&& name.len() >= at + 25
            &&& name[at] == '_'
            &&& text::digits_value(name.take(at)) == shard_id
            &&& text::digits_value(name.subrange(at + 1, name.len() - 4)) == segment_id
            &&& at > 4 ==> name[0] != '0'
            &&& name.len() > at + 25 ==> name[at + 1] != '0'
            &&& name.skip(name.len() - 4) == seq!['.', 'w', 'a', 'l']
        }),
{
    reveal_strlit("_");
    reveal_strlit(".wal");
    let a = text::numeral(shard_id as nat, 10, 4);
    let b = text::numeral(segment_id as nat, 10, 20);
    let name = segment_name(shard_id, segment_id);
    text::lemma_numeral_digits(shard_id as nat, 4);
    text::lemma_numeral_digits(segment_id as nat, 20);
    text::law_numeral_spells_its_number(shard_id as nat, 4);
    text::law_numeral_spells_its_number(segment_id as nat, 20);
    assert forall|i: int| 0 <= i < a.len() implies name[i] != '_' by {
        assert(name[i] == a[i]);
        assert(text::is_digit(a[i]));
    }
    text::lemma_first_of_unique(name, '_', a.len());
    assert(name.take(a.len() as int) =~= a);
    assert(name.subrange(a.len() as int + 1, name.len() - 4) =~= b);
    assert(name.skip(name.len() - 4) =~= seq!['.', 'w', 'a', 'l']);
}

/// A file name that does not end in ".wal", or has no underscore before that, or has
/// something else than a number within bounds on either side of the first one, spells
/// no segment; any other spells the two numbers.
pub proof fn law_other_names_spell_no_segment(name: Seq<char>, at: int)
    ensures
        name.len() < 4 ==> parsed_segment_name(name) is None,
        name.len() >= 4 && (name[name.len() - 4] != '.' || name[name.len() - 3] != 'w'
            || name[name.len() - 2] != 'a' || name[name.len() - 1] != 'l') ==> parsed_segment_name(
            name,
        ) is None,
        (forall|i: int| 0 <= i < name.len() ==> #[trigger] name[i] != '_') ==> parsed_segment_name(
            name,
        ) is None,
        0 <= at < name.len() - 4 && name[at] == '_' && (forall|i: int|
            0 <= i < at ==> #[trigger] name[i] != '_') ==> {
            let shard = text::parsed_unsigned(name.take(at), u16::MAX as nat);
            let segment = text::parsed_unsigned(
                name.subrange(at + 1, name.len() - 4),
                u64::MAX as nat,
            );
            &&& shard is None || segment is None ==> parsed_segment_name(name) is None
            &&& shard is Some && segment is Some && name.skip(name.len() - 4) == seq![
                '.',
                'w',
                'a',
                'l',
            ] ==> parsed_segment_name(name) == Some((shard->0 as u16, segment->0 as u64))
        },
{
    if name.len() >= 4 {
        let end = name.skip(name.len() - 4);
        assert(end[0] == name[name.len() - 4] && end[1] == name[name.len() - 3] && end[2]
            == name[name.len() - 2] && end[3] == name[name.len() - 1]);
        let stem = name.take(name.len() - 4);
        text::lemma_first_of(stem, '_');
        if forall|i: int| 0 <= i < name.len() ==> #[trigger] name[i] != '_' {
            assert forall|i: int| 0 <= i < stem.len() implies stem[i] != '_' by {
                assert(stem[i] == name[i]);
            }
        }
        if 0 <= at < name.len() - 4 && name[at] == '_' && (forall|i: int|
            0 <= i < at ==> #[trigger] name[i] != '_') {
            assert forall|i: int| 0 <= i < at implies stem[i] != '_' by {
                assert(stem[i] == name[i]);
            }
            text::lemma_first_of_unique(stem, '_', at as nat);
            assert(stem.take(at) =~= name.take(at));
            assert(stem.skip(at + 1) =~= name.subrange(at + 1, name.len() - 4));
        }
    }
}

/// An error of a segment header is described with what was found: a magic number in
/// hexadecimal, a version in decimal.
pub proof fn law_segment_error_is_described(m: u32, v: u8)
    ensures
        segment_error_text(SegmentError::BadMagic(m)) == "bad segment magic: 0x"@ + text::numeral(
            m as nat,
            16,
            8,
        ),
        segment_error_text(SegmentError::BadVersion(v)) == "bad segment version: "@ + text::decimal(
            v as nat,
        ),
{
}

} // verus!

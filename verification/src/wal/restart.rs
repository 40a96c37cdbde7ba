//! What a restart finds of a log that was written from its first record on.

use vstd::prelude::*;

use crate::wal::index::RecordLocation;
use crate::wal::record;
use crate::wal::record::RecordModel;
use crate::wal::segment::SegmentError;
use crate::wal::writer;
use crate::wal::writer::{RecoveryModel, ScannedModel, WriterModel};

verus! {

/// A segment: when it was created, and the records in it.
#[verifier::ext_equal]
pub struct SegmentModel {
    pub created: u64,
    pub records: Seq<RecordModel>,
}

/// A log: its writer, its segments, and what was written where. Segment `j` has
/// the id `j`.
#[verifier::ext_equal]
pub struct LogModel {
    pub writer: WriterModel,
    pub segments: Seq<SegmentModel>,
    pub written: Seq<RecordModel>,
    pub locations: Seq<RecordLocation>,
}

/// A log that starts in a directory without files.
pub open spec fn new_log(shard_id: u16, max_segment_bytes: u64, created: u64) -> LogModel {
    LogModel {
        writer: writer::opened(shard_id, max_segment_bytes, None, 0),
        segments: seq![SegmentModel { created, records: Seq::empty() }],
        written: Seq::empty(),
        locations: Seq::empty(),
    }
}

/// Whether a writer can take a record: its lengths fit their fields, and no
/// counter is used up.
pub open spec fn has_room(w: WriterModel, r: RecordModel) -> bool {
    &&& record::record_fits(r)
    &&& r.stream_lsn < u64::MAX
    &&& w.next_entry_id < u64::MAX
    &&& w.current_offset + record::record_size(r) <= u64::MAX
    &&& w.next_segment_id < u64::MAX
}

/// A log after a record was appended: it takes the next entry id, and a segment
/// that is full is followed by a new one, created at `created`.
pub open spec fn logged(log: LogModel, r: RecordModel, created: u64) -> LogModel {
    let w = log.writer;
    let rec = RecordModel { entry_id: w.next_entry_id, ..r };
    let size = record::record_size(r);
    let moved = writer::after_bytes(writer::after_entry_id(w), size as u64);
    let last = log.segments.last();
    let extended = log.segments.drop_last().push(
        SegmentModel { records: last.records.push(rec), ..last },
    );
    LogModel {
        writer: if writer::is_full(moved) {
            writer::after_rotation(moved)
        } else {
            moved
        },
        segments: if writer::is_full(moved) {
            extended.push(SegmentModel { created, records: Seq::empty() })
        } else {
            extended
        },
        written: log.written.push(rec),
        locations: log.locations.push(
            RecordLocation {
                segment_id: w.current_segment_id,
                offset: w.current_offset,
                size: size as u32,
            },
        ),
    }
}

/// A log after records were appended, each with the time at which the segment
/// behind it is created if it fills its own.
pub open spec fn all_logged(start: LogModel, appends: Seq<(RecordModel, u64)>) -> LogModel
    decreases appends.len(),
{
    if appends.len() == 0 {
        start
    } else {
        logged(
            all_logged(start, appends.drop_last()),
            appends.last().0,
            appends.last().1,
        )
    }
}

/// Whether a log can take records one after the other.
pub open spec fn all_fit(start: LogModel, appends: Seq<(RecordModel, u64)>) -> bool
    decreases appends.len(),
{
    appends.len() == 0 || {
        &&& all_fit(start, appends.drop_last())
        &&& has_room(all_logged(start, appends.drop_last()).writer, appends.last().0)
    }
}

/// The files of a log.
pub open spec fn log_files(log: LogModel) -> Seq<Seq<u8>> {
    Seq::new(
        log.segments.len(),
        |j: int|
            writer::segment_image(
                log.writer.shard_id,
                j as u64,
                log.segments[j].created,
                log.segments[j].records,
            ),
    )
}

/// Whether every file can be replayed.
pub open spec fn are_replayable(files: Seq<Seq<u8>>) -> bool {
    forall|j: int|
        0 <= j < files.len() ==> (#[trigger] writer::scanned_segment(files[j]) matches Ok(found)
            && writer::counters_fit(found))
}

/// What is known of a log of which nothing was found yet.
pub open spec fn nothing_found() -> RecoveryModel {
    RecoveryModel { index: Map::empty(), streams: Map::empty(), next_entry_id: 0 }
}

/// What replaying files in order rebuilds, file `j` as segment `j`.
pub open spec fn recovered(limit: nat, files: Seq<Seq<u8>>) -> RecoveryModel
    decreases files.len(),
{
    if files.len() == 0 {
        nothing_found()
    } else {
        writer::replayed(
            recovered(limit, files.drop_last()),
            limit,
            (files.len() - 1) as u64,
            writer::scanned_segment(files.last())->Ok_0,
        )
    }
}

/// The stream and the LSN of a record.
pub open spec fn key_of(r: RecordModel) -> (u64, u64) {
    (r.stream_id, r.stream_lsn)
}

spec fn found_segments(limit: nat, segments: Seq<SegmentModel>) -> RecoveryModel
    decreases segments.len(),
{
    if segments.len() == 0 {
        nothing_found()
    } else {
        writer::replayed(
            found_segments(limit, segments.drop_last()),
            limit,
            (segments.len() - 1) as u64,
            writer::located(segments.last().records),
        )
    }
}

spec fn found_records(
    limit: nat,
    written: Seq<RecordModel>,
    locations: Seq<RecordLocation>,
) -> RecoveryModel
    decreases written.len(),
{
    if written.len() == 0 {
        nothing_found()
    } else {
        let loc = locations.last();
        writer::absorbed(
            found_records(limit, written.drop_last(), locations.drop_last()),
            limit,
            loc.segment_id,
            ScannedModel { offset: loc.offset, size: loc.size, record: written.last() },
        )
    }
}

spec fn records_ok(records: Seq<RecordModel>) -> bool {
    forall|i: int|
        0 <= i < records.len() ==> record::record_fits(#[trigger] records[i])
            && records[i].entry_id < u64::MAX && records[i].stream_lsn < u64::MAX
}

/// What every log keeps while records are appended.
spec fn log_wf(log: LogModel) -> bool {
    let w = log.writer;
    let n = log.segments.len();
    &&& 1 <= n <= u64::MAX
    &&& w.current_segment_id == n - 1
    &&& w.next_segment_id == n
    &&& w.current_offset == writer::record_offset(
        log.segments.last().records,
        log.segments.last().records.len() as int,
    )
    &&& w.next_entry_id == log.written.len()
    &&& log.locations.len() == log.written.len()
    &&& forall|j: int| 0 <= j < n ==> records_ok((#[trigger] log.segments[j]).records)
    &&& forall|i: int|
        0 <= i < log.written.len() ==> (#[trigger] log.written[i]).entry_id == i
            && log.written[i].stream_lsn < u64::MAX
}

proof fn lemma_located_push(records: Seq<RecordModel>, r: RecordModel)
    ensures
        writer::located(records.push(r)) == writer::located(records).push(
            ScannedModel {
                offset: writer::record_offset(records, records.len() as int) as u64,
                size: record::record_size(r) as u32,
                record: r,
            },
        ),
{
    let all = records.push(r);
    assert forall|i: int| 0 <= i <= records.len() implies #[trigger] all.take(i)
        == records.take(i) by {
        assert(all.take(i) =~= records.take(i));
    }
    assert forall|i: int| 0 <= i < all.len() implies writer::located(all)[i]
        == writer::located(records).push(
        ScannedModel {
            offset: writer::record_offset(records, records.len() as int) as u64,
            size: record::record_size(r) as u32,
            record: r,
        },
    )[i] by {
        assert(all.take(i) == records.take(i));
    }
    assert(writer::located(all) =~= writer::located(records).push(
        ScannedModel {
            offset: writer::record_offset(records, records.len() as int) as u64,
            size: record::record_size(r) as u32,
            record: r,
        },
    ));
}

proof fn lemma_logged(limit: nat, log: LogModel, r: RecordModel, created: u64)
    requires
        log_wf(log),
        has_room(log.writer, r),
        found_segments(limit, log.segments) == found_records(limit, log.written, log.locations),
    ensures
        ({
            let next = logged(log, r, created);
            &&& log_wf(next)
            &&& next.writer.shard_id == log.writer.shard_id
            &&& next.writer.max_segment_bytes == log.writer.max_segment_bytes
            &&& found_segments(limit, next.segments) == found_records(
                limit,
                next.written,
                next.locations,
            )
        }),
{
    let w = log.writer;
    let next = logged(log, r, created);
    let rec = RecordModel { entry_id: w.next_entry_id, ..r };
    let last = log.segments.last();
    let now = SegmentModel { records: last.records.push(rec), ..last };
    let extended = log.segments.drop_last().push(now);
    let n = last.records.len() as int;
    let item = ScannedModel {
        offset: w.current_offset,
        size: record::record_size(r) as u32,
        record: rec,
    };
    record::lemma_record_len(rec);
    lemma_located_push(last.records, rec);
    let found = writer::located(now.records);
    assert(found.drop_last() =~= writer::located(last.records));
    assert(found.last() == item);
    assert(extended.drop_last() =~= log.segments.drop_last());
    assert(found_segments(limit, extended) == writer::absorbed(
        found_segments(limit, log.segments),
        limit,
        w.current_segment_id,
        item,
    ));
    assert(next.written.drop_last() =~= log.written);
    assert(next.locations.drop_last() =~= log.locations);
    assert(now.records.take(n + 1) =~= now.records);
    assert(now.records.drop_last() =~= last.records);
    assert(last.records.take(n) =~= last.records);
    assert(writer::record_offset(now.records, n + 1) == w.current_offset + record::record_size(r));
    assert forall|i: int| 0 <= i < now.records.len() implies record::record_fits(
        #[trigger] now.records[i],
    ) && now.records[i].entry_id < u64::MAX && now.records[i].stream_lsn < u64::MAX by {
        assert(records_ok(log.segments[log.segments.len() - 1].records));
        if i < n {
            assert(now.records[i] == last.records[i]);
        }
    }
    assert forall|j: int| 0 <= j < extended.len() implies records_ok(
        (#[trigger] extended[j]).records,
    ) by {
        if j < extended.len() - 1 {
            assert(extended[j] == log.segments[j]);
        }
    }
    assert forall|i: int| 0 <= i < next.written.len() implies (#[trigger] next.written[i]).entry_id
        == i && next.written[i].stream_lsn < u64::MAX by {
        if i < log.written.len() {
            assert(next.written[i] == log.written[i]);
        }
    }
    let moved = writer::after_bytes(writer::after_entry_id(w), record::record_size(r) as u64);
    if writer::is_full(moved) {
        let fresh = SegmentModel { created, records: Seq::empty() };
        assert(next.segments == extended.push(fresh));
        assert(next.segments.drop_last() =~= extended);
        assert(next.segments.last() == fresh);
        assert(writer::located(fresh.records) =~= Seq::empty());
        assert(fresh.records.take(0) =~= Seq::empty());
        assert forall|j: int| 0 <= j < next.segments.len() implies records_ok(
            (#[trigger] next.segments[j]).records,
        ) by {
            if j < extended.len() {
                assert(next.segments[j] == extended[j]);
            }
        }
    } else {
        assert(next.segments == extended);
    }
}

proof fn lemma_all_logged(
    limit: nat,
    shard_id: u16,
    max_segment_bytes: u64,
    created: u64,
    appends: Seq<(RecordModel, u64)>,
)
    requires
        all_fit(new_log(shard_id, max_segment_bytes, created), appends),
    ensures
        ({
            let log = all_logged(new_log(shard_id, max_segment_bytes, created), appends);
            &&& log_wf(log)
            &&& log.writer.shard_id == shard_id
            &&& log.writer.max_segment_bytes == max_segment_bytes
            &&& log.written.len() == appends.len()
            &&& found_segments(limit, log.segments) == found_records(
                limit,
                log.written,
                log.locations,
            )
            &&& forall|i: int|
                0 <= i < appends.len() ==> #[trigger] log.written[i] == (RecordModel {
                    entry_id: i as u64,
                    ..appends[i].0
                })
        }),
    decreases appends.len(),
{
    let start = new_log(shard_id, max_segment_bytes, created);
    if appends.len() == 0 {
        let first = start.segments[0];
        assert(first.records.take(0) =~= Seq::empty());
        assert(writer::located(first.records) =~= Seq::empty());
        assert(start.segments.drop_last() =~= Seq::empty());
        assert(start.segments.last() == first);
        assert(found_segments(limit, start.segments.drop_last()) == nothing_found());
    } else {
        let init = appends.drop_last();
        lemma_all_logged(limit, shard_id, max_segment_bytes, created, init);
        let log = all_logged(start, init);
        lemma_logged(limit, log, appends.last().0, appends.last().1);
        let next = all_logged(start, appends);
        assert forall|i: int| 0 <= i < appends.len() implies #[trigger] next.written[i] == (
        RecordModel { entry_id: i as u64, ..appends[i].0 }) by {
            if i < init.len() {
                assert(next.written[i] == log.written[i]);
                assert(init[i] == appends[i]);
            }
        }
    }
}

proof fn lemma_scan_end_of_image(
    shard_id: u16,
    segment_id: u64,
    created: u64,
    records: Seq<RecordModel>,
)
    requires
        writer::records_fit(records),
    ensures
        ({
            let image = writer::segment_image(shard_id, segment_id, created, records);
            &&& image.len() == writer::record_offset(records, records.len() as int)
            &&& writer::scan_end(image, 64) == image.len()
            &&& writer::scanned_segment(image) == Ok::<Seq<ScannedModel>, SegmentError>(
                writer::located(records),
            )
        }),
    decreases records.len(),
{
    broadcast use crate::be::lemma_be_bytes_len;

    let image = writer::segment_image(shard_id, segment_id, created, records);
    assert(records.take(records.len() as int) =~= records);
    let some = RecordModel {
        stream_id: 0,
        term: 0,
        entry_id: 0,
        stream_lsn: 0,
        timestamp_ns: 0,
        key: Seq::empty(),
        value: Seq::empty(),
    };
    writer::law_scan_finds_what_was_written(shard_id, segment_id, created, records, some, 0);
    assert(image + record::record_bytes(some).take(0) =~= image);
    if records.len() > 0 {
        let init = records.drop_last();
        let r = records.last();
        assert forall|i: int| 0 <= i < init.len() implies record::record_fits(
            #[trigger] init[i],
        ) by {
            assert(init[i] == records[i]);
        }
        lemma_scan_end_of_image(shard_id, segment_id, created, init);
        let before = writer::segment_image(shard_id, segment_id, created, init);
        assert(record::record_fits(records[records.len() - 1]));
        writer::law_log_goes_on_after_torn_write(before, r);
        assert(before.take(before.len() as int) =~= before);
        assert(init.push(r) =~= records);
        writer::law_append_extends_segment(shard_id, segment_id, created, init, r);
        assert(init.take(init.len() as int) =~= init);
    }
}

proof fn lemma_segment_file(log: LogModel, j: int)
    requires
        0 <= j < log.segments.len() <= u64::MAX,
        records_ok(log.segments[j].records),
    ensures
        writer::scanned_segment(log_files(log)[j]) == Ok::<Seq<ScannedModel>, SegmentError>(
            writer::located(log.segments[j].records),
        ),
        writer::counters_fit(writer::located(log.segments[j].records)),
{
    let s = log.segments[j];
    lemma_scan_end_of_image(log.writer.shard_id, j as u64, s.created, s.records);
    let found = writer::located(s.records);
    assert forall|i: int| 0 <= i < found.len() implies (#[trigger] found[i]).record.entry_id
        < u64::MAX && found[i].record.stream_lsn < u64::MAX by {
        assert(found[i].record == s.records[i]);
    }
}

proof fn lemma_recovered(limit: nat, log: LogModel, n: int)
    requires
        0 <= n <= log.segments.len() <= u64::MAX,
        forall|j: int|
            0 <= j < log.segments.len() ==> records_ok((#[trigger] log.segments[j]).records),
    ensures
        recovered(limit, log_files(log).take(n)) == found_segments(limit, log.segments.take(n)),
    decreases n,
{
    let files = log_files(log);
    if n == 0 {
        assert(files.take(0) =~= Seq::empty());
        assert(log.segments.take(0) =~= Seq::empty());
    } else {
        let j = n - 1;
        lemma_recovered(limit, log, j);
        assert(records_ok(log.segments[j].records));
        lemma_segment_file(log, j);
        let (f, s) = (files.take(n), log.segments.take(n));
        assert(f.drop_last() =~= files.take(j));
        assert(s.drop_last() =~= log.segments.take(j));
        lemma_recovered_step(limit, f, s);
    }
}

proof fn lemma_recovered_step(
    limit: nat,
    files: Seq<Seq<u8>>,
    segments: Seq<SegmentModel>,
)
    requires
        files.len() == segments.len() > 0,
        recovered(limit, files.drop_last()) == found_segments(limit, segments.drop_last()),
        writer::scanned_segment(files.last()) == Ok::<Seq<ScannedModel>, SegmentError>(
            writer::located(segments.last().records),
        ),
    ensures
        recovered(limit, files) == found_segments(limit, segments),
{
}

proof fn lemma_found_records(
    limit: nat,
    written: Seq<RecordModel>,
    locations: Seq<RecordLocation>,
)
    requires
        locations.len() == written.len() <= u64::MAX,
        forall|i: int| 0 <= i < written.len() ==> (#[trigger] written[i]).entry_id == i,
        written.len() < u64::MAX,
    ensures
        ({
            let after = found_records(limit, written, locations);
            &&& after.next_entry_id == written.len()
            &&& forall|i: int|
                #![trigger written[i]]
                0 <= i < written.len() && (forall|j: int|
                    i < j < written.len() ==> key_of(#[trigger] written[j]) != key_of(written[i]))
                    ==> after.index.contains_key(key_of(written[i]))
                    && after.index[key_of(written[i])] == locations[i]
            &&& forall|key: (u64, u64)| #[trigger]
                after.index.contains_key(key) ==> exists|i: int|
                    0 <= i < written.len() && key_of(#[trigger] written[i]) == key
            &&& forall|id: u64| #[trigger]
                after.streams.contains_key(id) <==> exists|i: int|
                    0 <= i < written.len() && (#[trigger] written[i]).stream_id == id
        }),
    decreases written.len(),
{
    let after = found_records(limit, written, locations);
    if written.len() > 0 {
        let init = written.drop_last();
        let last = written.len() - 1;
        assert forall|i: int| 0 <= i < init.len() implies (#[trigger] init[i]).entry_id == i by {
            assert(init[i] == written[i]);
        }
        lemma_found_records(limit, init, locations.drop_last());
        let before = found_records(limit, init, locations.drop_last());
        assert(written[last].entry_id == last);
        assert(after.index == before.index.insert(key_of(written[last]), locations[last]));
        assert(after.streams.dom() =~= before.streams.dom().insert(written[last].stream_id));
        assert forall|i: int|
            #![trigger written[i]]
            0 <= i < written.len() && (forall|j: int|
                i < j < written.len() ==> key_of(#[trigger] written[j]) != key_of(
                    written[i],
                )) implies after.index.contains_key(key_of(written[i]))
            && after.index[key_of(written[i])] == locations[i] by {
            if i < last {
                assert(key_of(written[last]) != key_of(written[i]));
                assert(init[i] == written[i]);
                assert forall|j: int| i < j < init.len() implies key_of(#[trigger] init[j])
                    != key_of(init[i]) by {
                    assert(init[j] == written[j]);
                }
            }
        }
        assert forall|key: (u64, u64)| #[trigger] after.index.contains_key(key) implies exists|
            i: int,
        |
            0 <= i < written.len() && key_of(#[trigger] written[i]) == key by {
            if key == key_of(written[last]) {
            } else {
                assert(before.index.contains_key(key));
                let i = choose|i: int| 0 <= i < init.len() && key_of(#[trigger] init[i]) == key;
                assert(written[i] == init[i]);
            }
        }
        assert forall|id: u64| #[trigger] after.streams.contains_key(id) <==> exists|i: int|
            0 <= i < written.len() && (#[trigger] written[i]).stream_id == id by {
            if after.streams.contains_key(id) && id != written[last].stream_id {
                assert(before.streams.contains_key(id));
                let i = choose|i: int| 0 <= i < init.len() && (#[trigger] init[i]).stream_id == id;
                assert(written[i] == init[i]);
            }
            if exists|i: int| 0 <= i < written.len() && (#[trigger] written[i]).stream_id == id {
                let i = choose|i: int|
                    0 <= i < written.len() && (#[trigger] written[i]).stream_id == id;
                if i < last {
                    assert(init[i] == written[i]);
                    assert(before.streams.contains_key(id));
                }
            }
        }
    }
}

/// A restart finds a log as it was left. Append `i` took the entry id `i`; every
/// segment file can be replayed, whether or not the log was rotated; the index
/// that is rebuilt gives for each record the location at which it was written,
/// unless a later record has the same stream and LSN, and holds nothing else; the
/// table holds the streams that were written to and no others; the next entry id
/// is the number of appends, so none is given twice; and the writer that resumes
/// at the end of the last file stands where the old one stood.
pub proof fn law_restart_finds_the_log_as_it_was_left(
    limit: nat,
    shard_id: u16,
    max_segment_bytes: u64,
    created: u64,
    appends: Seq<(RecordModel, u64)>,
)
    requires
        all_fit(new_log(shard_id, max_segment_bytes, created), appends),
        appends.len() < u64::MAX,
    ensures
        ({
            let log = all_logged(new_log(shard_id, max_segment_bytes, created), appends);
            let files = log_files(log);
            let after = recovered(limit, files);
            let last = (files.len() - 1) as u64;
            &&& log.written.len() == appends.len()
            &&& log.locations.len() == appends.len()
            &&& forall|i: int|
                0 <= i < appends.len() ==> #[trigger] log.written[i] == (RecordModel {
                    entry_id: i as u64,
                    ..appends[i].0
                })
            &&& are_replayable(files)
            &&& forall|i: int|
                #![trigger log.written[i]]
                0 <= i < appends.len() && (forall|j: int|
                    i < j < appends.len() ==> key_of(#[trigger] log.written[j]) != key_of(
                        log.written[i],
                    )) ==> after.index.contains_key(key_of(log.written[i]))
                    && after.index[key_of(log.written[i])] == log.locations[i]
            &&& forall|key: (u64, u64)| #[trigger]
                after.index.contains_key(key) ==> exists|i: int|
                    0 <= i < appends.len() && key_of(#[trigger] log.written[i]) == key
            &&& forall|id: u64| #[trigger]
                after.streams.contains_key(id) <==> exists|i: int|
                    0 <= i < appends.len() && (#[trigger] log.written[i]).stream_id == id
            &&& after.next_entry_id == appends.len()
            &&& files.len() > 0
            &&& writer::opened(
                shard_id,
                max_segment_bytes,
                Some((last, writer::scan_end(files.last(), 64) as u64)),
                after.next_entry_id,
            ) == log.writer
        }),
{
    lemma_all_logged(limit, shard_id, max_segment_bytes, created, appends);
    let log = all_logged(new_log(shard_id, max_segment_bytes, created), appends);
    let files = log_files(log);
    let n = log.segments.len() as int;
    lemma_recovered(limit, log, n);
    assert forall|j: int| 0 <= j < files.len() implies (#[trigger] writer::scanned_segment(
        files[j],
    ) matches Ok(found) && writer::counters_fit(found)) by {
        assert(records_ok(log.segments[j].records));
        lemma_segment_file(log, j);
    }
    assert(files.take(n) =~= files);
    assert(log.segments.take(n) =~= log.segments);
    lemma_found_records(limit, log.written, log.locations);
    let s = log.segments[n - 1];
    assert(records_ok(s.records));
    lemma_scan_end_of_image(shard_id, (n - 1) as u64, s.created, s.records);
    assert(files.last() == writer::segment_image(shard_id, (n - 1) as u64, s.created, s.records));
    assert(s == log.segments.last());
}

} // verus!

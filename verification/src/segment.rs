//! Segmentation of an averaged series by calendar day at a fixed offset
//! from UTC.
//!
//! A segment is a run of consecutive records: it opens at a record and takes
//! every following record that falls on the same local day as the opening
//! one. Each record comes with the hour and minute of its local time of day,
//! each segment with the text of its local date.

use vstd::prelude::*;
use crate::calendar::{
    chrono_date, datable, date_label, day_number, day_of, epoch_seconds, hour_of_day, is_datable,
    minute_of_hour, seconds_of, time_of_day,
};
use crate::average::sorted_by_time;
use crate::record::Record;

verus! {

/// One record of a segment with its local time of day.
#[derive(Clone, Copy, Debug)]
pub struct DayPoint {
    pub record: Record,
    /// The hour of the local time of day, from 0 to 23.
    pub hour: u32,
    /// The minute of the local hour, from 0 to 59.
    pub minute: u32,
}

/// The records of one calendar day.
#[derive(Clone, Debug)]
pub struct DaySegment {
    /// The local date of the first record, as year, month and day.
    pub label: String,
    /// The records of the day in the order of the series.
    pub points: Vec<DayPoint>,
}

/// The number of the local day that a record falls on.
pub open spec fn day_of_record(record: Record, offset_seconds: int) -> int {
    day_number(epoch_seconds(record.timestamp_ms as int), offset_seconds)
}

/// A record with its local time of day.
pub open spec fn point_of(record: Record, offset_seconds: int) -> DayPoint {
    DayPoint {
        record,
        hour: hour_of_day(epoch_seconds(record.timestamp_ms as int), offset_seconds) as u32,
        minute: minute_of_hour(epoch_seconds(record.timestamp_ms as int), offset_seconds) as u32,
    }
}

/// Whether every record of the series can be given a date at the offset.
pub open spec fn all_datable(recs: Seq<Record>, offset_seconds: int) -> bool {
    forall|i: int|
        0 <= i < recs.len() ==> datable(
            epoch_seconds((#[trigger] recs[i]).timestamp_ms as int),
            offset_seconds,
        )
}

/// The records of a segment.
pub open spec fn records_of(segment: DaySegment) -> Seq<Record> {
    Seq::new(segment.points@.len(), |i: int| segment.points@[i].record)
}

/// The records of the segments, one segment after the other.
pub open spec fn joined(segments: Seq<DaySegment>) -> Seq<Record>
    decreases segments.len(),
{
    if segments.len() == 0 {
        Seq::empty()
    } else {
        joined(segments.drop_last()) + records_of(segments.last())
    }
}

/// Whether a segment is well formed on its own: it is not empty, its records
/// fall on the day of its first record and carry their local time of day,
/// and its label is the date of its first record.
pub open spec fn is_day_segment(segment: DaySegment, offset_seconds: int) -> bool {
    &&& segment.points@.len() > 0
    &&& forall|i: int|
        0 <= i < segment.points@.len() ==> {
            &&& #[trigger] segment.points@[i] == point_of(segment.points@[i].record, offset_seconds)
            &&& day_of_record(segment.points@[i].record, offset_seconds) == day_of_record(
                segment.points@[0].record,
                offset_seconds,
            )
        }
    &&& segment.label@ == date_label(
        epoch_seconds(segment.points@[0].record.timestamp_ms as int),
        offset_seconds,
    )
}

/// Whether `segments` is the segmentation of `recs`: the segments hold the
/// records of the series in order, each is well formed, and each opens on
/// another day than the one before it opened on, so that no segment could
/// have taken more.
pub open spec fn is_segmentation(
    segments: Seq<DaySegment>,
    recs: Seq<Record>,
    offset_seconds: int,
) -> bool {
    &&& joined(segments) == recs
    &&& forall|s: int|
        0 <= s < segments.len() ==> is_day_segment(#[trigger] segments[s], offset_seconds)
    &&& forall|s: int|
        0 < s < segments.len() ==> day_of_record(
            (#[trigger] segments[s]).points@[0].record,
            offset_seconds,
        ) != day_of_record(segments[s - 1].points@[0].record, offset_seconds)
}

/// Where the segment of number `s` begins in the joined series.
pub open spec fn segment_start(segments: Seq<DaySegment>, s: int) -> int {
    joined(segments.take(s)).len() as int
}

/// The record of number `i` of the segment of number `s` stands in the
/// joined series at the segment's start plus `i`.
pub proof fn lemma_joined_at(segments: Seq<DaySegment>, s: int, i: int)
    requires
        0 <= s < segments.len(),
        0 <= i < segments[s].points@.len(),
    ensures
        0 <= segment_start(segments, s) + i < joined(segments).len(),
        joined(segments)[segment_start(segments, s) + i] == segments[s].points@[i].record,
    decreases segments.len(),
{
    let front = segments.drop_last();
    if s == segments.len() - 1 {
        assert(segments.take(s) =~= front);
    } else {
        lemma_joined_at(front, s, i);
        assert(front.take(s) =~= segments.take(s));
    }
}

/// A later segment begins where an earlier one has ended, or after.
pub proof fn lemma_segment_starts(segments: Seq<DaySegment>, s: int, t: int)
    requires
        0 <= s < t <= segments.len(),
    ensures
        segment_start(segments, s) + segments[s].points@.len() <= segment_start(segments, t),
    decreases t,
{
    let upto = segments.take(t);
    assert(upto.drop_last() =~= segments.take(t - 1));
    if s < t - 1 {
        lemma_segment_starts(segments, s, t - 1);
    }
}

/// The segments of a chronological series are chronological themselves:
/// within a segment and from one segment to a later one, no record is
/// earlier than one before it.
pub proof fn lemma_segments_in_order(
    segments: Seq<DaySegment>,
    recs: Seq<Record>,
    offset_seconds: int,
)
    requires
        sorted_by_time(recs),
        is_segmentation(segments, recs, offset_seconds),
    ensures
        forall|s: int, i: int, t: int, j: int|
            #![trigger segments[s].points@[i], segments[t].points@[j]]
            0 <= s < segments.len() && 0 <= i < segments[s].points@.len() && 0 <= t
                < segments.len() && 0 <= j < segments[t].points@.len() && (s < t || (s == t && i
                <= j)) ==> segments[s].points@[i].record.timestamp_ms
                <= segments[t].points@[j].record.timestamp_ms,
{
    assert forall|s: int, i: int, t: int, j: int|
        #![trigger segments[s].points@[i], segments[t].points@[j]]
        0 <= s < segments.len() && 0 <= i < segments[s].points@.len() && 0 <= t < segments.len()
            && 0 <= j < segments[t].points@.len() && (s < t || (s == t && i
            <= j)) implies segments[s].points@[i].record.timestamp_ms
        <= segments[t].points@[j].record.timestamp_ms by {
        lemma_joined_at(segments, s, i);
        lemma_joined_at(segments, t, j);
        if s < t {
            lemma_segment_starts(segments, s, t);
        }
    }
}

/// Tests whether every record of the series can be given a date at the offset.
pub fn check_datable(recs: &Vec<Record>, utc_offset_seconds: i32) -> (b: bool)
    ensures
        b == all_datable(recs@, utc_offset_seconds as int),
{
    let mut i: usize = 0;
    while i < recs.len()
        invariant
            i <= recs.len(),
            all_datable(recs@.take(i as int), utc_offset_seconds as int),
        decreases recs.len() - i,
    {
        let seconds: i64 = seconds_of(recs[i].timestamp_ms);
        if !is_datable(seconds, utc_offset_seconds) {
            return false;
        }
        assert forall|k: int| 0 <= k < i + 1 implies datable(
            epoch_seconds((#[trigger] recs@.take(i + 1)[k]).timestamp_ms as int),
            utc_offset_seconds as int,
        ) by {
            if k < i {
                assert(recs@.take(i as int)[k] == recs@.take(i + 1)[k]);
            }
        }
        i = i + 1;
    }
    assert(recs@.take(recs.len() as int) =~= recs@);
    true
}

/// Splits a series into its day segments at the given offset from UTC.
///
/// Returns `None` where a record cannot be given a date at the offset.
pub fn segment(recs: &Vec<Record>, utc_offset_seconds: i32) -> (r: Option<Vec<DaySegment>>)
    ensures
        r.is_some() == all_datable(recs@, utc_offset_seconds as int),
        r matches Some(segments) ==> is_segmentation(
            segments@,
            recs@,
            utc_offset_seconds as int,
        ),
{
    if !check_datable(recs, utc_offset_seconds) {
        return None;
    }
    let ghost offset = utc_offset_seconds as int;
    let n: usize = recs.len();
    let mut segments: Vec<DaySegment> = Vec::new();
    let mut start: usize = 0;
    assert(joined(segments@) =~= recs@.take(0));
    while start < n
        invariant
            n == recs.len(),
            start <= n,
            offset == utc_offset_seconds as int,
            all_datable(recs@, offset),
            is_segmentation(segments@, recs@.take(start as int), offset),
            segments.len() > 0 && start < n ==> day_of_record(recs[start as int], offset) != day_of_record(
                segments@.last().points@[0].record,
                offset,
            ),
        decreases n - start,
    {
        let opening_seconds: i64 = seconds_of(recs[start].timestamp_ms);
        let day: i64 = day_of(opening_seconds, utc_offset_seconds);
        let label: String = chrono_date(opening_seconds, utc_offset_seconds, "%Y-%m-%d");
        let mut points: Vec<DayPoint> = Vec::new();
        let mut i: usize = start;
        let mut same_day: bool = true;
        while same_day && i < n
            invariant
                n == recs.len(),
                start < n,
                start <= i <= n,
                offset == utc_offset_seconds as int,
                all_datable(recs@, offset),
                day == day_of_record(recs[start as int], offset),
                points@.len() == i - start,
                forall|k: int|
                    0 <= k < points@.len() ==> {
                        &&& #[trigger] points@[k] == point_of(recs[start + k], offset)
                        &&& day_of_record(recs[start + k], offset) == day
                    },
                !same_day ==> i < n && day_of_record(recs[i as int], offset) != day,
            decreases n - i + if same_day { 1int } else { 0int },
        {
            let record: Record = recs[i];
            let seconds: i64 = seconds_of(record.timestamp_ms);
            if day_of(seconds, utc_offset_seconds) != day {
                same_day = false;
            } else {
                let (hour, minute) = time_of_day(seconds, utc_offset_seconds);
                let ghost taken = points@;
                points.push(DayPoint { record, hour, minute });
                proof {
                    assert forall|k: int| 0 <= k < points@.len() implies {
                        &&& #[trigger] points@[k] == point_of(recs[start + k], offset)
                        &&& day_of_record(recs[start + k], offset) == day
                    } by {
                        if k < taken.len() {
                            assert(points@[k] == taken[k]);
                        }
                    }
                }
                i = i + 1;
            }
        }
        let ghost before = segments@;
        let day_segment = DaySegment { label, points };
        proof {
            assert(records_of(day_segment) =~= recs@.subrange(start as int, i as int));
            assert(recs@.take(start as int) + recs@.subrange(start as int, i as int) =~= recs@.take(
                i as int,
            ));
            assert(day_segment.points@[0].record == recs[start as int]);
            assert(is_day_segment(day_segment, offset));
        }
        segments.push(day_segment);
        proof {
            assert(segments@.drop_last() =~= before);
            assert forall|s: int| 0 <= s < segments@.len() implies is_day_segment(
                #[trigger] segments@[s],
                offset,
            ) by {
                if s < before.len() {
                    assert(segments@[s] == before[s]);
                }
            }
            assert forall|s: int| 0 < s < segments@.len() implies day_of_record(
                (#[trigger] segments@[s]).points@[0].record,
                offset,
            ) != day_of_record(segments@[s - 1].points@[0].record, offset) by {
                if s < before.len() {
                    assert(segments@[s] == before[s]);
                    assert(segments@[s - 1] == before[s - 1]);
                } else {
                    assert(segments@[s - 1] == before.last());
                }
            }
        }
        start = i;
    }
    assert(recs@.take(n as int) =~= recs@);
    Some(segments)
}

} // verus!

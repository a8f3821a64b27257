//! Averaging of a chronological series over consecutive windows of fixed length.
//!
//! A window opens at the record under the cursor and takes every following
//! record until one lies a full window length or more past the opening
//! record. The bucket of a window carries the opening timestamp and the means
//! of current and voltage over the records taken.

use vstd::prelude::*;
use crate::record::Record;

verus! {

/// The number of records that must remain unconsumed for one more window to open.
pub const TAIL_GUARD: usize = 20;

/// Ascending by timestamp.
pub open spec fn sorted_by_time(recs: Seq<Record>) -> bool {
    forall|i: int, j: int| 0 <= i <= j < recs.len() ==> recs[i].timestamp_ms <= recs[j].timestamp_ms
}

/// Where a window that opened at time `t0` closes when scanned on from
/// `from`: the first position whose record is `window_ms` or more past `t0`,
/// or the end of the series.
pub open spec fn window_end(recs: Seq<Record>, t0: int, from: int, window_ms: int) -> int
    decreases recs.len() - from,
{
    if from < 0 || from >= recs.len() {
        from
    } else if recs[from].timestamp_ms - t0 >= window_ms {
        from
    } else {
        window_end(recs, t0, from + 1, window_ms)
    }
}

/// Sum of the currents of the records from `from` up to, not including, `to`.
pub open spec fn sum_current(recs: Seq<Record>, from: int, to: int) -> int
    decreases to - from,
{
    if to <= from {
        0
    } else {
        sum_current(recs, from, to - 1) + recs[to - 1].current_ua
    }
}

/// Sum of the voltages of the records from `from` up to, not including, `to`.
pub open spec fn sum_voltage(recs: Seq<Record>, from: int, to: int) -> int
    decreases to - from,
{
    if to <= from {
        0
    } else {
        sum_voltage(recs, from, to - 1) + recs[to - 1].voltage_uv
    }
}

/// The mean of `count` values with the given sum, cut off toward zero; zero
/// when there are no values.
pub open spec fn mean(sum: int, count: int) -> int {
    if count <= 0 {
        0
    } else if sum >= 0 {
        sum / count
    } else {
        -((-sum) / count)
    }
}

/// The bucket of the window that opens at `start` and closes at `end`.
pub open spec fn bucket(recs: Seq<Record>, start: int, end: int) -> Record {
    Record {
        timestamp_ms: recs[start].timestamp_ms,
        current_ua: mean(sum_current(recs, start, end), end - start) as i64,
        voltage_uv: mean(sum_voltage(recs, start, end), end - start) as i64,
    }
}

/// Where the window that opens at `start` closes.
pub open spec fn window_close(recs: Seq<Record>, start: int, window_ms: int) -> int {
    window_end(recs, recs[start].timestamp_ms as int, start, window_ms)
}

/// The buckets of the series from the cursor `start` on: one for the window
/// at the cursor, and the buckets from where it closes on while at least
/// `TAIL_GUARD` records remain there.
pub open spec fn averaged_from(recs: Seq<Record>, start: int, window_ms: int) -> Seq<Record>
    decreases recs.len() - start,
{
    if start < 0 || start >= recs.len() {
        Seq::empty()
    } else {
        let end = window_close(recs, start, window_ms);
        let first = seq![bucket(recs, start, end)];
        if start < end && recs.len() - end >= TAIL_GUARD {
            first + averaged_from(recs, end, window_ms)
        } else {
            first
        }
    }
}

/// The buckets of a whole series.
pub open spec fn averaged(recs: Seq<Record>, window_ms: int) -> Seq<Record> {
    averaged_from(recs, 0, window_ms)
}

/// A window closes within the series, every record it takes is less than a
/// window length past `t0`, and the record it closes at is not.
pub proof fn lemma_window_end(recs: Seq<Record>, t0: int, from: int, window_ms: int)
    requires
        0 <= from <= recs.len(),
    ensures
        from <= window_end(recs, t0, from, window_ms) <= recs.len(),
        forall|k: int|
            from <= k < window_end(recs, t0, from, window_ms) ==> (#[trigger] recs[k]).timestamp_ms
                - t0 < window_ms,
        window_end(recs, t0, from, window_ms) < recs.len() ==> recs[window_end(
            recs,
            t0,
            from,
            window_ms,
        )].timestamp_ms - t0 >= window_ms,
    decreases recs.len() - from,
{
    if from < recs.len() && recs[from].timestamp_ms - t0 < window_ms {
        lemma_window_end(recs, t0, from + 1, window_ms);
    }
}

/// A window of positive length takes at least the record it opens at.
pub proof fn lemma_window_advances(recs: Seq<Record>, start: int, window_ms: int)
    requires
        0 <= start < recs.len(),
        window_ms > 0,
    ensures
        start < window_close(recs, start, window_ms) <= recs.len(),
{
    lemma_window_end(recs, recs[start].timestamp_ms as int, start + 1, window_ms);
}

/// In a sorted series a window takes exactly the records from its opening
/// record on that lie less than a window length past it: windows leave no
/// gap and do not overlap.
pub proof fn lemma_window_covers(recs: Seq<Record>, start: int, window_ms: int)
    requires
        sorted_by_time(recs),
        0 <= start < recs.len(),
    ensures
        forall|k: int|
            start <= k < recs.len() ==> (k < window_close(recs, start, window_ms) <==> (
            #[trigger] recs[k]).timestamp_ms - recs[start].timestamp_ms < window_ms),
{
    let t0 = recs[start].timestamp_ms as int;
    let end = window_close(recs, start, window_ms);
    lemma_window_end(recs, t0, start, window_ms);
    assert forall|k: int| start <= k < recs.len() implies (k < end <==> (
    #[trigger] recs[k]).timestamp_ms - t0 < window_ms) by {
        if k >= end {
            assert(recs[end].timestamp_ms <= recs[k].timestamp_ms);
        }
    }
}

/// The tail guard: where fewer than `TAIL_GUARD` records remain after a
/// window closes, its bucket is the last; otherwise the next window opens
/// where this one closed.
pub proof fn lemma_tail_guard(recs: Seq<Record>, start: int, window_ms: int)
    requires
        0 <= start < recs.len(),
        window_ms > 0,
    ensures
        ({
            let end = window_close(recs, start, window_ms);
            let rest = averaged_from(recs, start, window_ms);
            &&& rest.len() >= 1
            &&& rest[0] == bucket(recs, start, end)
            &&& recs.len() - end < TAIL_GUARD ==> rest.len() == 1
            &&& recs.len() - end >= TAIL_GUARD ==> rest.len() >= 2 && rest[1].timestamp_ms
                == recs[end].timestamp_ms
        }),
{
    lemma_window_advances(recs, start, window_ms);
    let end = window_close(recs, start, window_ms);
    if recs.len() - end >= TAIL_GUARD {
        lemma_window_advances(recs, end, window_ms);
        let further = averaged_from(recs, end, window_ms);
        assert(further.len() >= 1);
        assert(further[0].timestamp_ms == recs[end].timestamp_ms);
    }
}

proof fn lemma_quotient_bound(sum: int, count: int, bound: int)
    by (nonlinear_arith)
    requires
        count > 0,
        0 <= sum <= bound * count,
    ensures
        0 <= sum / count <= bound,
{
}

/// The mean of `count` values of 64 bits whose sum is `sum`.
fn mean_of(sum: i128, count: usize) -> (m: i64)
    requires
        i64::MIN * count <= sum <= i64::MAX * count,
    ensures
        m == mean(sum as int, count as int),
{
    if count == 0 {
        0
    } else if sum >= 0 {
        proof {
            lemma_quotient_bound(sum as int, count as int, i64::MAX as int);
        }
        let quotient: u128 = (sum as u128) / (count as u128);
        quotient as i64
    } else {
        proof {
            lemma_quotient_bound(-sum, count as int, -(i64::MIN as int));
        }
        let quotient: u128 = ((-sum) as u128) / (count as u128);
        (-(quotient as i128)) as i64
    }
}

/// Takes one window: scans from `start_index` while the records lie less
/// than `delta_time_ms` past the record at `start_index`, and returns where
/// the window closes together with its bucket.
pub fn take_avg(recs: &Vec<Record>, start_index: usize, delta_time_ms: i64) -> (res: (usize, Record))
    requires
        start_index < recs.len(),
    ensures
        res.0 == window_close(recs@, start_index as int, delta_time_ms as int),
        start_index <= res.0 <= recs.len(),
        res.1 == bucket(recs@, start_index as int, res.0 as int),
        forall|k: int|
            start_index <= k < res.0 ==> (#[trigger] recs[k]).timestamp_ms
                - recs[start_index as int].timestamp_ms < delta_time_ms,
        res.0 < recs.len() ==> recs[res.0 as int].timestamp_ms
            - recs[start_index as int].timestamp_ms >= delta_time_ms,
{
    let start_time: i64 = recs[start_index].timestamp_ms;
    let mut rec_index: usize = start_index;
    let mut current_acc: i128 = 0;
    let mut voltage_acc: i128 = 0;
    proof {
        lemma_window_end(recs@, start_time as int, start_index as int, delta_time_ms as int);
    }
    while rec_index < recs.len()
        invariant
            start_index <= rec_index <= recs.len(),
            start_time == recs[start_index as int].timestamp_ms,
            window_end(recs@, start_time as int, rec_index as int, delta_time_ms as int)
                == window_close(recs@, start_index as int, delta_time_ms as int),
            current_acc == sum_current(recs@, start_index as int, rec_index as int),
            voltage_acc == sum_voltage(recs@, start_index as int, rec_index as int),
            i64::MIN * (rec_index - start_index) <= current_acc <= i64::MAX * (rec_index
                - start_index),
            i64::MIN * (rec_index - start_index) <= voltage_acc <= i64::MAX * (rec_index
                - start_index),
        ensures
            start_index <= rec_index <= recs.len(),
            rec_index == window_close(recs@, start_index as int, delta_time_ms as int),
            current_acc == sum_current(recs@, start_index as int, rec_index as int),
            voltage_acc == sum_voltage(recs@, start_index as int, rec_index as int),
            i64::MIN * (rec_index - start_index) <= current_acc <= i64::MAX * (rec_index
                - start_index),
            i64::MIN * (rec_index - start_index) <= voltage_acc <= i64::MAX * (rec_index
                - start_index),
        decreases recs.len() - rec_index,
    {
        let rec: Record = recs[rec_index];
        if rec.timestamp_ms as i128 - start_time as i128 >= delta_time_ms as i128 {
            break;
        }
        current_acc = current_acc + rec.current_ua as i128;
        voltage_acc = voltage_acc + rec.voltage_uv as i128;
        rec_index = rec_index + 1;
    }
    let count: usize = rec_index - start_index;
    let record = Record {
        timestamp_ms: start_time,
        current_ua: mean_of(current_acc, count),
        voltage_uv: mean_of(voltage_acc, count),
    };
    (rec_index, record)
}

/// Averages a chronological series over consecutive windows of `window_ms`
/// milliseconds. An empty series has no buckets. Otherwise the first window
/// opens at the first record, and each further window opens where the one
/// before closed, as long as at least `TAIL_GUARD` records remain there; the
/// records after the last window are left out.
pub fn average(recs: &Vec<Record>, window_ms: i64) -> (out: Vec<Record>)
    requires
        window_ms > 0,
    ensures
        out@ == averaged(recs@, window_ms as int),
        recs.len() == 0 ==> out.len() == 0,
        recs.len() > 0 ==> out.len() > 0 && out[0].timestamp_ms == recs[0].timestamp_ms,
{
    let mut out: Vec<Record> = Vec::new();
    if recs.len() == 0 {
        return out;
    }
    let mut next_index: usize = 0;
    loop
        invariant_except_break
            next_index < recs.len(),
            out@ + averaged_from(recs@, next_index as int, window_ms as int) == averaged(
                recs@,
                window_ms as int,
            ),
            next_index == 0 <==> out.len() == 0,
            out.len() > 0 ==> out[0].timestamp_ms == recs[0].timestamp_ms,
        invariant
            window_ms > 0,
            recs.len() > 0,
        ensures
            out@ == averaged(recs@, window_ms as int),
            out.len() > 0,
            out[0].timestamp_ms == recs[0].timestamp_ms,
        decreases recs.len() - next_index,
    {
        let (end, record) = take_avg(recs, next_index, window_ms);
        proof {
            lemma_window_advances(recs@, next_index as int, window_ms as int);
        }
        out.push(record);
        if recs.len() - end < TAIL_GUARD {
            break;
        }
        next_index = end;
    }
    out
}

} // verus!

//! Civil time of an instant at a fixed offset from UTC.
//!
//! An instant is a number of whole seconds since the epoch. The day it falls
//! on and its time of day are plain arithmetic; the text of its calendar
//! date is asked of `chrono`.

use vstd::prelude::*;

verus! {

/// Offsets from UTC lie strictly within a day, in seconds, on either side.
pub const OFFSET_LIMIT: i32 = 86_400;

/// Instants are dated within this many seconds of the epoch, on either side.
pub const SECONDS_LIMIT: i64 = 100_000_000_000;

pub const SECONDS_PER_DAY: i64 = 86_400;

/// Whether the instant can be given a date at the offset.
pub open spec fn datable(epoch_seconds: int, offset_seconds: int) -> bool {
    &&& -OFFSET_LIMIT < offset_seconds < OFFSET_LIMIT
    &&& -SECONDS_LIMIT <= epoch_seconds <= SECONDS_LIMIT
}

/// Whole seconds of a timestamp in milliseconds, cut off toward zero.
pub open spec fn epoch_seconds(timestamp_ms: int) -> int {
    if timestamp_ms >= 0 {
        timestamp_ms / 1000
    } else {
        -((-timestamp_ms) / 1000)
    }
}

/// The number of the local day, counted from the day of the epoch.
pub open spec fn day_number(epoch_seconds: int, offset_seconds: int) -> int {
    (epoch_seconds + offset_seconds) / (SECONDS_PER_DAY as int)
}

/// Seconds since local midnight.
pub open spec fn second_of_day(epoch_seconds: int, offset_seconds: int) -> int {
    (epoch_seconds + offset_seconds) % (SECONDS_PER_DAY as int)
}

/// The hour of the local time of day, from 0 to 23.
pub open spec fn hour_of_day(epoch_seconds: int, offset_seconds: int) -> int {
    second_of_day(epoch_seconds, offset_seconds) / 3600
}

/// The minute of the local hour, from 0 to 59.
pub open spec fn minute_of_hour(epoch_seconds: int, offset_seconds: int) -> int {
    (second_of_day(epoch_seconds, offset_seconds) % 3600) / 60
}

/// The local calendar date written as year, month and day with hyphens between.
pub uninterp spec fn date_label(epoch_seconds: int, offset_seconds: int) -> Seq<char>;

/// `chrono::DateTime::format` of the instant seen at the offset. The
/// pattern is the one for year, month and day, and the result the text of
/// the local date.
#[verifier::external_body]
pub(crate) fn chrono_date(epoch_seconds: i64, offset_seconds: i32, pattern: &str) -> (label: String)
    requires
        datable(epoch_seconds as int, offset_seconds as int),
        pattern@ == "%Y-%m-%d"@,
    ensures
        label@ == date_label(epoch_seconds as int, offset_seconds as int),
{
    let zone = chrono::FixedOffset::east_opt(offset_seconds).unwrap();
    let instant = chrono::DateTime::from_timestamp(epoch_seconds, 0).unwrap();
    instant.with_timezone(&zone).format(pattern).to_string()
}

/// Whole seconds of a timestamp in milliseconds.
pub fn seconds_of(timestamp_ms: i64) -> (seconds: i64)
    ensures
        seconds == epoch_seconds(timestamp_ms as int),
{
    if timestamp_ms >= 0 {
        timestamp_ms / 1000
    } else {
        let magnitude: i128 = -(timestamp_ms as i128);
        (-(magnitude / 1000)) as i64
    }
}

/// Tests whether the instant can be given a date at the offset.
pub fn is_datable(epoch_seconds: i64, offset_seconds: i32) -> (b: bool)
    ensures
        b == datable(epoch_seconds as int, offset_seconds as int),
{
    -OFFSET_LIMIT < offset_seconds && offset_seconds < OFFSET_LIMIT && -SECONDS_LIMIT
        <= epoch_seconds && epoch_seconds <= SECONDS_LIMIT
}

/// The text of the local date; `None` where the instant cannot be given a date.
pub fn local_date(epoch_seconds: i64, offset_seconds: i32) -> (label: Option<String>)
    ensures
        label.is_some() == datable(epoch_seconds as int, offset_seconds as int),
        label matches Some(text) ==> text@ == date_label(
            epoch_seconds as int,
            offset_seconds as int,
        ),
{
    if is_datable(epoch_seconds, offset_seconds) {
        Some(chrono_date(epoch_seconds, offset_seconds, "%Y-%m-%d"))
    } else {
        None
    }
}

/// A whole number of days that lifts every datable local time above zero.
const LIFT_DAYS: i64 = 1_157_409;

/// The number of the local day, counted from the day of the epoch.
pub fn day_of(epoch_seconds: i64, offset_seconds: i32) -> (day: i64)
    requires
        datable(epoch_seconds as int, offset_seconds as int),
    ensures
        day == day_number(epoch_seconds as int, offset_seconds as int),
{
    let lifted: i64 = epoch_seconds + offset_seconds as i64 + LIFT_DAYS * SECONDS_PER_DAY;
    lifted / SECONDS_PER_DAY - LIFT_DAYS
}

/// The hour and the minute of the local time of day.
pub fn time_of_day(epoch_seconds: i64, offset_seconds: i32) -> (time: (u32, u32))
    requires
        datable(epoch_seconds as int, offset_seconds as int),
    ensures
        time.0 == hour_of_day(epoch_seconds as int, offset_seconds as int),
        time.1 == minute_of_hour(epoch_seconds as int, offset_seconds as int),
        time.0 < 24,
        time.1 < 60,
{
    let lifted: i64 = epoch_seconds + offset_seconds as i64 + LIFT_DAYS * SECONDS_PER_DAY;
    let second: i64 = lifted % SECONDS_PER_DAY;
    assert(second == second_of_day(epoch_seconds as int, offset_seconds as int));
    ((second / 3600) as u32, ((second % 3600) / 60) as u32)
}

} // verus!

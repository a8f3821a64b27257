//! Samples of the power monitor and the line format they are read from.
//!
//! A line is `timestamp;current;voltage`: three numerals separated by
//! semicolons. The timestamp is in seconds since the epoch and is kept in
//! whole milliseconds; current and voltage are in amperes and volts and are
//! kept in whole microamperes and microvolts.

use vstd::prelude::*;
use vstd::slice::slice_subrange;
use vstd::string::StringSliceAdditionalSpecFns;
use crate::decimal::{is_numeral, parse_scaled, scaled_value};
use crate::notation::{
    lemma_numeral_text_bytes, lemma_numeral_text_reads, numeral_text, write_scaled,
};
use crate::text::{find_byte, index_of, lemma_index_of_is};

verus! {

/// The byte that separates the fields of a line.
pub const SEPARATOR: u8 = 59;

/// Decimal places kept of the timestamp: milliseconds.
pub const TIMESTAMP_PLACES: u32 = 3;

/// Decimal places kept of current and voltage: millionths.
pub const VALUE_PLACES: u32 = 6;

/// Earliest timestamp of a sample, in milliseconds.
pub const TIMESTAMP_MIN_MS: i64 = 1_000_000_000_000;

/// Latest timestamp of a sample, in milliseconds.
pub const TIMESTAMP_MAX_MS: i64 = 2_000_000_000_000;

/// Least current of a sample: -15 A.
pub const CURRENT_MIN_UA: i64 = -15_000_000;

/// Greatest current of a sample: 15 A.
pub const CURRENT_MAX_UA: i64 = 15_000_000;

/// Least voltage of a sample: 5 V.
pub const VOLTAGE_MIN_UV: i64 = 5_000_000;

/// Greatest voltage of a sample: 16 V.
pub const VOLTAGE_MAX_UV: i64 = 16_000_000;

/// One sample, or one average over a window of samples. Records compare by
/// timestamp alone.
#[derive(Clone, Copy, Debug)]
pub struct Record {
    /// Milliseconds since the epoch, UTC.
    pub timestamp_ms: i64,
    /// Current in microamperes.
    pub current_ua: i64,
    /// Voltage in microvolts.
    pub voltage_uv: i64,
}

/// The bounds that every stored sample keeps.
pub open spec fn within_bounds(timestamp_ms: int, current_ua: int, voltage_uv: int) -> bool {
    &&& TIMESTAMP_MIN_MS <= timestamp_ms <= TIMESTAMP_MAX_MS
    &&& CURRENT_MIN_UA <= current_ua <= CURRENT_MAX_UA
    &&& VOLTAGE_MIN_UV <= voltage_uv <= VOLTAGE_MAX_UV
}

/// The three fields of a line: `None` unless the line holds exactly two separators.
pub open spec fn fields_of(line: Seq<u8>) -> Option<(Seq<u8>, Seq<u8>, Seq<u8>)> {
    let first = index_of(line, SEPARATOR);
    let rest = line.skip(first + 1);
    let second = index_of(rest, SEPARATOR);
    let last = rest.skip(second + 1);
    if first < line.len() && second < rest.len() && index_of(last, SEPARATOR) == last.len() {
        Some((line.take(first), rest.take(second), last))
    } else {
        None
    }
}

/// The sample that a line denotes: `None` when the line does not have three
/// fields, when a field is not a numeral, or when a value is out of bounds.
pub open spec fn parse_line(line: Seq<u8>) -> Option<Record> {
    match fields_of(line) {
        Some((timestamp, current, voltage)) => {
            let timestamp_ms = scaled_value(timestamp, TIMESTAMP_PLACES as nat);
            let current_ua = scaled_value(current, VALUE_PLACES as nat);
            let voltage_uv = scaled_value(voltage, VALUE_PLACES as nat);
            if is_numeral(timestamp) && is_numeral(current) && is_numeral(voltage)
                && within_bounds(timestamp_ms, current_ua, voltage_uv) {
                Some(
                    Record {
                        timestamp_ms: timestamp_ms as i64,
                        current_ua: current_ua as i64,
                        voltage_uv: voltage_uv as i64,
                    },
                )
            } else {
                None
            }
        },
        None => None,
    }
}

/// The bounds are kept: every accepted line gives a record within them,
/// and a line with a value out of bounds is rejected whatever else it holds.
pub proof fn lemma_bounds_are_kept(line: Seq<u8>)
    ensures
        parse_line(line) matches Some(record) ==> record.in_bounds(),
        fields_of(line) matches Some((timestamp, current, voltage)) ==> (!within_bounds(
            scaled_value(timestamp, TIMESTAMP_PLACES as nat),
            scaled_value(current, VALUE_PLACES as nat),
            scaled_value(voltage, VALUE_PLACES as nat),
        ) ==> parse_line(line).is_none()),
{
}

/// The line that a record is written as: its three values as numerals with
/// separators between them.
pub open spec fn line_of(record: Record) -> Seq<u8> {
    numeral_text(record.timestamp_ms as int, TIMESTAMP_PLACES as nat) + seq![SEPARATOR]
        + numeral_text(record.current_ua as int, VALUE_PLACES as nat) + seq![SEPARATOR]
        + numeral_text(record.voltage_uv as int, VALUE_PLACES as nat)
}

/// Whether the separator occurs nowhere in `field`.
pub open spec fn free_of_separator(field: Seq<u8>) -> bool {
    forall|i: int| 0 <= i < field.len() ==> field[i] != SEPARATOR
}

/// Three fields without a separator in them, joined by separators, are the
/// fields of the line they make.
pub proof fn lemma_fields_of_joined(a: Seq<u8>, b: Seq<u8>, c: Seq<u8>)
    requires
        free_of_separator(a),
        free_of_separator(b),
        free_of_separator(c),
    ensures
        fields_of(a + seq![SEPARATOR] + b + seq![SEPARATOR] + c) == Some((a, b, c)),
{
    let line = a + seq![SEPARATOR] + b + seq![SEPARATOR] + c;
    assert forall|k: int| 0 <= k < a.len() implies line[k] != SEPARATOR by {
        assert(line[k] == a[k]);
    }
    lemma_index_of_is(line, SEPARATOR, a.len() as int);
    let rest = line.skip(a.len() as int + 1);
    assert(rest =~= b + seq![SEPARATOR] + c);
    assert forall|k: int| 0 <= k < b.len() implies rest[k] != SEPARATOR by {
        assert(rest[k] == b[k]);
    }
    lemma_index_of_is(rest, SEPARATOR, b.len() as int);
    let last = rest.skip(b.len() as int + 1);
    assert(last =~= c);
    lemma_index_of_is(last, SEPARATOR, c.len() as int);
    assert(line.take(a.len() as int) =~= a);
    assert(rest.take(b.len() as int) =~= b);
}

proof fn lemma_numeral_free_of_separator(v: int, places: nat)
    ensures
        free_of_separator(numeral_text(v, places)),
{
    lemma_numeral_text_bytes(v, places);
    let text = numeral_text(v, places);
    assert forall|i: int| 0 <= i < text.len() implies text[i] != SEPARATOR by {
        let b = text[i];
    }
}

/// Writing and reading. The line that a record is written as reads as that
/// record where the record is within the bounds, and is rejected where it is
/// not.
pub proof fn lemma_write_then_read(record: Record)
    ensures
        record.in_bounds() ==> parse_line(line_of(record)) == Some(record),
        !record.in_bounds() ==> parse_line(line_of(record)).is_none(),
{
    let t = numeral_text(record.timestamp_ms as int, TIMESTAMP_PLACES as nat);
    let c = numeral_text(record.current_ua as int, VALUE_PLACES as nat);
    let v = numeral_text(record.voltage_uv as int, VALUE_PLACES as nat);
    lemma_numeral_free_of_separator(record.timestamp_ms as int, TIMESTAMP_PLACES as nat);
    lemma_numeral_free_of_separator(record.current_ua as int, VALUE_PLACES as nat);
    lemma_numeral_free_of_separator(record.voltage_uv as int, VALUE_PLACES as nat);
    lemma_fields_of_joined(t, c, v);
    lemma_numeral_text_reads(record.timestamp_ms as int, TIMESTAMP_PLACES as nat);
    lemma_numeral_text_reads(record.current_ua as int, VALUE_PLACES as nat);
    lemma_numeral_text_reads(record.voltage_uv as int, VALUE_PLACES as nat);
}

/// Reading, writing and reading again. Every accepted line gives a record
/// within the bounds, and the line that this record is written as reads as
/// the same record: the three values come back as they were read.
pub proof fn lemma_read_write_read(line: Seq<u8>)
    ensures
        parse_line(line) matches Some(record) ==> record.in_bounds() && parse_line(
            line_of(record),
        ) == Some(record),
{
    if let Some(record) = parse_line(line) {
        lemma_write_then_read(record);
    }
}

impl Record {
    pub open spec fn in_bounds(self) -> bool {
        within_bounds(self.timestamp_ms as int, self.current_ua as int, self.voltage_uv as int)
    }

    /// Reads one line of text. A rejected line yields `None`.
    pub fn new(line: &str) -> (r: Option<Record>)
        ensures
            r == parse_line(line.spec_bytes()),
            r matches Some(record) ==> record.in_bounds(),
    {
        Record::from_bytes(line.as_bytes())
    }

    /// Reads one line given as bytes. A rejected line yields `None`.
    pub fn from_bytes(line: &[u8]) -> (r: Option<Record>)
        ensures
            r == parse_line(line@),
            r matches Some(record) ==> record.in_bounds(),
    {
        let n: usize = line.len();
        assert(line@.skip(0) =~= line@);
        let first: usize = find_byte(line, 0, SEPARATOR);
        if first >= n {
            return None;
        }
        let second: usize = find_byte(line, first + 1, SEPARATOR);
        if second >= n {
            return None;
        }
        let third: usize = find_byte(line, second + 1, SEPARATOR);
        proof {
            let rest = line@.skip(first + 1);
            assert(rest.skip(second - first) =~= line@.skip(second + 1));
            assert(rest.take(second - first - 1) =~= line@.subrange(first + 1, second as int));
            assert(line@.take(first as int) =~= line@.subrange(0, first as int));
            assert(line@.skip(second + 1) =~= line@.subrange(second + 1, n as int));
        }
        if third < n {
            return None;
        }
        let timestamp = parse_scaled(slice_subrange(line, 0, first), TIMESTAMP_PLACES);
        let current = parse_scaled(slice_subrange(line, first + 1, second), VALUE_PLACES);
        let voltage = parse_scaled(slice_subrange(line, second + 1, n), VALUE_PLACES);
        match (timestamp, current, voltage) {
            (Some(timestamp_ms), Some(current_ua), Some(voltage_uv)) => {
                if TIMESTAMP_MIN_MS <= timestamp_ms && timestamp_ms <= TIMESTAMP_MAX_MS
                    && CURRENT_MIN_UA <= current_ua && current_ua <= CURRENT_MAX_UA
                    && VOLTAGE_MIN_UV <= voltage_uv && voltage_uv <= VOLTAGE_MAX_UV {
                    Some(Record { timestamp_ms, current_ua, voltage_uv })
                } else {
                    None
                }
            },
            _ => None,
        }
    }

    /// Writes the record as a line, without a line terminator.
    pub fn to_line(&self) -> (line: Vec<u8>)
        ensures
            line@ == line_of(*self),
    {
        let mut line: Vec<u8> = Vec::new();
        write_scaled(&mut line, self.timestamp_ms, TIMESTAMP_PLACES);
        line.push(SEPARATOR);
        write_scaled(&mut line, self.current_ua, VALUE_PLACES);
        line.push(SEPARATOR);
        write_scaled(&mut line, self.voltage_uv, VALUE_PLACES);
        assert(line@ =~= line_of(*self));
        line
    }
}

} // verus!

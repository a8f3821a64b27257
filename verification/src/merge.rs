//! The chronological merge: all gathered samples in one series, ascending by
//! timestamp.

use vstd::prelude::*;
use crate::average::sorted_by_time;
use crate::record::Record;

verus! {

/// The records of a series that carry the timestamp `timestamp_ms`, in the
/// order of the series.
pub open spec fn at_time(recs: Seq<Record>, timestamp_ms: int) -> Seq<Record> {
    recs.filter(|record: Record| record.timestamp_ms == timestamp_ms)
}

/// `<[T]>::sort_by_key` with the timestamp as the key: the vector is
/// reordered in place, ascending by key, and records with equal keys keep
/// the order they had.
#[verifier::external_body]
fn sort_by_timestamp(records: &mut Vec<Record>)
    ensures
        final(records)@.to_multiset() == old(records)@.to_multiset(),
        sorted_by_time(final(records)@),
        forall|timestamp_ms: int| #[trigger]
            at_time(final(records)@, timestamp_ms) == at_time(old(records)@, timestamp_ms),
{
    records.sort_by_key(|record| record.timestamp_ms)
}

/// Puts the samples in chronological order. No sample is lost or added, and
/// samples of the same timestamp stay in the order in which they came.
pub fn sort_records(records: &mut Vec<Record>)
    ensures
        final(records)@.to_multiset() == old(records)@.to_multiset(),
        final(records)@.len() == old(records)@.len(),
        sorted_by_time(final(records)@),
        forall|timestamp_ms: int| #[trigger]
            at_time(final(records)@, timestamp_ms) == at_time(old(records)@, timestamp_ms),
{
    proof {
        vstd::seq_lib::to_multiset_len(records@);
    }
    sort_by_timestamp(records);
    proof {
        vstd::seq_lib::to_multiset_len(records@);
    }
}

} // verus!

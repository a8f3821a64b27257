//! Comparison of records: by timestamp alone. Two records of the same
//! timestamp compare as equal whatever they measured.

use vstd::prelude::*;
use core::cmp::Ordering;
use crate::record::Record;

verus! {

impl PartialEq for Record {
    fn eq(&self, other: &Record) -> (equal: bool) {
        self.timestamp_ms == other.timestamp_ms
    }
}

impl vstd::std_specs::cmp::PartialEqSpecImpl for Record {
    open spec fn obeys_eq_spec() -> bool {
        true
    }

    open spec fn eq_spec(&self, other: &Record) -> bool {
        self.timestamp_ms == other.timestamp_ms
    }
}

impl Eq for Record {

}

impl PartialOrd for Record {
    fn partial_cmp(&self, other: &Record) -> (order: Option<Ordering>) {
        if self.timestamp_ms < other.timestamp_ms {
            Some(Ordering::Less)
        } else if self.timestamp_ms > other.timestamp_ms {
            Some(Ordering::Greater)
        } else {
            Some(Ordering::Equal)
        }
    }
}

impl vstd::std_specs::cmp::PartialOrdSpecImpl for Record {
    open spec fn obeys_partial_cmp_spec() -> bool {
        true
    }

    open spec fn partial_cmp_spec(&self, other: &Record) -> Option<Ordering> {
        if self.timestamp_ms < other.timestamp_ms {
            Some(Ordering::Less)
        } else if self.timestamp_ms > other.timestamp_ms {
            Some(Ordering::Greater)
        } else {
            Some(Ordering::Equal)
        }
    }
}

} // verus!

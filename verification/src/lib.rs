//! Verified core of a solar power log processor.
//!
//! Log files hold samples of a power monitor, one per line: a timestamp, a
//! current and a voltage. The samples of many files are gathered, put in
//! chronological order, averaged over windows of fixed length, and split
//! into one run per calendar day for charting.
//!
//! - `text`, `decimal`, `notation`: bytes, and numerals read and written as
//!   scaled integers.
//! - `record`: the sample and the line it is read from and written as.
//! - `order`: comparison of samples by timestamp.
//! - `ingest`: reading a compressed log.
//! - `dispatcher`: the queue that hands each log file out once and gathers
//!   the samples.
//! - `merge`: the chronological order.
//! - `average`: averaging over windows.
//! - `calendar`, `segment`: civil time, and the split into days.

pub mod text;
pub mod decimal;
pub mod notation;
pub mod record;
pub mod order;
pub mod ingest;
pub mod dispatcher;
pub mod merge;
pub mod average;
pub mod calendar;
pub mod segment;

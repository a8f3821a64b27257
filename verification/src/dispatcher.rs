//! The job queue of the ingestion: the list of log files, the cursor that
//! hands each of them out once, and the buffer the parsed samples are
//! gathered in. Callers that share a dispatcher put it behind one lock, so
//! that requests and submissions happen one after another.

use vstd::prelude::*;
use vstd::seq_lib::{lemma_multiset_commutative, to_multiset_len, to_multiset_remove};
use crate::ingest::IngestError;
use crate::record::Record;

verus! {

/// What a dispatcher holds, as mathematical values.
pub struct JobQueue {
    /// The log files, in the order in which they are handed out.
    pub files: Seq<Seq<char>>,
    /// The position of the file that the next request gets.
    pub next_index: nat,
    /// The samples submitted so far.
    pub accumulated: Seq<Record>,
}

pub struct Dispatcher {
    files: Vec<String>,
    job_index: usize,
    recs: Vec<Record>,
}

/// Whether `suffix` ends `text`.
pub open spec fn is_suffix(suffix: Seq<char>, text: Seq<char>) -> bool {
    suffix.len() <= text.len() && text.skip(text.len() - suffix.len()) == suffix
}

/// Whether a directory entry names a log file.
pub open spec fn is_log_name(name: Seq<char>) -> bool {
    is_suffix(".log.xz"@, name)
}

/// The entries of a listing that name log files, in the order of the listing.
pub open spec fn log_files(listing: Seq<Seq<char>>) -> Seq<Seq<char>>
    decreases listing.len(),
{
    if listing.len() == 0 {
        Seq::empty()
    } else if is_log_name(listing.last()) {
        log_files(listing.drop_last()).push(listing.last())
    } else {
        log_files(listing.drop_last())
    }
}

/// The names that a vector of strings holds.
pub open spec fn names_of(strings: Seq<String>) -> Seq<Seq<char>> {
    Seq::new(strings.len(), |i: int| strings[i]@)
}

/// What one request returns, and the cursor after it: the file under the
/// cursor and the cursor moved on by one, or nothing and the cursor as it
/// was once every file has been handed out.
pub open spec fn next_job(files: Seq<Seq<char>>, cursor: nat) -> (Option<Seq<char>>, nat) {
    if cursor < files.len() {
        (Some(files[cursor as int]), cursor + 1)
    } else {
        (None, cursor)
    }
}

/// `str::ends_with` for a string pattern: whether the pattern is a suffix of
/// the string.
#[verifier::external_body]
fn ends_with(text: &str, suffix: &str) -> (b: bool)
    ensures
        b == is_suffix(suffix@, text@),
{
    text.ends_with(suffix)
}

impl View for Dispatcher {
    type V = JobQueue;

    closed spec fn view(&self) -> JobQueue {
        JobQueue {
            files: names_of(self.files@),
            next_index: self.job_index as nat,
            accumulated: self.recs@,
        }
    }
}

impl Dispatcher {
    /// A dispatcher without files and without samples.
    pub fn new() -> (d: Dispatcher)
        ensures
            d@.files.len() == 0,
            d@.next_index == 0,
            d@.accumulated.len() == 0,
    {
        Dispatcher { files: Vec::new(), job_index: 0, recs: Vec::new() }
    }

    /// Takes the listing of the log directory and queues the entries that
    /// name log files.
    pub fn set_log_dir(&mut self, listing: &Vec<String>)
        ensures
            final(self)@.files == old(self)@.files + log_files(names_of(listing@)),
            final(self)@.next_index == old(self)@.next_index,
            final(self)@.accumulated == old(self)@.accumulated,
    {
        let mut i: usize = 0;
        while i < listing.len()
            invariant
                i <= listing.len(),
                names_of(self.files@) == names_of(old(self).files@) + log_files(
                    names_of(listing@).take(i as int),
                ),
                self.job_index == old(self).job_index,
                self.recs == old(self).recs,
            decreases listing.len() - i,
        {
            let is_log: bool = ends_with(listing[i].as_str(), ".log.xz");
            proof {
                let seen = names_of(listing@).take(i + 1);
                assert(seen.drop_last() =~= names_of(listing@).take(i as int));
                assert(seen.last() == listing[i as int]@);
            }
            if is_log {
                let ghost before = self.files@;
                self.files.push(listing[i].clone());
                assert(names_of(self.files@) =~= names_of(before).push(listing[i as int]@));
            }
            i = i + 1;
        }
        assert(names_of(listing@).take(listing.len() as int) =~= names_of(listing@));
    }

    /// Hands out the next file, each file once: `None` when no file is left.
    pub fn get_next_job(&mut self) -> (job: Option<String>)
        ensures
            final(self)@.files == old(self)@.files,
            final(self)@.accumulated == old(self)@.accumulated,
            final(self)@.next_index == next_job(old(self)@.files, old(self)@.next_index).1,
            match job {
                Some(name) => next_job(old(self)@.files, old(self)@.next_index).0 == Some(name@),
                None => next_job(old(self)@.files, old(self)@.next_index).0.is_none(),
            },
    {
        let j_idx: usize = self.job_index;
        if j_idx >= self.files.len() {
            None
        } else {
            self.job_index = j_idx + 1;
            Some(self.files[j_idx].clone())
        }
    }

    /// Appends a batch of samples to those gathered so far.
    pub fn append_data(&mut self, data: &Vec<Record>)
        ensures
            final(self)@.accumulated == old(self)@.accumulated + data@,
            final(self)@.files == old(self)@.files,
            final(self)@.next_index == old(self)@.next_index,
    {
        let mut i: usize = 0;
        while i < data.len()
            invariant
                i <= data.len(),
                self.recs@ == old(self).recs@ + data@.take(i as int),
                self.files == old(self).files,
                self.job_index == old(self).job_index,
            decreases data.len() - i,
        {
            self.recs.push(data[i]);
            assert(data@.take(i + 1) =~= data@.take(i as int).push(data[i as int]));
            i = i + 1;
        }
        assert(data@.take(data.len() as int) =~= data@);
    }

    /// Tests that there is work to hand out: an empty queue is an error, to
    /// be reported before any worker starts.
    pub fn check_files(&self) -> (r: Result<(), IngestError>)
        ensures
            self@.files.len() > 0 ==> r.is_ok(),
            self@.files.len() == 0 ==> r == Err::<(), IngestError>(IngestError::NoLogFiles),
    {
        if self.files.len() == 0 {
            Err(IngestError::NoLogFiles)
        } else {
            Ok(())
        }
    }

    /// The number of queued files.
    pub fn file_count(&self) -> (n: usize)
        ensures
            n == self@.files.len(),
    {
        self.files.len()
    }

    /// The number of samples gathered so far.
    pub fn record_count(&self) -> (n: usize)
        ensures
            n == self@.accumulated.len(),
    {
        self.recs.len()
    }

    /// Hands over the samples gathered so far and leaves the buffer empty.
    pub fn take_records(&mut self) -> (records: Vec<Record>)
        ensures
            records@ == old(self)@.accumulated,
            final(self)@.accumulated.len() == 0,
            final(self)@.files == old(self)@.files,
            final(self)@.next_index == old(self)@.next_index,
    {
        let mut records: Vec<Record> = Vec::new();
        std::mem::swap(&mut records, &mut self.recs);
        records
    }
}

/// The cursor of a queue that started at its first file and has served
/// `requests` requests.
pub open spec fn cursor_after(files: Seq<Seq<char>>, requests: nat) -> nat
    decreases requests,
{
    if requests == 0 {
        0
    } else {
        next_job(files, cursor_after(files, (requests - 1) as nat)).1
    }
}

/// What the request of number `request`, counted from zero, returns.
pub open spec fn job_of_request(files: Seq<Seq<char>>, request: nat) -> Option<Seq<char>> {
    next_job(files, cursor_after(files, request)).0
}

/// How many of the first `requests` requests returned a file.
pub open spec fn jobs_received(files: Seq<Seq<char>>, requests: nat) -> nat
    decreases requests,
{
    if requests == 0 {
        0
    } else if job_of_request(files, (requests - 1) as nat).is_some() {
        jobs_received(files, (requests - 1) as nat) + 1
    } else {
        jobs_received(files, (requests - 1) as nat)
    }
}

/// Exactly-once delivery. Whoever makes them, the requests on a queue come
/// one after another: the request of number `i` gets the file at position
/// `i`, so that no file is handed out twice and none is skipped, and every
/// request after the last file gets nothing. The number of files received
/// over all requests never exceeds the number of files, and reaches it with
/// as many requests.
pub proof fn lemma_exactly_once(files: Seq<Seq<char>>, requests: nat)
    ensures
        cursor_after(files, requests) == if requests < files.len() {
            requests
        } else {
            files.len()
        },
        requests < files.len() ==> job_of_request(files, requests) == Some(files[requests as int]),
        requests >= files.len() ==> job_of_request(files, requests).is_none(),
        jobs_received(files, requests) == if requests < files.len() {
            requests
        } else {
            files.len()
        },
    decreases requests,
{
    if requests > 0 {
        lemma_exactly_once(files, (requests - 1) as nat);
    }
}

/// What the buffer holds after the batches were submitted in the given
/// order: `order` lists positions in `batches`.
pub open spec fn submitted(batches: Seq<Seq<Record>>, order: Seq<int>) -> Seq<Record>
    decreases order.len(),
{
    if order.len() == 0 {
        Seq::empty()
    } else {
        submitted(batches, order.drop_last()) + batches[order.last()]
    }
}

proof fn lemma_submitted_without(batches: Seq<Seq<Record>>, order: Seq<int>, at: int)
    requires
        0 <= at < order.len(),
    ensures
        submitted(batches, order).to_multiset() == submitted(
            batches,
            order.remove(at),
        ).to_multiset().add(batches[order[at]].to_multiset()),
    decreases order.len(),
{
    let before = order.drop_last();
    lemma_multiset_commutative(submitted(batches, before), batches[order.last()]);
    if at == order.len() - 1 {
        assert(order.remove(at) =~= before);
    } else {
        let without = order.remove(at);
        assert(without.drop_last() =~= before.remove(at));
        assert(without.last() == order.last());
        lemma_submitted_without(batches, before, at);
        lemma_multiset_commutative(submitted(batches, without.drop_last()), batches[order.last()]);
        assert(submitted(batches, order).to_multiset() =~= submitted(
            batches,
            without,
        ).to_multiset().add(batches[order[at]].to_multiset()));
    }
}

/// The samples gathered do not depend on the order of submission: two
/// orders that submit the same batches, each as often as the other, leave
/// the same samples in the buffer, each as often. How the files were shared
/// out among workers, and how the workers took turns, changes the order and
/// nothing else.
pub proof fn lemma_submission_order_irrelevant(
    batches: Seq<Seq<Record>>,
    order1: Seq<int>,
    order2: Seq<int>,
)
    requires
        order1.to_multiset() == order2.to_multiset(),
    ensures
        submitted(batches, order1).to_multiset() == submitted(batches, order2).to_multiset(),
    decreases order1.len(),
{
    broadcast use vstd::seq_lib::group_to_multiset_ensures;

    to_multiset_len(order1);
    to_multiset_len(order2);
    if order1.len() == 0 {
        assert(order2.len() == 0);
    } else {
        let last = order1.last();
        assert(order1.to_multiset().count(last) > 0);
        assert(order2.contains(last));
        let at = choose|at: int| 0 <= at < order2.len() && order2[at] == last;
        to_multiset_remove(order1, order1.len() - 1);
        to_multiset_remove(order2, at);
        assert(order1.remove(order1.len() - 1) =~= order1.drop_last());
        lemma_submission_order_irrelevant(batches, order1.drop_last(), order2.remove(at));
        lemma_submitted_without(batches, order2, at);
        lemma_multiset_commutative(submitted(batches, order1.drop_last()), batches[last]);
    }
}

} // verus!

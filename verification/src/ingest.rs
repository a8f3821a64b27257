//! Reading a log: the compressed archive is decoded, its text is split into
//! lines, and each line is read as a sample or noted as malformed.

use vstd::prelude::*;
use vstd::slice::slice_subrange;
use crate::record::{parse_line, Record};
use crate::text::{find_byte, index_of, lemma_index_of};

verus! {

pub const LINE_FEED: u8 = 10;

pub const CARRIAGE_RETURN: u8 = 13;

/// Why a log could not be read.
#[derive(Clone, Copy, Debug, PartialEq, Eq, Structural)]
pub enum IngestError {
    /// The log directory holds no log file.
    NoLogFiles,
    /// The archive could not be decoded.
    CorruptArchive,
}

/// A line without the carriage return that may stand before its line feed.
pub open spec fn without_return(line: Seq<u8>) -> Seq<u8> {
    if line.len() > 0 && line.last() == CARRIAGE_RETURN {
        line.drop_last()
    } else {
        line
    }
}

/// The lines of a text. A line ends at a line feed, which is not part of it,
/// nor is a carriage return just before the line feed. What follows the last
/// line feed is a line of its own unless it is empty.
pub open spec fn lines_of(text: Seq<u8>) -> Seq<Seq<u8>>
    decreases text.len(),
{
    if text.len() == 0 {
        Seq::empty()
    } else {
        let at = index_of(text, LINE_FEED);
        if at < 0 || at >= text.len() {
            seq![text]
        } else {
            seq![without_return(text.take(at))] + lines_of(text.skip(at + 1))
        }
    }
}

/// The samples of the lines that are accepted, in the order of the lines.
pub open spec fn accepted(lines: Seq<Seq<u8>>) -> Seq<Record>
    decreases lines.len(),
{
    if lines.len() == 0 {
        Seq::empty()
    } else {
        match parse_line(lines[0]) {
            Some(record) => seq![record] + accepted(lines.skip(1)),
            None => accepted(lines.skip(1)),
        }
    }
}

/// The numbers of the lines that are rejected, in ascending order, where the
/// first of `lines` has the number `first_number`.
pub open spec fn malformed_lines(lines: Seq<Seq<u8>>, first_number: int) -> Seq<usize>
    decreases lines.len(),
{
    if lines.len() == 0 {
        Seq::empty()
    } else {
        match parse_line(lines[0]) {
            Some(record) => malformed_lines(lines.skip(1), first_number + 1),
            None => seq![first_number as usize] + malformed_lines(lines.skip(1), first_number + 1),
        }
    }
}

/// The text that an archive in the xz format decodes to.
pub uninterp spec fn xz_decoded(archive: Seq<u8>) -> Seq<u8>;

#[verifier::external_type_specification]
#[verifier::external_body]
pub struct ExLzmaError(lzma::LzmaError);

/// `lzma::decompress`: decodes a whole xz archive held in memory. Where it
/// succeeds, the bytes it returns are the text that the archive decodes to.
/// Nothing is claimed of when it fails.
#[verifier::external_body]
fn xz_decompress(archive: &[u8]) -> (r: Result<Vec<u8>, lzma::LzmaError>)
    ensures
        r matches Ok(text) ==> text@ == xz_decoded(archive@),
{
    lzma::decompress(archive)
}

/// Reads the samples of a decoded log. The accepted samples are appended to
/// `recs` in the order of their lines; the result holds the numbers, counted
/// from one, of the lines that were rejected.
pub fn parse_text(text: &[u8], recs: &mut Vec<Record>) -> (malformed: Vec<usize>)
    ensures
        final(recs)@ == old(recs)@ + accepted(lines_of(text@)),
        malformed@ == malformed_lines(lines_of(text@), 1),
{
    let n: usize = text.len();
    let mut pos: usize = 0;
    let mut seen: usize = 0;
    let mut malformed: Vec<usize> = Vec::new();
    assert(text@.skip(0) =~= text@);
    while pos < n
        invariant
            n == text.len(),
            pos <= n,
            seen <= pos,
            recs@ + accepted(lines_of(text@.skip(pos as int))) == old(recs)@ + accepted(
                lines_of(text@),
            ),
            malformed@ + malformed_lines(lines_of(text@.skip(pos as int)), seen + 1)
                == malformed_lines(lines_of(text@), 1),
        decreases n - pos,
    {
        let at: usize = find_byte(text, pos, LINE_FEED);
        let mut end: usize = at;
        if at < n && end > pos && text[end - 1] == CARRIAGE_RETURN {
            end = end - 1;
        }
        let line = slice_subrange(text, pos, end);
        let ghost rest = text@.skip(pos as int);
        let ghost next: int = if at < n { at + 1 } else { n as int };
        let ghost tail = lines_of(text@.skip(next));
        proof {
            lemma_index_of(rest, LINE_FEED);
            if at < n {
                assert(rest.take(at - pos) =~= text@.subrange(pos as int, at as int));
                assert(without_return(rest.take(at - pos)) =~= line@);
                assert(rest.skip(at - pos + 1) =~= text@.skip(next));
            } else {
                assert(line@ =~= rest);
                assert(text@.skip(next).len() == 0);
            }
            assert(lines_of(rest) =~= seq![line@] + tail);
            assert((seq![line@] + tail).skip(1) =~= tail);
        }
        match Record::from_bytes(line) {
            Some(record) => {
                recs.push(record);
            },
            None => {
                malformed.push(seen + 1);
            },
        }
        seen = seen + 1;
        if at < n {
            pos = at + 1;
        } else {
            pos = n;
        }
    }
    malformed
}

/// Reads the samples of a log archive: decodes it and reads the text as
/// `parse_text` does. Where the archive cannot be decoded, `recs` is left as
/// it was.
pub fn parse_file(archive: &[u8], recs: &mut Vec<Record>) -> (r: Result<Vec<usize>, IngestError>)
    ensures
        match r {
            Ok(malformed) => {
                &&& final(recs)@ == old(recs)@ + accepted(lines_of(xz_decoded(archive@)))
                &&& malformed@ == malformed_lines(lines_of(xz_decoded(archive@)), 1)
            },
            Err(error) => error == IngestError::CorruptArchive && final(recs)@ == old(recs)@,
        },
{
    match xz_decompress(archive) {
        Ok(text) => Ok(parse_text(text.as_slice(), recs)),
        Err(_) => Err(IngestError::CorruptArchive),
    }
}

} // verus!

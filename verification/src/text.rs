//! Byte-level helpers shared by the line and file parsers.

use vstd::prelude::*;

verus! {

/// Position of the first occurrence of `b` in `s`, or `s.len()` when `b` does not occur.
pub open spec fn index_of(s: Seq<u8>, b: u8) -> int
    decreases s.len(),
{
    if s.len() == 0 {
        0
    } else if s[0] == b {
        0
    } else {
        1 + index_of(s.skip(1), b)
    }
}

/// `index_of` lies within the sequence, nothing before it equals `b`, and
/// whenever it is a valid position the byte there is `b`.
pub proof fn lemma_index_of(s: Seq<u8>, b: u8)
    ensures
        0 <= index_of(s, b) <= s.len(),
        forall|k: int| 0 <= k < index_of(s, b) ==> s[k] != b,
        index_of(s, b) < s.len() ==> s[index_of(s, b)] == b,
    decreases s.len(),
{
    if s.len() != 0 && s[0] != b {
        let rest = s.skip(1);
        lemma_index_of(rest, b);
        assert forall|k: int| 0 <= k < index_of(s, b) implies s[k] != b by {
            if k > 0 {
                assert(s[k] == rest[k - 1]);
            }
        }
    }
}

/// A position with the defining properties of `index_of` is `index_of`.
pub proof fn lemma_index_of_is(s: Seq<u8>, b: u8, at: int)
    requires
        0 <= at <= s.len(),
        forall|k: int| 0 <= k < at ==> s[k] != b,
        at < s.len() ==> s[at] == b,
    ensures
        index_of(s, b) == at,
{
    lemma_index_of(s, b);
    let found = index_of(s, b);
    if found < at {
        assert(s[found] == b);
    } else if at < found {
        assert(s[at] == b);
    }
}

/// Finds the first occurrence of `b` at or after `from`.
pub fn find_byte(data: &[u8], from: usize, b: u8) -> (at: usize)
    requires
        from <= data.len(),
    ensures
        from <= at <= data.len(),
        at - from == index_of(data@.skip(from as int), b),
        forall|k: int| from <= k < at ==> data[k] != b,
        at < data.len() ==> data[at as int] == b,
{
    let mut at: usize = from;
    while at < data.len() && data[at] != b
        invariant
            from <= at <= data.len(),
            forall|k: int| from <= k < at ==> data[k] != b,
        decreases data.len() - at,
    {
        at = at + 1;
    }
    proof {
        lemma_index_of_is(data@.skip(from as int), b, at - from);
    }
    at
}

} // verus!

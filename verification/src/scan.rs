//! Scanning a byte slice for the next delimiter.

use vstd::prelude::*;
use crate::grammar::{after_word, leading_spaces, offset_of, word, SPACE};
use crate::words::{
    lemma_leading_spaces_first, lemma_leading_spaces_unique, lemma_offset_of_first,
    lemma_offset_of_unique,
};

verus! {

/// The index of the first `b` at or after `from`, or the length of `bytes`
/// where none follows.
pub fn find_byte(bytes: &[u8], from: usize, b: u8) -> (at: usize)
    requires
        from <= bytes@.len(),
    ensures
        at == from + offset_of(bytes@.skip(from as int), b),
        from <= at <= bytes@.len(),
{
    let n = bytes.len();
    let mut i: usize = from;
    while i < n && bytes[i] != b
        invariant
            n == bytes@.len(),
            from <= i <= n,
            forall|j: int| from <= j < i ==> bytes@[j] != b,
        decreases n - i,
    {
        i += 1;
    }
    proof {
        lemma_offset_of_unique(bytes@.skip(from as int), b, i - from);
    }
    i
}

/// The index of the first byte at or after `from` that is no space, or the
/// length of `bytes` where only spaces follow.
pub fn skip_spaces(bytes: &[u8], from: usize) -> (at: usize)
    requires
        from <= bytes@.len(),
    ensures
        at == from + leading_spaces(bytes@.skip(from as int)),
        from <= at <= bytes@.len(),
{
    let n = bytes.len();
    let mut i: usize = from;
    while i < n && bytes[i] == SPACE
        invariant
            n == bytes@.len(),
            from <= i <= n,
            forall|j: int| from <= j < i ==> bytes@[j] == SPACE,
        decreases n - i,
    {
        i += 1;
    }
    proof {
        lemma_leading_spaces_unique(bytes@.skip(from as int), i - from);
    }
    i
}

/// Where the word that begins at `from` ends, and where the next one begins.
pub fn next_word(bytes: &[u8], from: usize) -> (at: (usize, usize))
    requires
        from <= bytes@.len(),
    ensures
        from <= at.0 <= at.1 <= bytes@.len(),
        bytes@.subrange(from as int, at.0 as int) == word(bytes@.skip(from as int)),
        bytes@.skip(at.1 as int) == after_word(bytes@.skip(from as int)),
        at.0 == bytes@.len() || bytes@[at.0 as int] == SPACE,
        at.1 == bytes@.len() || bytes@[at.1 as int] != SPACE,
        at.1 == at.0 || bytes@[at.1 - 1] == SPACE,
        from < bytes@.len() && bytes@[from as int] != SPACE ==> from < at.0,
{
    let end = find_byte(bytes, from, SPACE);
    let next = skip_spaces(bytes, end);
    proof {
        let rest = bytes@.skip(from as int);
        let tail = bytes@.skip(end as int);
        lemma_offset_of_first(rest, SPACE);
        lemma_leading_spaces_first(tail);
        assert(rest.take(end - from) =~= bytes@.subrange(from as int, end as int));
        assert(rest.skip(end - from) =~= tail);
        assert(tail.skip(next - end) =~= bytes@.skip(next as int));
        if end < bytes@.len() {
            assert(rest[end - from] == bytes@[end as int]);
        }
        if next < bytes@.len() {
            assert(tail[next - end] == bytes@[next as int]);
        }
        if next > end {
            assert(tail[next - end - 1] == bytes@[next - 1]);
        }
        if from < bytes@.len() && bytes@[from as int] != SPACE {
            assert(rest[0] == bytes@[from as int]);
        }
    }
    (end, next)
}

} // verus!

//! Facts about words and spaces, from which the parser and the laws of
//! the grammar are proved.

use vstd::prelude::*;
use crate::grammar::{
    after_word, leading_spaces, lemma_offset_of_bound, offset_of, params_of, trim_start, word,
    SPACE,
};

verus! {

/// Whether `s` holds no `b`.
pub open spec fn free_of(s: Seq<u8>, b: u8) -> bool {
    forall|i: int| 0 <= i < s.len() ==> s[i] != b
}

/// Whether `s` is a token: not empty and without a space.
pub open spec fn is_token(s: Seq<u8>) -> bool {
    s.len() > 0 && free_of(s, SPACE)
}

/// Whether `s` is empty or begins with a space, so that a token before it
/// ends where `s` begins.
pub open spec fn ends_a_token(s: Seq<u8>) -> bool {
    s.len() == 0 || s[0] == SPACE
}

/// `n` spaces.
pub open spec fn spaces(n: nat) -> Seq<u8> {
    Seq::new(n, |i: int| SPACE)
}

/// `offset_of` is the one index `k` with no `b` before it and either a `b`
/// at it or the end of `s`.
pub proof fn lemma_offset_of_unique(s: Seq<u8>, b: u8, k: int)
    requires
        0 <= k <= s.len(),
        forall|j: int| 0 <= j < k ==> s[j] != b,
        k == s.len() || s[k] == b,
    ensures
        offset_of(s, b) == k,
    decreases s.len(),
{
    if k > 0 {
        let t = s.drop_first();
        assert forall|j: int| 0 <= j < k - 1 implies t[j] != b by {
            assert(t[j] == s[j + 1]);
        }
        lemma_offset_of_unique(t, b, k - 1);
    }
}

/// No `b` stands before `offset_of`, and one stands at it unless `s` ends there.
pub proof fn lemma_offset_of_first(s: Seq<u8>, b: u8)
    ensures
        offset_of(s, b) <= s.len(),
        forall|j: int| 0 <= j < offset_of(s, b) ==> s[j] != b,
        offset_of(s, b) < s.len() ==> s[offset_of(s, b) as int] == b,
    decreases s.len(),
{
    if s.len() > 0 && s[0] != b {
        let t = s.drop_first();
        lemma_offset_of_first(t, b);
        assert forall|j: int| 0 <= j < offset_of(s, b) implies s[j] != b by {
            if j > 0 {
                assert(s[j] == t[j - 1]);
            }
        }
    }
}

/// `leading_spaces` is the one index `k` with only spaces before it and
/// either another byte at it or the end of `s`.
pub proof fn lemma_leading_spaces_unique(s: Seq<u8>, k: int)
    requires
        0 <= k <= s.len(),
        forall|j: int| 0 <= j < k ==> s[j] == SPACE,
        k == s.len() || s[k] != SPACE,
    ensures
        leading_spaces(s) == k,
    decreases s.len(),
{
    if k > 0 {
        let t = s.drop_first();
        assert forall|j: int| 0 <= j < k - 1 implies t[j] == SPACE by {
            assert(t[j] == s[j + 1]);
        }
        lemma_leading_spaces_unique(t, k - 1);
    }
}

/// Only spaces stand before `leading_spaces`, and another byte stands at it
/// unless `s` ends there.
pub proof fn lemma_leading_spaces_first(s: Seq<u8>)
    ensures
        leading_spaces(s) <= s.len(),
        forall|j: int| 0 <= j < leading_spaces(s) ==> s[j] == SPACE,
        leading_spaces(s) < s.len() ==> s[leading_spaces(s) as int] != SPACE,
    decreases s.len(),
{
    if s.len() > 0 && s[0] == SPACE {
        let t = s.drop_first();
        lemma_leading_spaces_first(t);
        assert forall|j: int| 0 <= j < leading_spaces(s) implies s[j] == SPACE by {
            if j > 0 {
                assert(s[j] == t[j - 1]);
            }
        }
    }
}

/// A text that does not begin with a space has no spaces to trim.
pub proof fn lemma_trim_start_fixed(s: Seq<u8>)
    requires
        s.len() == 0 || s[0] != SPACE,
    ensures
        trim_start(s) == s,
{
    assert(s.skip(0) =~= s);
}

/// A run of spaces before a text is trimmed away with the text's own.
pub proof fn lemma_trim_start_spaces(n: nat, s: Seq<u8>)
    ensures
        trim_start(spaces(n) + s) == trim_start(s),
{
    let all = spaces(n) + s;
    let k = leading_spaces(s) as int;
    lemma_leading_spaces_first(s);
    assert forall|j: int| 0 <= j < n + k implies all[j] == SPACE by {
        if j >= n {
            assert(all[j] == s[j - n]);
        }
    }
    if n + k < all.len() {
        assert(all[n + k] == s[k]);
    }
    lemma_leading_spaces_unique(all, n + k);
    assert(all.skip(n + k) =~= s.skip(k));
}

/// A token followed by the end or by a space is the first word, and what
/// follows it is what follows the word.
pub proof fn lemma_first_word(token: Seq<u8>, rest: Seq<u8>)
    requires
        free_of(token, SPACE),
        ends_a_token(rest),
    ensures
        offset_of(token + rest, SPACE) == token.len(),
        word(token + rest) == token,
        after_word(token + rest) == trim_start(rest),
{
    let all = token + rest;
    assert forall|j: int| 0 <= j < token.len() implies all[j] != SPACE by {
        assert(all[j] == token[j]);
    }
    if rest.len() > 0 {
        assert(all[token.len() as int] == rest[0]);
    }
    lemma_offset_of_unique(all, SPACE, token.len() as int);
    assert(all.take(token.len() as int) =~= token);
    assert(all.skip(token.len() as int) =~= rest);
}

/// Trimming gives a suffix: the text without its leading spaces.
pub proof fn lemma_trim_start_suffix(s: Seq<u8>)
    ensures
        leading_spaces(s) <= s.len(),
        trim_start(s).len() == s.len() - leading_spaces(s),
        trim_start(s).len() == 0 || trim_start(s)[0] != SPACE,
        trim_start(s).len() > 0 ==> trim_start(s).last() == s.last(),
{
    lemma_leading_spaces_first(s);
}

/// What follows the first word is a suffix of the text, and begins with no space.
pub proof fn lemma_after_word_suffix(s: Seq<u8>)
    ensures
        after_word(s).len() <= s.len(),
        after_word(s) == s.skip(s.len() - after_word(s).len()),
        after_word(s).len() == 0 || after_word(s)[0] != SPACE,
        after_word(s).len() > 0 ==> after_word(s).last() == s.last(),
{
    let k = offset_of(s, SPACE) as int;
    lemma_offset_of_bound(s, SPACE);
    let tail = s.skip(k);
    lemma_trim_start_suffix(tail);
    assert(tail.skip(leading_spaces(tail) as int) =~= s.skip(k + leading_spaces(tail)));
}

/// Text that begins with no space, put after `s`, is not trimmed away with
/// the spaces of `s`.
pub proof fn lemma_trim_start_append(s: Seq<u8>, t: Seq<u8>)
    requires
        t.len() > 0,
        t[0] != SPACE,
    ensures
        trim_start(s + t) == trim_start(s) + t,
{
    let k = leading_spaces(s) as int;
    let all = s + t;
    lemma_leading_spaces_first(s);
    assert forall|j: int| 0 <= j < k implies all[j] == SPACE by {
        assert(all[j] == s[j]);
    }
    if k < s.len() {
        assert(all[k] == s[k]);
    } else {
        assert(all[k] == t[0]);
    }
    lemma_leading_spaces_unique(all, k);
    assert(all.skip(k) =~= s.skip(k) + t);
}

/// Text put after `s`, where `s` holds a space, leaves the first word as it
/// is and follows what followed it.
pub proof fn lemma_after_word_append(s: Seq<u8>, t: Seq<u8>)
    requires
        offset_of(s, SPACE) < s.len(),
        t.len() > 0,
        t[0] != SPACE,
    ensures
        offset_of(s + t, SPACE) == offset_of(s, SPACE),
        word(s + t) == word(s),
        (s + t).skip(offset_of(s, SPACE) as int) == s.skip(offset_of(s, SPACE) as int) + t,
        after_word(s + t) == after_word(s) + t,
{
    let k = offset_of(s, SPACE) as int;
    let all = s + t;
    lemma_offset_of_first(s, SPACE);
    assert forall|j: int| 0 <= j < k implies all[j] != SPACE by {
        assert(all[j] == s[j]);
    }
    assert(all[k] == s[k]);
    lemma_offset_of_unique(all, SPACE, k);
    assert(all.take(k) =~= s.take(k));
    assert(all.skip(k) =~= s.skip(k) + t);
    lemma_trim_start_append(s.skip(k), t);
}

/// A text that ends with a space and begins with another byte holds a
/// space after its first byte.
pub proof fn lemma_space_inside(s: Seq<u8>)
    requires
        s.len() > 0,
        s.last() == SPACE,
    ensures
        offset_of(s, SPACE) < s.len(),
{
    lemma_offset_of_first(s, SPACE);
    if offset_of(s, SPACE) >= s.len() {
        assert(s[s.len() - 1] != SPACE);
    }
}

/// Spaces before the parameters do not change them.
pub proof fn lemma_params_of_trimmed(rest: Seq<u8>)
    ensures
        params_of(trim_start(rest)) == params_of(rest),
    decreases rest.len(),
{
    if rest.len() > 0 && rest[0] == SPACE {
        let tail = rest.drop_first();
        lemma_params_of_trimmed(tail);
        lemma_leading_spaces_first(tail);
        assert(trim_start(rest) =~= trim_start(tail));
    } else {
        assert(trim_start(rest) =~= rest);
    }
}

} // verus!

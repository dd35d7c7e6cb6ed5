//! Runs of spaces count as one space: doubling a separating space changes
//! nothing in the message.

use vstd::prelude::*;
use crate::grammar::{
    after_prefix, after_tags, after_word, command_of, has_prefix, has_tags, leading_spaces,
    message_of, offset_of, params_of, prefix_of, tags_of, trim_start, word, COLON, SPACE,
};
use crate::trailing::{marker_of, marker_of_line};
use crate::words::{
    lemma_after_word_suffix, lemma_leading_spaces_first, lemma_leading_spaces_unique,
    lemma_offset_of_first, lemma_offset_of_unique, lemma_trim_start_suffix,
};

verus! {

/// How a part of the stretched line relates to the same part of the line
/// itself. The doubled space stands at `at` in `s`; where `at` is negative
/// it stood before this part, and the two parts are the same.
pub open spec fn stretched(wide: Seq<u8>, s: Seq<u8>, at: int) -> bool {
    if at < 0 {
        wide == s
    } else {
        at < s.len() && s[at] == SPACE && wide == s.insert(at, SPACE)
    }
}

/// A stretched text begins as the text does, and is empty only where the
/// text is.
proof fn lemma_stretched_first(wide: Seq<u8>, s: Seq<u8>, at: int)
    requires
        stretched(wide, s, at),
    ensures
        wide.len() == 0 <==> s.len() == 0,
        s.len() > 0 ==> wide[0] == s[0],
{
}

/// Trimming a stretched text gives the trimmed text, stretched at the same
/// space unless that space was trimmed away.
proof fn lemma_trim_start_stretched(wide: Seq<u8>, s: Seq<u8>, at: int)
    requires
        stretched(wide, s, at),
    ensures
        stretched(trim_start(wide), trim_start(s), at - leading_spaces(s)),
{
    if at >= 0 {
        let m = leading_spaces(s) as int;
        lemma_leading_spaces_first(s);
        if at < m {
            assert forall|j: int| 0 <= j < m + 1 implies wide[j] == SPACE by {
                if j > at {
                    assert(wide[j] == s[j - 1]);
                }
            }
            if m + 1 < wide.len() {
                assert(wide[m + 1] == s[m]);
            }
            lemma_leading_spaces_unique(wide, m + 1);
            assert(wide.skip(m + 1) =~= s.skip(m));
        } else {
            assert forall|j: int| 0 <= j < m implies wide[j] == SPACE by {
                assert(wide[j] == s[j]);
            }
            assert(wide[m] == s[m]);
            lemma_leading_spaces_unique(wide, m);
            assert(wide.skip(m) =~= s.skip(m).insert(at - m, SPACE));
            assert(s.skip(m)[at - m] == s[at]);
        }
    }
}

/// A stretched text has the first word of the text, and what follows the
/// word is stretched at the same space unless that space stood before it.
proof fn lemma_after_word_stretched(wide: Seq<u8>, s: Seq<u8>, at: int)
    requires
        stretched(wide, s, at),
    ensures
        word(wide) == word(s),
        stretched(after_word(wide), after_word(s), at - (s.len() - after_word(s).len())),
{
    lemma_after_word_suffix(s);
    if at >= 0 {
        let k = offset_of(s, SPACE) as int;
        lemma_offset_of_first(s, SPACE);
        assert(k <= at);
        assert forall|j: int| 0 <= j < k implies wide[j] != SPACE by {
            assert(wide[j] == s[j]);
        }
        assert(wide[k] == SPACE);
        lemma_offset_of_unique(wide, SPACE, k);
        assert(wide.take(k) =~= s.take(k));
        assert(wide.skip(k) =~= s.skip(k).insert(at - k, SPACE));
        assert(s.skip(k)[at - k] == s[at]);
        lemma_trim_start_stretched(wide.skip(k), s.skip(k), at - k);
        lemma_trim_start_suffix(s.skip(k));
    }
}

/// Doubling a space that separates parameters leaves the parameters as
/// they are.
pub proof fn lemma_params_stretched(wide: Seq<u8>, rest: Seq<u8>, at: int)
    requires
        stretched(wide, rest, at),
        at < marker_of(rest),
    ensures
        params_of(wide) == params_of(rest),
    decreases rest.len(),
{
    if at >= 0 {
        if rest[0] == SPACE {
            let next = rest.drop_first();
            if at == 0 {
                assert(wide.drop_first() =~= rest);
            } else {
                assert(wide.drop_first() =~= next.insert(at - 1, SPACE));
                assert(next[at - 1] == rest[at]);
                lemma_params_stretched(wide.drop_first(), next, at - 1);
            }
        } else if rest[0] == COLON {
        } else {
            let k = offset_of(rest, SPACE) as int;
            lemma_offset_of_first(rest, SPACE);
            assert forall|j: int| 0 <= j < k implies wide[j] != SPACE by {
                assert(wide[j] == rest[j]);
            }
            assert(wide[k] == SPACE);
            lemma_offset_of_unique(wide, SPACE, k);
            assert(wide.take(k) =~= rest.take(k));
            assert(wide.skip(k) =~= rest.skip(k).insert(at - k, SPACE));
            assert(rest.skip(k)[at - k] == rest[at]);
            assert(wide[0] == rest[0]);
            lemma_params_stretched(wide.skip(k), rest.skip(k), at - k);
        }
    }
}

/// A space that stands before the trailing parameter can be doubled, and so
/// any run of spaces there made longer, without changing the message: not
/// its tags, its prefix, its command or its parameters.
pub proof fn law_space_inflation(line: Seq<u8>, at: int)
    requires
        0 <= at < line.len(),
        line[at] == SPACE,
        at < marker_of_line(line),
    ensures
        message_of(line.insert(at, SPACE)) == message_of(line),
{
    let wide = line.insert(at, SPACE);
    assert(stretched(wide, line, at));
    lemma_stretched_first(wide, line, at);
    // tags
    let x = after_tags(line);
    let x_wide = after_tags(wide);
    let at_x = at - (line.len() - x.len());
    if has_tags(line) {
        lemma_after_word_stretched(wide, line, at);
    }
    assert(tags_of(wide) == tags_of(line));
    assert(stretched(x_wide, x, at_x));
    lemma_stretched_first(x_wide, x, at_x);
    // prefix
    let y = after_prefix(line);
    let y_wide = after_prefix(wide);
    let at_y = at - (line.len() - y.len());
    if has_prefix(line) {
        lemma_after_word_stretched(x_wide, x, at_x);
    } else {
        lemma_trim_start_stretched(x_wide, x, at_x);
        lemma_trim_start_suffix(x);
    }
    assert(prefix_of(wide) == prefix_of(line));
    assert(stretched(y_wide, y, at_y));
    lemma_stretched_first(y_wide, y, at_y);
    // command
    let z = after_word(y);
    let at_z = at - (line.len() - z.len());
    lemma_after_word_stretched(y_wide, y, at_y);
    assert(command_of(wide) == command_of(line));
    assert(stretched(after_word(y_wide), z, at_z));
    // parameters
    lemma_params_stretched(after_word(y_wide), z, at_z);
}

} // verus!

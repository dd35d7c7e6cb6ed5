//! Where spaces separate and where they are text: laws on the trailing
//! parameter.

use vstd::prelude::*;
use crate::grammar::{
    after_prefix, after_tags, after_word, command_of, has_prefix, has_tags, lemma_offset_of_bound,
    message_of, offset_of, params_of, prefix_of, tags_of, MessageView, COLON, SPACE,
};
use crate::words::{
    lemma_after_word_append, lemma_after_word_suffix, lemma_space_inside, lemma_trim_start_append,
    lemma_trim_start_fixed, lemma_trim_start_suffix,
};

verus! {

/// In the text after a command, the offset of the colon that opens the
/// trailing parameter; the length of the text where it has none. Before
/// this offset every space is a separator, after it every byte is text.
pub open spec fn marker_of(rest: Seq<u8>) -> nat
    decreases rest.len(),
    via marker_of_terminates
{
    if rest.len() == 0 {
        0
    } else if rest[0] == SPACE {
        1 + marker_of(rest.drop_first())
    } else if rest[0] == COLON {
        0
    } else {
        offset_of(rest, SPACE) + marker_of(rest.skip(offset_of(rest, SPACE) as int))
    }
}

#[via_fn]
proof fn marker_of_terminates(rest: Seq<u8>) {
    if rest.len() > 0 && rest[0] != SPACE && rest[0] != COLON {
        lemma_offset_of_bound(rest.drop_first(), SPACE);
    }
}

/// In a whole line, the offset of the colon that opens the trailing
/// parameter; the length of the line where it has none.
pub open spec fn marker_of_line(line: Seq<u8>) -> int {
    let rest = after_word(after_prefix(line));
    line.len() - rest.len() + marker_of(rest)
}

/// The message `m` with one more parameter at its end.
pub open spec fn with_param(m: MessageView, text: Seq<u8>) -> MessageView {
    MessageView { tags: m.tags, prefix: m.prefix, command: m.command, params: m.params.push(text) }
}

/// The marker lies within the text or at its end.
pub proof fn lemma_marker_of_bound(rest: Seq<u8>)
    ensures
        marker_of(rest) <= rest.len(),
    decreases rest.len(),
{
    if rest.len() == 0 {
    } else if rest[0] == SPACE {
        lemma_marker_of_bound(rest.drop_first());
    } else if rest[0] == COLON {
    } else {
        lemma_offset_of_bound(rest, SPACE);
        lemma_marker_of_bound(rest.skip(offset_of(rest, SPACE) as int));
    }
}

/// After middle parameters and a space, a colon opens a parameter that
/// holds all the text behind it, whatever that text is.
pub proof fn law_trailing_text(head: Seq<u8>, text: Seq<u8>)
    requires
        marker_of(head) == head.len(),
        head.len() == 0 || head.last() == SPACE,
    ensures
        params_of(head + (seq![COLON] + text)) == params_of(head).push(text),
    decreases head.len(),
{
    let tail = seq![COLON] + text;
    let all = head + tail;
    if head.len() == 0 {
        assert(all =~= tail);
        assert(tail.skip(1) =~= text);
        assert(params_of(head).push(text) =~= seq![text]);
    } else if head[0] == SPACE {
        let next = head.drop_first();
        assert(all.drop_first() =~= next + tail);
        if next.len() > 0 {
            assert(next.last() == head.last());
        }
        law_trailing_text(next, text);
    } else if head[0] == COLON {
    } else {
        let k = offset_of(head, SPACE) as int;
        let next = head.skip(k);
        lemma_space_inside(head);
        lemma_after_word_append(head, tail);
        lemma_marker_of_bound(next);
        assert(next.last() == head.last());
        assert(all[0] == head[0]);
        law_trailing_text(next, text);
        assert(params_of(all) =~= params_of(head).push(text));
    }
}

/// A line that has a command, no trailing parameter yet, and a space at its
/// end gains exactly one parameter when a colon and any text are put after
/// it: that text, with its spaces and colons. Nothing else changes.
pub proof fn law_trailing_param(front: Seq<u8>, text: Seq<u8>)
    requires
        front.len() > 0,
        front.last() == SPACE,
        command_of(front) is Some,
        marker_of_line(front) == front.len(),
    ensures
        message_of(front + (seq![COLON] + text)) == with_param(message_of(front), text),
{
    let tail = seq![COLON] + text;
    let line = front + tail;
    assert(line[0] == front[0]);
    lemma_space_inside(front);
    // tags
    let x = after_tags(front);
    if has_tags(front) {
        lemma_after_word_append(front, tail);
        lemma_after_word_suffix(front);
    }
    assert(after_tags(line) == x + tail);
    assert(tags_of(line) == tags_of(front));
    assert(x.len() == 0 || x.last() == SPACE);
    // prefix
    let y = after_prefix(front);
    if x.len() == 0 {
        lemma_trim_start_fixed(x);
    } else {
        assert((x + tail)[0] == x[0]);
        lemma_space_inside(x);
        if has_prefix(front) {
            lemma_after_word_append(x, tail);
            lemma_after_word_suffix(x);
        } else {
            lemma_trim_start_append(x, tail);
            lemma_trim_start_suffix(x);
        }
    }
    assert(y.len() > 0);
    assert(has_prefix(line) == has_prefix(front));
    assert(prefix_of(line) == prefix_of(front));
    assert(after_prefix(line) == y + tail);
    assert(y.last() == SPACE);
    // command
    lemma_space_inside(y);
    lemma_after_word_append(y, tail);
    lemma_after_word_suffix(y);
    let z = after_word(y);
    assert(command_of(line) == command_of(front));
    assert(after_word(after_prefix(line)) == z + tail);
    // parameters
    law_trailing_text(z, text);
}

} // verus!

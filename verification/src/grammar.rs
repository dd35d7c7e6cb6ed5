//! The line grammar as a mathematical model.
//!
//! A line is a sequence of bytes. Every structural delimiter is a single
//! ASCII byte, so the model never looks inside a multi-byte character: it
//! only counts bytes up to the next delimiter and cuts there.

use vstd::prelude::*;

verus! {

/// Separates tokens; runs of it count as one separator.
pub const SPACE: u8 = 0x20;

/// Introduces the prefix and the trailing parameter.
pub const COLON: u8 = 0x3a;

/// Introduces the tag section.
pub const AT: u8 = 0x40;

/// Separates tag entries.
pub const SEMICOLON: u8 = 0x3b;

/// Separates a tag's key from its value.
pub const EQUALS: u8 = 0x3d;

/// The value of a tag that is written without `=`: the text `true`.
pub open spec fn implicit_value() -> Seq<u8> {
    seq![0x74u8, 0x72u8, 0x75u8, 0x65u8]
}

/// How many bytes of `s` stand before the first `b`; the whole length where
/// `s` holds no `b`.
pub open spec fn offset_of(s: Seq<u8>, b: u8) -> nat
    decreases s.len(),
{
    if s.len() == 0 || s[0] == b {
        0
    } else {
        1 + offset_of(s.drop_first(), b)
    }
}

/// The offset of the first `b` lies within `s` or at its end.
pub proof fn lemma_offset_of_bound(s: Seq<u8>, b: u8)
    ensures
        offset_of(s, b) <= s.len(),
    decreases s.len(),
{
    if s.len() > 0 && s[0] != b {
        lemma_offset_of_bound(s.drop_first(), b);
    }
}

/// How many spaces `s` begins with.
pub open spec fn leading_spaces(s: Seq<u8>) -> nat
    decreases s.len(),
{
    if s.len() == 0 || s[0] != SPACE {
        0
    } else {
        1 + leading_spaces(s.drop_first())
    }
}

/// `s` without the spaces it begins with.
pub open spec fn trim_start(s: Seq<u8>) -> Seq<u8> {
    s.skip(leading_spaces(s) as int)
}

/// The bytes of `s` up to its first space.
pub open spec fn word(s: Seq<u8>) -> Seq<u8> {
    s.take(offset_of(s, SPACE) as int)
}

/// What follows the first word of `s` and the spaces after it.
pub open spec fn after_word(s: Seq<u8>) -> Seq<u8> {
    trim_start(s.skip(offset_of(s, SPACE) as int))
}

/// The pieces of `s` between occurrences of `b`. There is always at least
/// one piece, and a piece may be empty.
pub open spec fn split(s: Seq<u8>, b: u8) -> Seq<Seq<u8>>
    decreases s.len(),
{
    let n = offset_of(s, b) as int;
    if n >= s.len() {
        seq![s]
    } else {
        seq![s.take(n)] + split(s.skip(n + 1), b)
    }
}

/// The key of a tag entry: the text before its first `=`, or all of it.
pub open spec fn tag_key(entry: Seq<u8>) -> Seq<u8> {
    entry.take(offset_of(entry, EQUALS) as int)
}

/// The value of a tag entry: the text after its first `=`, which may be
/// empty, or the text `true` where the entry has no `=`.
pub open spec fn tag_value(entry: Seq<u8>) -> Seq<u8> {
    let n = offset_of(entry, EQUALS) as int;
    if n < entry.len() {
        entry.skip(n + 1)
    } else {
        implicit_value()
    }
}

/// The mapping that a list of tag entries denotes. Entries are stored from
/// left to right, so of two entries with one key the later one stays.
pub open spec fn tags_of_entries(entries: Seq<Seq<u8>>) -> Map<Seq<u8>, Seq<u8>>
    decreases entries.len(),
{
    if entries.len() == 0 {
        Map::empty()
    } else {
        tags_of_entries(entries.drop_last()).insert(
            tag_key(entries.last()),
            tag_value(entries.last()),
        )
    }
}

/// The mapping that a tag run denotes: the text between `@` and the first space.
pub open spec fn tags_of_run(run: Seq<u8>) -> Map<Seq<u8>, Seq<u8>> {
    tags_of_entries(split(run, SEMICOLON))
}

/// The parameters read from what follows the command.
///
/// Spaces before a parameter are skipped. A parameter that begins with `:`
/// takes the rest of the line after that colon, spaces and colons included,
/// and ends the list. Any other parameter runs up to the next space.
pub open spec fn params_of(rest: Seq<u8>) -> Seq<Seq<u8>>
    decreases rest.len(),
    via params_of_terminates
{
    if rest.len() == 0 {
        Seq::empty()
    } else if rest[0] == SPACE {
        params_of(rest.drop_first())
    } else if rest[0] == COLON {
        seq![rest.skip(1)]
    } else {
        seq![word(rest)] + params_of(rest.skip(offset_of(rest, SPACE) as int))
    }
}

#[via_fn]
proof fn params_of_terminates(rest: Seq<u8>) {
    if rest.len() > 0 && rest[0] != SPACE && rest[0] != COLON {
        lemma_offset_of_bound(rest.drop_first(), SPACE);
    }
}

/// Whether the line opens with a tag section.
pub open spec fn has_tags(line: Seq<u8>) -> bool {
    line.len() > 0 && line[0] == AT
}

/// The line from the prefix section on: without the tag section and the
/// spaces after it, where there is one.
pub open spec fn after_tags(line: Seq<u8>) -> Seq<u8> {
    if has_tags(line) {
        after_word(line)
    } else {
        line
    }
}

/// Whether the line, past its tags, opens with a prefix.
pub open spec fn has_prefix(line: Seq<u8>) -> bool {
    after_tags(line).len() > 0 && after_tags(line)[0] == COLON
}

/// The line from the command on: without tags, prefix and the spaces around them.
pub open spec fn after_prefix(line: Seq<u8>) -> Seq<u8> {
    if has_prefix(line) {
        after_word(after_tags(line))
    } else {
        trim_start(after_tags(line))
    }
}

/// The tags of a line; empty where the line does not begin with `@`.
pub open spec fn tags_of(line: Seq<u8>) -> Map<Seq<u8>, Seq<u8>> {
    if has_tags(line) {
        tags_of_run(word(line).skip(1))
    } else {
        Map::empty()
    }
}

/// The prefix of a line: the word that opens with `:` after the tags,
/// without that colon.
pub open spec fn prefix_of(line: Seq<u8>) -> Option<Seq<u8>> {
    if has_prefix(line) {
        Some(word(after_tags(line)).skip(1))
    } else {
        None
    }
}

/// The command of a line: the first word after tags and prefix. A line with
/// nothing but spaces there has none.
pub open spec fn command_of(line: Seq<u8>) -> Option<Seq<u8>> {
    if after_prefix(line).len() == 0 {
        None
    } else {
        Some(word(after_prefix(line)))
    }
}

/// The parameters of a line: what follows the command.
pub open spec fn params_of_line(line: Seq<u8>) -> Seq<Seq<u8>> {
    params_of(after_word(after_prefix(line)))
}

/// What a message is: the four parts of a line, as byte strings.
pub struct MessageView {
    pub tags: Map<Seq<u8>, Seq<u8>>,
    pub prefix: Option<Seq<u8>>,
    pub command: Option<Seq<u8>>,
    pub params: Seq<Seq<u8>>,
}

/// The message that a line denotes.
pub open spec fn message_of(line: Seq<u8>) -> MessageView {
    MessageView {
        tags: tags_of(line),
        prefix: prefix_of(line),
        command: command_of(line),
        params: params_of_line(line),
    }
}

} // verus!

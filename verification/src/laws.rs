//! What holds of every line: laws of the grammar, each proved from its
//! definition.

use vstd::prelude::*;
use crate::grammar::{
    after_prefix, after_tags, implicit_value, message_of, params_of, prefix_of, tag_key, tag_value,
    tags_of, tags_of_entries, tags_of_run, trim_start, MessageView, AT, COLON, EQUALS, SPACE,
};
use crate::words::{
    ends_a_token, free_of, is_token, lemma_first_word, lemma_offset_of_unique,
    lemma_trim_start_fixed, lemma_trim_start_spaces, spaces,
};

verus! {

/// The message with a command and nothing else.
pub open spec fn bare(command: Seq<u8>) -> MessageView {
    MessageView {
        tags: Map::empty(),
        prefix: None,
        command: Some(command),
        params: Seq::empty(),
    }
}

/// A line that is one bare token, beginning with neither `@` nor `:`, is a
/// command without tags, prefix or parameters.
pub proof fn law_bare_command(token: Seq<u8>)
    requires
        is_token(token),
        token[0] != AT,
        token[0] != COLON,
    ensures
        message_of(token) == bare(token),
{
    let none = Seq::<u8>::empty();
    assert(token + none =~= token);
    lemma_trim_start_fixed(token);
    lemma_first_word(token, none);
    lemma_trim_start_fixed(none);
    assert(params_of(none) =~= Seq::<Seq<u8>>::empty());
}

/// Spaces after a bare command add nothing: no parameter, and no empty one.
pub proof fn law_trailing_spaces(token: Seq<u8>, n: nat)
    requires
        is_token(token),
        token[0] != AT,
        token[0] != COLON,
    ensures
        message_of(token + spaces(n)) == bare(token),
{
    let line = token + spaces(n);
    let none = Seq::<u8>::empty();
    assert(line[0] == token[0]);
    lemma_trim_start_fixed(line);
    lemma_first_word(token, spaces(n));
    assert(spaces(n) + none =~= spaces(n));
    lemma_trim_start_spaces(n, none);
    lemma_trim_start_fixed(none);
    assert(params_of(none) =~= Seq::<Seq<u8>>::empty());
}

/// A line that opens with `:` has the text between that colon and the first
/// space as its prefix, and the command is read from what follows.
pub proof fn law_prefix(sender: Seq<u8>, rest: Seq<u8>)
    requires
        free_of(sender, SPACE),
        ends_a_token(rest),
    ensures
        tags_of(seq![COLON] + sender + rest) == Map::<Seq<u8>, Seq<u8>>::empty(),
        prefix_of(seq![COLON] + sender + rest) == Some(sender),
        after_prefix(seq![COLON] + sender + rest) == trim_start(rest),
{
    let first = seq![COLON] + sender;
    let line = first + rest;
    assert(line[0] == COLON);
    assert forall|i: int| 0 <= i < first.len() implies first[i] != SPACE by {
        if i > 0 {
            assert(first[i] == sender[i - 1]);
        }
    }
    lemma_first_word(first, rest);
    assert(first.skip(1) =~= sender);
}

/// A prefix followed by one more token gives that token as the command, and
/// no parameters.
pub proof fn law_prefix_then_command(sender: Seq<u8>, n: nat, token: Seq<u8>)
    requires
        free_of(sender, SPACE),
        n > 0,
        is_token(token),
    ensures
        message_of(seq![COLON] + sender + (spaces(n) + token)) == (MessageView {
            tags: Map::empty(),
            prefix: Some(sender),
            command: Some(token),
            params: Seq::empty(),
        }),
{
    let none = Seq::<u8>::empty();
    let rest = spaces(n) + token;
    assert(rest[0] == SPACE);
    law_prefix(sender, rest);
    lemma_trim_start_spaces(n, token);
    lemma_trim_start_fixed(token);
    assert(token + none =~= token);
    lemma_first_word(token, none);
    lemma_trim_start_fixed(none);
    assert(params_of(none) =~= Seq::<Seq<u8>>::empty());
}

/// A tag entry without `=` is all key, and its value is the text `true`.
pub proof fn law_tag_without_value(entry: Seq<u8>)
    requires
        free_of(entry, EQUALS),
    ensures
        tag_key(entry) == entry,
        tag_value(entry) == implicit_value(),
{
    lemma_offset_of_unique(entry, EQUALS, entry.len() as int);
    assert(entry.take(entry.len() as int) =~= entry);
}

/// A tag entry with `=` has the text before the first `=` as its key and
/// all the text after it, empty or not, as its value.
pub proof fn law_tag_with_value(key: Seq<u8>, value: Seq<u8>)
    requires
        free_of(key, EQUALS),
    ensures
        tag_key(key + seq![EQUALS] + value) == key,
        tag_value(key + seq![EQUALS] + value) == value,
{
    let entry = key + seq![EQUALS] + value;
    let n = key.len() as int;
    assert forall|j: int| 0 <= j < n implies entry[j] != EQUALS by {
        assert(entry[j] == key[j]);
    }
    assert(entry[n] == EQUALS);
    lemma_offset_of_unique(entry, EQUALS, n);
    assert(entry.take(n) =~= key);
    assert(entry.skip(n + 1) =~= value);
}

/// Of the entries with one key, the last one gives the value that is stored.
pub proof fn law_last_tag_wins(entries: Seq<Seq<u8>>, at: int)
    requires
        0 <= at < entries.len(),
        forall|j: int| at < j < entries.len() ==> tag_key(entries[j]) != tag_key(entries[at]),
    ensures
        tags_of_entries(entries).contains_key(tag_key(entries[at])),
        tags_of_entries(entries)[tag_key(entries[at])] == tag_value(entries[at]),
    decreases entries.len(),
{
    if at < entries.len() - 1 {
        let front = entries.drop_last();
        assert(front[at] == entries[at]);
        assert forall|j: int| at < j < front.len() implies tag_key(front[j]) != tag_key(
            front[at],
        ) by {
            assert(front[j] == entries[j]);
        }
        law_last_tag_wins(front, at);
    }
}

/// Every key that is stored is the key of some entry.
pub proof fn law_tags_come_from_entries(entries: Seq<Seq<u8>>, key: Seq<u8>)
    requires
        tags_of_entries(entries).contains_key(key),
    ensures
        exists|i: int| 0 <= i < entries.len() && tag_key(#[trigger] entries[i]) == key,
    decreases entries.len(),
{
    if entries.len() > 0 {
        let front = entries.drop_last();
        if tag_key(entries.last()) == key {
            assert(tag_key(entries[entries.len() - 1]) == key);
        } else {
            law_tags_come_from_entries(front, key);
            let i = choose|i: int| 0 <= i < front.len() && tag_key(#[trigger] front[i]) == key;
            assert(entries[i] == front[i]);
        }
    }
}

/// A line that opens with `@` has the text between that sign and the first
/// space as its tag run.
pub proof fn law_tag_run(run: Seq<u8>, rest: Seq<u8>)
    requires
        free_of(run, SPACE),
        ends_a_token(rest),
    ensures
        tags_of(seq![AT] + run + rest) == tags_of_run(run),
        after_tags(seq![AT] + run + rest) == trim_start(rest),
{
    let first = seq![AT] + run;
    let line = first + rest;
    assert(line[0] == AT);
    assert forall|i: int| 0 <= i < first.len() implies first[i] != SPACE by {
        if i > 0 {
            assert(first[i] == run[i - 1]);
        }
    }
    lemma_first_word(first, rest);
    assert(first.skip(1) =~= run);
}

} // verus!

//! From a message back to a line: writing command and parameters out with
//! single spaces and reading them again gives the same message.

use vstd::prelude::*;
use crate::grammar::{
    after_prefix, after_tags, after_word, message_of, offset_of, params_of, prefix_of, word,
    MessageView, AT, COLON, SPACE,
};
use crate::words::{
    ends_a_token, free_of, is_token, lemma_after_word_suffix, lemma_first_word,
    lemma_offset_of_first, lemma_params_of_trimmed, lemma_trim_start_fixed, lemma_trim_start_suffix,
};

verus! {

/// Whether `p` can stand as a middle parameter: a token that does not begin
/// with a colon.
pub open spec fn is_middle(p: Seq<u8>) -> bool {
    is_token(p) && p[0] != COLON
}

/// The parameters written out, each after one space. The last one is
/// introduced by a colon where it could not be read back as a middle
/// parameter: where it holds a space, is empty, or begins with a colon.
pub open spec fn joined_params(params: Seq<Seq<u8>>) -> Seq<u8>
    decreases params.len(),
{
    if params.len() == 0 {
        Seq::empty()
    } else if params.len() == 1 {
        if is_middle(params[0]) {
            seq![SPACE] + params[0]
        } else {
            seq![SPACE, COLON] + params[0]
        }
    } else {
        seq![SPACE] + params[0] + joined_params(params.drop_first())
    }
}

/// The line for a message that has neither tags nor prefix: the command,
/// then the parameters. A message without a command gives the empty line.
pub open spec fn joined(m: MessageView) -> Seq<u8> {
    match m.command {
        Some(command) => command + joined_params(m.params),
        None => Seq::empty(),
    }
}

/// What holds of the command and the parameters of every parsed message:
/// without a command there are no parameters; the command is a token; and
/// every parameter but the last is a token that does not begin with a colon.
pub open spec fn well_shaped(m: MessageView) -> bool {
    match m.command {
        Some(command) => is_token(command) && forall|i: int|
            0 <= i < m.params.len() - 1 ==> is_middle(#[trigger] m.params[i]),
        None => m.params.len() == 0,
    }
}

/// Whether a message can be written as a line of command and parameters
/// alone: it has the shape of a parsed message, no tags and no prefix, and
/// its command would not be read as the start of tags or of a prefix.
pub open spec fn rejoinable(m: MessageView) -> bool {
    &&& well_shaped(m)
    &&& m.tags == Map::<Seq<u8>, Seq<u8>>::empty()
    &&& m.prefix is None
    &&& m.command matches Some(command) ==> command[0] != AT && command[0] != COLON
}

/// The written parameters begin with a space, or there are none.
proof fn lemma_joined_params_start(params: Seq<Seq<u8>>)
    ensures
        ends_a_token(joined_params(params)),
{
}

/// Reading the written parameters gives the parameters.
proof fn lemma_params_of_joined(params: Seq<Seq<u8>>)
    requires
        forall|i: int| 0 <= i < params.len() - 1 ==> is_middle(#[trigger] params[i]),
    ensures
        params_of(joined_params(params)) == params,
    decreases params.len(),
{
    let text = joined_params(params);
    let none = Seq::<u8>::empty();
    if params.len() == 0 {
        assert(params_of(text) =~= params);
    } else if params.len() == 1 {
        let p = params[0];
        assert(text[0] == SPACE);
        assert(params_of(text) == params_of(text.drop_first()));
        if is_middle(p) {
            assert(text.drop_first() =~= p);
            assert(p + none =~= p);
            lemma_first_word(p, none);
            assert(p.skip(p.len() as int) =~= none);
            assert(params_of(none) =~= Seq::<Seq<u8>>::empty());
            assert(params_of(p) =~= seq![p]);
        } else {
            let marked = seq![COLON] + p;
            assert(text.drop_first() =~= marked);
            assert(marked[0] == COLON);
            assert(marked.skip(1) =~= p);
            assert(params_of(marked) =~= seq![p]);
        }
        assert(params =~= seq![p]);
    } else {
        let p = params[0];
        let others = params.drop_first();
        let tail = joined_params(others);
        assert(is_middle(params[0]));
        assert forall|i: int| 0 <= i < others.len() - 1 implies is_middle(
            #[trigger] others[i],
        ) by {
            assert(others[i] == params[i + 1]);
        }
        lemma_params_of_joined(others);
        lemma_joined_params_start(others);
        assert(text[0] == SPACE);
        assert(params_of(text) == params_of(text.drop_first()));
        assert(text.drop_first() =~= p + tail);
        lemma_first_word(p, tail);
        assert((p + tail).skip(p.len() as int) =~= tail);
        assert((p + tail)[0] == p[0]);
        assert(params_of(p + tail) == seq![p] + others);
        assert(seq![p] + others =~= params);
    }
}

/// A message without tags and prefix, written out as a line and read
/// again, is the same message.
pub proof fn law_rejoin(m: MessageView)
    requires
        rejoinable(m),
    ensures
        message_of(joined(m)) == m,
{
    let line = joined(m);
    let none = Seq::<u8>::empty();
    match m.command {
        Some(command) => {
            let tail = joined_params(m.params);
            lemma_joined_params_start(m.params);
            lemma_params_of_joined(m.params);
            assert(line[0] == command[0]);
            lemma_trim_start_fixed(line);
            lemma_first_word(command, tail);
            lemma_params_of_trimmed(tail);
        },
        None => {
            lemma_trim_start_fixed(none);
            assert(none.skip(0) =~= none);
            assert(params_of(none) =~= m.params);
        },
    }
}

/// Every parameter read from a text, but the last, is a token that does
/// not begin with a colon.
proof fn lemma_params_shape(rest: Seq<u8>)
    ensures
        forall|i: int|
            0 <= i < params_of(rest).len() - 1 ==> is_middle(#[trigger] params_of(rest)[i]),
    decreases rest.len(),
{
    if rest.len() == 0 {
        assert(params_of(rest).len() == 0);
    } else if rest[0] == SPACE {
        lemma_params_shape(rest.drop_first());
        assert(params_of(rest) == params_of(rest.drop_first()));
    } else if rest[0] == COLON {
        assert(params_of(rest).len() == 1);
    } else {
        let k = offset_of(rest, SPACE) as int;
        let next = rest.skip(k);
        lemma_offset_of_first(rest, SPACE);
        lemma_params_shape(next);
        assert(params_of(rest) == seq![word(rest)] + params_of(next));
        assert(is_middle(word(rest)));
        assert forall|i: int| 0 <= i < params_of(rest).len() - 1 implies is_middle(
            #[trigger] params_of(rest)[i],
        ) by {
            if i > 0 {
                assert(params_of(rest)[i] == params_of(next)[i - 1]);
            }
        }
    }
}

/// Every parsed message is well shaped, and its prefix holds no space.
pub proof fn law_parsed_shape(line: Seq<u8>)
    ensures
        well_shaped(message_of(line)),
        prefix_of(line) matches Some(sender) ==> free_of(sender, SPACE),
{
    let y = after_prefix(line);
    let x = after_tags(line);
    lemma_offset_of_first(x, SPACE);
    lemma_offset_of_first(y, SPACE);
    lemma_after_word_suffix(x);
    lemma_trim_start_suffix(x);
    lemma_params_shape(after_word(y));
    if y.len() == 0 {
        assert(y.skip(0) =~= y);
        assert(after_word(y) =~= y);
    }
}

} // verus!

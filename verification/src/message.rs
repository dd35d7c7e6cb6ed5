//! The message record and the parser's entry point.

use vstd::prelude::*;
use vstd::string::StringSliceAdditionalSpecFns;
use crate::grammar::{
    after_prefix, after_tags, after_word, message_of, params_of, prefix_of, tags_of, word,
    MessageView, AT, COLON,
};
use crate::params::{bytes_of_each, read_params};
use crate::scan::{next_word, skip_spaces};
use crate::tags::Tags;
use crate::text::piece;
use crate::words::lemma_leading_spaces_first;

verus! {

/// Why a line could not be read.
///
/// The parser accepts every line; the variants are kept for callers that
/// layer stricter checks on top of it.
#[derive(Debug, Clone, Copy, PartialEq, Eq)]
pub enum ParseError {
    /// The line holds no command.
    Empty,
    /// The line breaks the structure of a message.
    Malformed,
}

/// One parsed line. Every text in it is a slice of the line it was read from.
#[derive(Debug)]
pub struct IrcMessage<'a> {
    /// The tags, by key.
    pub tags: Tags<'a>,
    /// The sender, where the line names one.
    pub prefix: Option<&'a str>,
    /// The command; absent where the line holds only spaces after tags and prefix.
    pub command: Option<&'a str>,
    /// The parameters, in the order of the line.
    pub params: Vec<&'a str>,
}

/// The bytes of a text that may be absent.
pub open spec fn bytes_of_option(text: Option<&str>) -> Option<Seq<u8>> {
    match text {
        Some(t) => Some(t.spec_bytes()),
        None => None,
    }
}

impl<'a> View for IrcMessage<'a> {
    type V = MessageView;

    open spec fn view(&self) -> MessageView {
        MessageView {
            tags: self.tags@,
            prefix: bytes_of_option(self.prefix),
            command: bytes_of_option(self.command),
            params: bytes_of_each(self.params@),
        }
    }
}

impl<'a> IrcMessage<'a> {
    /// Reads one line, without its line terminator.
    ///
    /// Every line is accepted, and the result is the message that the
    /// grammar assigns to the line's bytes.
    pub fn parse_slice(line: &'a str) -> (result: Result<IrcMessage<'a>, ParseError>)
        ensures
            result matches Ok(message) && message@ == message_of(line.spec_bytes()),
    {
        let bytes = line.as_bytes();
        let n = bytes.len();
        let mut pos: usize = 0;
        let mut tags = Tags::new();
        if n > 0 && bytes[0] == AT {
            let (end, next) = next_word(bytes, 0);
            proof {
                assert(bytes@.skip(0) =~= bytes@);
            }
            let run = piece(line, 1, end);
            proof {
                assert(run.spec_bytes() =~= word(bytes@).skip(1));
            }
            tags = Tags::parse(run);
            pos = next;
        } else {
            proof {
                assert(bytes@.skip(0) =~= bytes@);
            }
        }
        assert(tags@ == tags_of(bytes@));
        assert(bytes@.skip(pos as int) == after_tags(bytes@));
        let mut prefix: Option<&'a str> = None;
        if pos < n && bytes[pos] == COLON {
            let (end, next) = next_word(bytes, pos);
            let sender = piece(line, pos + 1, end);
            proof {
                assert(sender.spec_bytes() =~= word(bytes@.skip(pos as int)).skip(1));
            }
            prefix = Some(sender);
            pos = next;
        } else {
            let ghost here = bytes@.skip(pos as int);
            let start = skip_spaces(bytes, pos);
            proof {
                lemma_leading_spaces_first(here);
                assert(here.skip(start - pos) =~= bytes@.skip(start as int));
                if start < n {
                    assert(here[start - pos] == bytes@[start as int]);
                }
                if start > pos {
                    assert(here[start - pos - 1] == bytes@[start - 1]);
                }
            }
            pos = start;
        }
        assert(bytes_of_option(prefix) == prefix_of(bytes@));
        assert(bytes@.skip(pos as int) == after_prefix(bytes@));
        let mut command: Option<&'a str> = None;
        let mut params: Vec<&'a str> = Vec::new();
        if pos < n {
            let (end, next) = next_word(bytes, pos);
            command = Some(piece(line, pos, end));
            params = read_params(piece(line, next, n));
            proof {
                assert(bytes@.subrange(next as int, n as int) =~= bytes@.skip(next as int));
            }
        } else {
            proof {
                let rest = after_prefix(bytes@);
                assert(rest.len() == 0);
                assert(rest.skip(0) =~= rest);
                assert(after_word(rest) =~= rest);
                assert(bytes_of_each(params@) =~= params_of(rest));
            }
        }
        Ok(IrcMessage { tags, prefix, command, params })
    }

    /// The command, for callers that do not accept a line without one.
    pub fn require_command(&self) -> (result: Result<&'a str, ParseError>)
        ensures
            match self.command {
                Some(command) => result == Ok::<&str, ParseError>(command),
                None => result == Err::<&str, ParseError>(ParseError::Empty),
            },
    {
        match self.command {
            Some(command) => Ok(command),
            None => Err(ParseError::Empty),
        }
    }
}

} // verus!

//! Reading the parameter list.

use vstd::prelude::*;
use vstd::string::StringSliceAdditionalSpecFns;
use crate::grammar::{lemma_offset_of_bound, offset_of, params_of, COLON, SPACE};
use crate::scan::{next_word, skip_spaces};
use crate::text::piece;
use crate::words::{lemma_leading_spaces_first, lemma_params_of_trimmed};

verus! {

/// The bytes of each text in a list.
pub open spec fn bytes_of_each(texts: Seq<&str>) -> Seq<Seq<u8>> {
    Seq::new(texts.len(), |i: int| texts[i].spec_bytes())
}

/// The parameters that follow a command.
///
/// A parameter that begins with `:` takes the rest of the text after that
/// colon and ends the list; any other runs up to the next space. Spaces
/// between parameters give no parameter of their own.
pub fn read_params<'a>(rest: &'a str) -> (params: Vec<&'a str>)
    ensures
        bytes_of_each(params@) == params_of(rest.spec_bytes()),
{
    let bytes = rest.as_bytes();
    let n = bytes.len();
    let mut params: Vec<&'a str> = Vec::new();
    let mut pos: usize = skip_spaces(bytes, 0);
    proof {
        assert(bytes@.skip(0) =~= bytes@);
        lemma_params_of_trimmed(bytes@);
        lemma_leading_spaces_first(bytes@);
        assert(bytes_of_each(params@) + params_of(bytes@.skip(pos as int)) =~= params_of(
            bytes@.skip(pos as int),
        ));
    }
    while pos < n
        invariant
            n == bytes@.len(),
            bytes@ == rest.spec_bytes(),
            pos <= n,
            pos == n || bytes@[pos as int] != SPACE,
            pos == 0 || pos == n || bytes@[pos - 1] == SPACE,
            params_of(bytes@) == bytes_of_each(params@) + params_of(bytes@.skip(pos as int)),
        decreases n - pos,
    {
        let ghost before = params@;
        let ghost here = bytes@.skip(pos as int);
        assert(here[0] == bytes@[pos as int]);
        if bytes[pos] == COLON {
            let last = piece(rest, pos + 1, n);
            params.push(last);
            proof {
                assert(here.skip(1) =~= last.spec_bytes());
                assert(params_of(bytes@.skip(n as int)) =~= Seq::<Seq<u8>>::empty());
                assert(bytes_of_each(params@) =~= bytes_of_each(before) + seq![last.spec_bytes()]);
            }
            pos = n;
        } else {
            let (end, next) = next_word(bytes, pos);
            let middle = piece(rest, pos, end);
            params.push(middle);
            proof {
                lemma_offset_of_bound(here, SPACE);
                lemma_params_of_trimmed(here.skip(offset_of(here, SPACE) as int));
                assert(bytes_of_each(params@) =~= bytes_of_each(before) + seq![middle.spec_bytes()]);
                assert(bytes_of_each(params@) + params_of(bytes@.skip(next as int)) =~= bytes_of_each(
                    before,
                ) + params_of(here));
            }
            pos = next;
        }
    }
    proof {
        assert(bytes_of_each(params@) + Seq::<Seq<u8>>::empty() =~= bytes_of_each(params@));
    }
    params
}

} // verus!

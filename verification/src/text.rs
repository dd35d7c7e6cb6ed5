//! Cutting a string at byte offsets that stand next to ASCII bytes.
//!
//! The parser looks at bytes and hands out string slices. A string may only
//! be cut between two characters; every cut the parser makes is at an end of
//! the line or next to an ASCII delimiter, and such a place never lies inside
//! a multi-byte character.

use vstd::prelude::*;
use vstd::string::StringSliceAdditionalSpecFns;
use vstd::utf8::{
    encode_utf8_valid_utf8, is_char_boundary, is_char_boundary_iff_not_is_continuation_byte,
    is_char_boundary_start_end_of_seq, length_of_first_scalar, pop_first_scalar, valid_utf8,
    valid_utf8_split,
};

verus! {

/// Whether a byte is an ASCII character on its own.
pub open spec fn is_ascii_byte(b: u8) -> bool {
    b < 0x80
}

/// Whether `at` is an end of `bytes` or stands next to an ASCII byte.
pub open spec fn beside_ascii(bytes: Seq<u8>, at: int) -> bool {
    0 <= at <= bytes.len() && (at == 0 || at == bytes.len() || is_ascii_byte(bytes[at])
        || is_ascii_byte(bytes[at - 1]))
}

/// In well-formed UTF-8 a character begins right after every ASCII byte.
proof fn lemma_boundary_after_ascii(bytes: Seq<u8>, i: int)
    requires
        valid_utf8(bytes),
        0 <= i < bytes.len(),
        is_ascii_byte(bytes[i]),
    ensures
        is_char_boundary(bytes, i + 1),
    decreases bytes.len(),
{
    reveal_with_fuel(is_char_boundary, 2);
    reveal_with_fuel(valid_utf8, 2);
    let width = length_of_first_scalar(bytes);
    let tail = pop_first_scalar(bytes);
    if i > 0 {
        assert(i >= width);
        assert(tail[i - width] == bytes[i]);
        lemma_boundary_after_ascii(tail, i - width);
    }
}

/// In well-formed UTF-8 every place beside an ASCII byte lies between two
/// characters.
pub proof fn lemma_beside_ascii_is_boundary(bytes: Seq<u8>, at: int)
    requires
        valid_utf8(bytes),
        beside_ascii(bytes, at),
    ensures
        is_char_boundary(bytes, at),
{
    if at == 0 || at == bytes.len() {
        is_char_boundary_start_end_of_seq(bytes);
    } else if is_ascii_byte(bytes[at]) {
        is_char_boundary_iff_not_is_continuation_byte(bytes, at);
    } else {
        lemma_boundary_after_ascii(bytes, at - 1);
    }
}

/// The part of `line` between two byte offsets.
pub fn piece<'a>(line: &'a str, from: usize, to: usize) -> (part: &'a str)
    requires
        from <= to <= line.spec_bytes().len(),
        beside_ascii(line.spec_bytes(), from as int),
        beside_ascii(line.spec_bytes(), to as int),
    ensures
        part.spec_bytes() == line.spec_bytes().subrange(from as int, to as int),
{
    let ghost bytes = line.spec_bytes();
    proof {
        encode_utf8_valid_utf8(line@);
        lemma_beside_ascii_is_boundary(bytes, from as int);
        lemma_beside_ascii_is_boundary(bytes, to as int);
    }
    let (head, _) = line.split_at(to);
    proof {
        let front = bytes.subrange(0, to as int);
        valid_utf8_split(bytes, to as int);
        if from < to {
            assert(front[from as int] == bytes[from as int]);
            if to < bytes.len() {
                is_char_boundary_iff_not_is_continuation_byte(bytes, from as int);
            } else {
                assert(front =~= bytes);
            }
            is_char_boundary_iff_not_is_continuation_byte(front, from as int);
        } else {
            is_char_boundary_start_end_of_seq(front);
        }
        assert(head.spec_bytes() =~= front);
    }
    let (_, part) = head.split_at(from);
    proof {
        assert(part.spec_bytes() =~= bytes.subrange(from as int, to as int));
    }
    part
}

} // verus!

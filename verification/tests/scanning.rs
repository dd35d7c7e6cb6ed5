use irc_message::params::read_params;
use irc_message::scan::{find_byte, next_word, skip_spaces};
use irc_message::text::piece;

#[test]
fn find_byte_gives_first_or_length() {
    let s = b"ab;cd;e";
    assert_eq!(find_byte(s, 0, b';'), 2);
    assert_eq!(find_byte(s, 2, b';'), 2);
    assert_eq!(find_byte(s, 3, b';'), 5);
    assert_eq!(find_byte(s, 6, b';'), 7);
    assert_eq!(find_byte(s, 7, b';'), 7);
    assert_eq!(find_byte(b"", 0, b' '), 0);
}

#[test]
fn skip_spaces_gives_first_other_or_length() {
    let s = b"  a   b  ";
    assert_eq!(skip_spaces(s, 0), 2);
    assert_eq!(skip_spaces(s, 2), 2);
    assert_eq!(skip_spaces(s, 3), 6);
    assert_eq!(skip_spaces(s, 7), 9);
    assert_eq!(skip_spaces(s, 9), 9);
}

#[test]
fn next_word_gives_end_and_next_start() {
    let s = b"FOO   bar";
    assert_eq!(next_word(s, 0), (3, 6));
    assert_eq!(next_word(s, 6), (9, 9));
    assert_eq!(next_word(s, 3), (3, 6));
    assert_eq!(next_word(b"x ", 0), (1, 2));
}

#[test]
fn piece_cuts_between_offsets() {
    let line = "ab cd";
    assert_eq!(piece(line, 0, 2), "ab");
    assert_eq!(piece(line, 3, 5), "cd");
    assert_eq!(piece(line, 2, 2), "");
    assert_eq!(piece(line, 0, 5), line);
    let wide = "é ж";
    assert_eq!(piece(wide, 0, 2), "é");
    assert_eq!(piece(wide, 3, 5), "ж");
}

#[test]
fn read_params_splits_on_spaces_until_colon() {
    assert_eq!(read_params(""), Vec::<&str>::new());
    assert_eq!(read_params("   "), Vec::<&str>::new());
    assert_eq!(read_params("a b  c"), vec!["a", "b", "c"]);
    assert_eq!(read_params("  a :b  c"), vec!["a", "b  c"]);
    assert_eq!(read_params(":"), vec![""]);
    assert_eq!(read_params("a: :"), vec!["a:", ""]);
}

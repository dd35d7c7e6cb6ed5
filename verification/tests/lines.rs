use irc_message::{IrcMessage, ParseError};

fn parts(line: &str) -> (Option<&str>, Option<&str>, Vec<&str>) {
    let m = IrcMessage::parse_slice(line).unwrap();
    (m.prefix, m.command, m.params)
}

fn join(command: &str, params: &[&str]) -> String {
    let mut line = String::from(command);
    for (i, p) in params.iter().enumerate() {
        line.push(' ');
        let last = i + 1 == params.len();
        if last && (p.is_empty() || p.starts_with(':') || p.contains(' ')) {
            line.push(':');
        }
        line.push_str(p);
    }
    line
}

#[test]
fn empty_line_has_no_command() {
    let m = IrcMessage::parse_slice("").unwrap();
    assert!(m.tags.is_empty());
    assert_eq!(m.prefix, None);
    assert_eq!(m.command, None);
    assert!(m.params.is_empty());
}

#[test]
fn spaces_only_line_has_no_command() {
    let m = IrcMessage::parse_slice("     ").unwrap();
    assert_eq!(m.tags.len(), 0);
    assert_eq!(m.prefix, None);
    assert_eq!(m.command, None);
    assert!(m.params.is_empty());
}

#[test]
fn every_line_is_accepted() {
    for line in ["", " ", "@", ":", "@ :", ": :", "@;=;;= : : :", "::::", "@a=b", ":p   "] {
        assert!(IrcMessage::parse_slice(line).is_ok(), "{:?}", line);
    }
}

#[test]
fn bare_token_is_the_command() {
    for token in ["FOO", "privmsg", "001", "a:b", "x@y", "P"] {
        let m = IrcMessage::parse_slice(token).unwrap();
        assert_eq!(m.tags.len(), 0);
        assert_eq!(m.prefix, None);
        assert_eq!(m.command, Some(token));
        assert_eq!(m.params, Vec::<&str>::new());
    }
}

#[test]
fn command_case_is_kept() {
    assert_eq!(parts("PrivMsg #a").1, Some("PrivMsg"));
}

#[test]
fn prefix_without_command() {
    assert_eq!(parts(":test"), (Some("test"), None, vec![]));
    assert_eq!(parts(":test   "), (Some("test"), None, vec![]));
}

#[test]
fn empty_prefix() {
    assert_eq!(parts(": FOO"), (Some(""), Some("FOO"), vec![]));
}

#[test]
fn prefix_then_token_is_command() {
    assert_eq!(parts(":irc.example.net 001"), (Some("irc.example.net"), Some("001"), vec![]));
    assert_eq!(parts(":a :b"), (Some("a"), Some(":b"), vec![]));
}

#[test]
fn leading_space_hides_prefix_and_tags() {
    assert_eq!(parts(" :test FOO"), (None, Some(":test"), vec!["FOO"]));
    let m = IrcMessage::parse_slice(" @a=b FOO").unwrap();
    assert_eq!(m.tags.len(), 0);
    assert_eq!(m.command, Some("@a=b"));
    assert_eq!(m.params, vec!["FOO"]);
}

#[test]
fn trailing_spaces_give_no_parameter() {
    assert_eq!(parts("FOO "), (None, Some("FOO"), vec![]));
    assert_eq!(parts("FOO      "), (None, Some("FOO"), vec![]));
    assert_eq!(parts("FOO bar   "), (None, Some("FOO"), vec!["bar"]));
}

#[test]
fn trailing_parameter_is_verbatim() {
    assert_eq!(parts("FOO :").2, vec![""]);
    assert_eq!(parts("FOO : ").2, vec![" "]);
    assert_eq!(parts("FOO ::").2, vec![":"]);
    assert_eq!(parts("FOO :a  b :c: d ").2, vec!["a  b :c: d "]);
    assert_eq!(parts("FOO x :a  b :c: d ").2, vec!["x", "a  b :c: d "]);
    assert_eq!(parts("FOO   :only one").2, vec!["only one"]);
}

#[test]
fn colon_inside_middle_is_text() {
    assert_eq!(parts("FOO a:b c: :d").2, vec!["a:b", "c:", "d"]);
}

#[test]
fn doubled_spaces_change_nothing() {
    assert_eq!(parts("FOO  bar"), parts("FOO bar"));
    assert_eq!(parts(":p   FOO    a     b   :t t"), parts(":p FOO a b :t t"));
    let wide = IrcMessage::parse_slice("@k=v    :p  FOO  a").unwrap();
    let thin = IrcMessage::parse_slice("@k=v :p FOO a").unwrap();
    assert_eq!(wide.tags.get("k"), thin.tags.get("k"));
    assert_eq!(wide.tags.len(), thin.tags.len());
    assert_eq!((wide.prefix, wide.command, wide.params), (thin.prefix, thin.command, thin.params));
}

#[test]
fn doubled_space_in_trailing_is_text() {
    assert_ne!(parts("FOO :a  b").2, parts("FOO :a b").2);
    assert_eq!(parts("FOO :a  b").2, vec!["a  b"]);
}

#[test]
fn rejoined_line_parses_to_the_same() {
    let lines = [
        "FOO",
        "FOO bar",
        "FOO   bar   baz  quux :This is a test",
        "PRIVMSG #foo :This is a test",
        "FOO :",
        "FOO a ::x",
        "FOO :single",
        "",
    ];
    for line in lines {
        let (_, command, params) = parts(line);
        let again = join(command.unwrap_or(""), &params);
        let (_, command2, params2) = parts(&again);
        assert_eq!(command, command2, "{:?}", line);
        assert_eq!(params, params2, "{:?}", line);
    }
    assert_eq!(join("PRIVMSG", &["#foo", "This is a test"]), "PRIVMSG #foo :This is a test");
    assert_eq!(join("FOO", &["bar", "baz"]), "FOO bar baz");
}

#[test]
fn text_beyond_ascii_is_sliced_between_characters() {
    let m = IrcMessage::parse_slice("@ключ=значение;é :ник!я@хост ПРИВЕТ #канал :привет, мир ☃ ").unwrap();
    assert_eq!(m.tags.get("ключ"), Some("значение"));
    assert_eq!(m.tags.get("é"), Some("true"));
    assert_eq!(m.prefix, Some("ник!я@хост"));
    assert_eq!(m.command, Some("ПРИВЕТ"));
    assert_eq!(m.params, vec!["#канал", "привет, мир ☃ "]);
}

#[test]
fn parts_are_slices_of_the_line() {
    let line = String::from(":nick PRIVMSG #chan :hello there");
    let m = IrcMessage::parse_slice(&line).unwrap();
    let start = line.as_ptr() as usize;
    let end = start + line.len();
    let inside = |s: &str| start <= s.as_ptr() as usize && s.as_ptr() as usize + s.len() <= end;
    assert!(inside(m.prefix.unwrap()));
    assert!(inside(m.command.unwrap()));
    assert!(m.params.iter().all(|p| inside(p)));
    assert_eq!(m.command.unwrap().as_ptr() as usize - start, 6);
}

#[test]
fn require_command_rejects_a_line_without_one() {
    let m = IrcMessage::parse_slice("@a=b :sender   ").unwrap();
    assert_eq!(m.require_command(), Err(ParseError::Empty));
    let m = IrcMessage::parse_slice("   ").unwrap();
    assert_eq!(m.require_command(), Err(ParseError::Empty));
    let m = IrcMessage::parse_slice(":sender PING").unwrap();
    assert_eq!(m.require_command(), Ok("PING"));
}

#[test]
fn errors_are_distinct() {
    assert_ne!(ParseError::Empty, ParseError::Malformed);
    assert_eq!(format!("{:?}", ParseError::Malformed), "Malformed");
}

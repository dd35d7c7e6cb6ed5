use irc_message::tags::{read_tag, same_bytes};
use irc_message::{IrcMessage, Tags};

#[test]
fn tag_without_equals_is_true() {
    assert_eq!(read_tag("single"), ("single", "true"));
    assert_eq!(read_tag(""), ("", "true"));
}

#[test]
fn tag_with_equals_keeps_its_value() {
    assert_eq!(read_tag("best=super"), ("best", "super"));
    assert_eq!(read_tag("empty="), ("empty", ""));
    assert_eq!(read_tag("a=b=c"), ("a", "b=c"));
    assert_eq!(read_tag("=v"), ("", "v"));
}

#[test]
fn later_tag_replaces_earlier() {
    let m = IrcMessage::parse_slice("@a=1;b=2;a=3;b;a=last FOO").unwrap();
    assert_eq!(m.tags.len(), 2);
    assert_eq!(m.tags.get("a"), Some("last"));
    assert_eq!(m.tags.get("b"), Some("true"));
    assert_eq!(m.tags.get("c"), None);
    assert_eq!(m.command, Some("FOO"));
}

#[test]
fn tag_run_entries() {
    let tags = Tags::parse("best=super;single;blank=;x=y=z");
    assert_eq!(tags.len(), 4);
    assert_eq!(tags.get("best"), Some("super"));
    assert_eq!(tags.get("single"), Some("true"));
    assert_eq!(tags.get("blank"), Some(""));
    assert_eq!(tags.get("x"), Some("y=z"));
    assert!(tags.contains_key("blank"));
    assert!(!tags.contains_key("bes"));
    assert!(!tags.is_empty());
}

#[test]
fn empty_tag_entries_are_stored_under_the_empty_key() {
    let tags = Tags::parse("");
    assert_eq!(tags.len(), 1);
    assert_eq!(tags.get(""), Some("true"));
    let tags = Tags::parse("a;;b");
    assert_eq!(tags.len(), 3);
    assert_eq!(tags.get(""), Some("true"));
    let m = IrcMessage::parse_slice("@ FOO").unwrap();
    assert_eq!(m.tags.len(), 1);
    assert_eq!(m.command, Some("FOO"));
}

#[test]
fn tags_without_anything_after() {
    let m = IrcMessage::parse_slice("@a=b;c").unwrap();
    assert_eq!(m.tags.get("a"), Some("b"));
    assert_eq!(m.tags.get("c"), Some("true"));
    assert_eq!(m.prefix, None);
    assert_eq!(m.command, None);
    assert!(m.params.is_empty());
}

#[test]
fn tags_then_command_without_prefix() {
    let m = IrcMessage::parse_slice("@time=12:30   PING :x y").unwrap();
    assert_eq!(m.tags.get("time"), Some("12:30"));
    assert_eq!(m.prefix, None);
    assert_eq!(m.command, Some("PING"));
    assert_eq!(m.params, vec!["x y"]);
}

#[test]
fn insert_replaces_and_adds() {
    let mut tags = Tags::new();
    assert!(tags.is_empty());
    assert_eq!(tags.len(), 0);
    tags.insert("k", "1");
    tags.insert("l", "2");
    tags.insert("k", "3");
    assert_eq!(tags.len(), 2);
    assert_eq!(tags.get("k"), Some("3"));
    assert_eq!(tags.get("l"), Some("2"));
    let mut pairs = tags.to_vec();
    pairs.sort();
    assert_eq!(pairs, vec![("k", "3"), ("l", "2")]);
}

#[test]
fn same_bytes_compares_contents() {
    assert!(same_bytes(b"", b""));
    assert!(same_bytes(b"abc", b"abc"));
    assert!(!same_bytes(b"abc", b"abd"));
    assert!(!same_bytes(b"abc", b"ab"));
    assert!(!same_bytes(b"", b"a"));
}

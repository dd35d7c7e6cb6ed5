use irc_message::IrcMessage;

#[test]
fn command_only() {
    let topic = IrcMessage::parse_slice("FOO").unwrap();

    assert_eq!(topic.tags.len(), 0);
    assert_eq!(topic.prefix, None);
    assert_eq!(topic.command, Some("FOO"));
    assert_eq!(topic.params.len(), 0);
}

#[test]
fn prefix_command() {
    let topic = IrcMessage::parse_slice(":test FOO").unwrap();

    println!("topic: {:?}", topic.prefix);

    assert_eq!(topic.tags.len(), 0);
    assert_eq!(topic.prefix, Some("test"));
    assert_eq!(topic.command, Some("FOO"));
    assert_eq!(topic.params.len(), 0);
}

#[test]
fn prefix_command_trailing_space() {
    let topic = IrcMessage::parse_slice(":test FOO  ").unwrap();

    println!("topic: {:?}", topic.prefix);

    assert_eq!(topic.tags.len(), 0);
    assert_eq!(topic.prefix, Some("test"));
    assert_eq!(topic.command, Some("FOO"));
    assert_eq!(topic.params.len(), 0);
}

#[test]
fn prefix_command_middle_trailing_param() {
    let topic = IrcMessage::parse_slice(":test!me@test.ing PRIVMSG #Test :This is a test");
    let topic = topic.unwrap();

    assert_eq!(topic.tags.len(), 0);
    assert_eq!(topic.prefix, Some("test!me@test.ing"));
    assert_eq!(topic.command, Some("PRIVMSG"));
    assert_eq!(topic.params, vec!["#Test", "This is a test"]);
}

#[test]
fn command_middle_trailing_spaces() {
    let topic = IrcMessage::parse_slice("PRIVMSG #foo :This is a test").unwrap();
    assert_eq!(topic.tags.len(), 0);
    assert_eq!(topic.prefix, None);
    assert_eq!(topic.command, Some("PRIVMSG"));
    assert_eq!(topic.params, vec!["#foo", "This is a test"]);
}

#[test]
fn prefix_command_middle_trailing_spaces() {
    let topic = IrcMessage::parse_slice(":test PRIVMSG foo :A string  with spaces   ").unwrap();
    assert_eq!(topic.tags.len(), 0);
    assert_eq!(topic.prefix, Some("test"));
    assert_eq!(topic.command, Some("PRIVMSG"));
    assert_eq!(topic.params, vec!["foo", "A string  with spaces   "]);
}

#[test]
fn extraneous_spaces() {
    let topic = IrcMessage::parse_slice(":test    PRIVMSG  foo   :bar").unwrap();
    assert_eq!(topic.tags.len(), 0);
    assert_eq!(topic.prefix, Some("test"));
    assert_eq!(topic.command, Some("PRIVMSG"));
    assert_eq!(topic.params, vec!["foo", "bar"]);
}

#[test]
fn multiple_params_prefix() {
    let topic = IrcMessage::parse_slice(":test FOO bar baz quux").unwrap();
    assert_eq!(topic.tags.len(), 0);
    assert_eq!(topic.prefix, Some("test"));
    assert_eq!(topic.command, Some("FOO"));
    assert_eq!(topic.params, vec!["bar", "baz", "quux"]);
}

#[test]
fn multiple_middle_no_prefix() {
    let topic = IrcMessage::parse_slice("FOO bar baz quux").unwrap();
    assert_eq!(topic.tags.len(), 0);
    assert_eq!(topic.prefix, None);
    assert_eq!(topic.command, Some("FOO"));
    assert_eq!(topic.params, vec!["bar", "baz", "quux"]);
}

#[test]
fn multiple_middle_extra_spaces() {
    let topic = IrcMessage::parse_slice("FOO   bar   baz  quux").unwrap();
    assert_eq!(topic.tags.len(), 0);
    assert_eq!(topic.prefix, None);
    assert_eq!(topic.command, Some("FOO"));
    assert_eq!(topic.params, vec!["bar", "baz", "quux"]);
}

#[test]
fn multiple_middle_trailing_params() {
    let topic = IrcMessage::parse_slice("FOO   bar   baz  quux :This is a test").unwrap();
    assert_eq!(topic.tags.len(), 0);
    assert_eq!(topic.prefix, None);
    assert_eq!(topic.command, Some("FOO"));
    assert_eq!(topic.params, vec!["bar", "baz", "quux", "This is a test"]);
}

#[test]
fn multiple_middle_containing_colons() {
    let topic = IrcMessage::parse_slice(":test PRIVMSG #fo:oo :This is a test").unwrap();
    assert_eq!(topic.tags.len(), 0);
    assert_eq!(topic.prefix, Some("test"));
    assert_eq!(topic.command, Some("PRIVMSG"));
    assert_eq!(topic.params,
               vec!["#fo:oo",
                    "This is a test"]);
}

#[test]
fn tags_prefix_command_middle_params_trailiing_params() {
    let topic = IrcMessage::parse_slice(
        "@best=super;single :test!me@test.ing FOO bar baz quux :This is a test");
    let topic = topic.unwrap();

    assert_eq!(topic.tags.get("best"), Some("super"));
    assert_eq!(topic.tags.get("single"), Some("true"));
    assert_eq!(topic.prefix, Some("test!me@test.ing"));
    assert_eq!(topic.command, Some("FOO"));
    assert_eq!(topic.params,
               vec!["bar",
                    "baz",
                    "quux",
                    "This is a test"]);
}

use sigil_chat::command::{
    as_message, candidates, command_query, commands, complete, parse, Command, COUNT,
};

/// A slash at the start, while the word is being typed, is a command being
/// looked for; anywhere else it is a slash.
#[test]
fn the_word_after_a_leading_slash_is_the_query() {
    assert_eq!(command_query("/").as_deref(), Some(""));
    assert_eq!(command_query("/ca").as_deref(), Some("ca"));
    assert_eq!(command_query("/topic x"), None, "the word is finished");
    assert_eq!(command_query("hi /x"), None);
    assert_eq!(command_query("//x"), None, "a message");
    assert_eq!(command_query(""), None);
}

/// The list narrows by prefix, case aside, and empty is all of them.
#[test]
fn candidates_narrow_by_prefix() {
    assert_eq!(candidates("").len(), commands().len());
    let c: Vec<&str> = candidates("Ca").iter().map(|s| s.name).collect();
    assert_eq!(c, vec!["call"]);
    assert!(candidates("zz").is_empty());
    let d: Vec<&str> = candidates("de").iter().map(|s| s.name).collect();
    assert_eq!(d, vec!["decline", "devices"]);
}

/// Completing puts the whole word in, with a space only when something is to
/// follow it.
#[test]
fn completing_leaves_room_for_an_argument_when_there_is_one() {
    let mut t = "/na".to_string();
    complete(&mut t, &candidates("na")[0]);
    assert_eq!(t, "/name ");
    let mut t = "/ca".to_string();
    complete(&mut t, &candidates("ca")[0]);
    assert_eq!(t, "/call");
}

/// A line is a command, a message, or a mistake -- and each is told apart,
/// with the mistake said in words.
#[test]
fn a_line_is_a_command_a_message_or_a_mistake() {
    assert_eq!(parse("hello"), Ok(None));
    assert_eq!(as_message("hello").as_deref(), Some("hello"));
    assert_eq!(parse("/call"), Ok(Some(Command::Call)));
    assert_eq!(parse("  /CALL  "), Ok(Some(Command::Call)), "case and space aside");
    assert_eq!(
        parse("/topic the release is Thursday"),
        Ok(Some(Command::Topic("the release is Thursday".into())))
    );
    assert_eq!(parse("/search  release "), Ok(Some(Command::Search("release".into()))));
    assert!(parse("/topic").unwrap_err().contains("needs <text>"));
    assert!(parse("/frobnicate").unwrap_err().contains("not a command"));
    assert!(parse("/").unwrap_err().contains("Which command"));
    assert_eq!(parse("//etc/hosts"), Ok(None));
    assert_eq!(as_message("//etc/hosts").as_deref(), Some("/etc/hosts"));
    assert_eq!(as_message("/call"), None);
}

/// Every command in the list parses to something: the list is the
/// vocabulary.
#[test]
fn the_list_and_the_parser_agree() {
    for spec in commands() {
        let line = format!("{}x", spec.typed());
        let line = if spec.arg.is_empty() { spec.typed() } else { line };
        assert!(matches!(parse(&line), Ok(Some(_))), "{line:?} is listed and does not parse");
    }
}

#[test]
fn the_list_has_every_command_once() {
    let all = commands();
    assert_eq!(all.len(), COUNT);
    for (i, a) in all.iter().enumerate() {
        for b in &all[i + 1..] {
            assert_ne!(a.name, b.name);
        }
    }
}

#[test]
fn each_command_carries_what_it_was_given() {
    assert_eq!(parse("/name The Four Of Us"), Ok(Some(Command::Name("The Four Of Us".into()))));
    assert_eq!(parse("/invite abc"), Ok(Some(Command::Invite("abc".into()))));
    assert_eq!(parse("/Help"), Ok(Some(Command::Help)));
    assert_eq!(parse("/reconnect now"), Ok(Some(Command::Reconnect)));
    assert_eq!(parse("/invite").unwrap_err(), "/invite needs <key>: /invite <key>");
    assert_eq!(
        parse("/Frob x").unwrap_err(),
        "/frob is not a command. Type / to see them, or // to send a message that starts with a slash."
    );
    assert_eq!(parse("/").unwrap_err(), "Which command? Type / to see them.");
    assert_eq!(parse("   "), Ok(None));
}

#[test]
fn a_capital_in_the_query_is_lowered() {
    let c: Vec<&str> = candidates("SE").iter().map(|s| s.name).collect();
    assert_eq!(c, vec!["settings", "search"]);
    assert_eq!(commands()[6].typed(), "/topic ");
    assert_eq!(commands()[0].typed(), "/call");
}

use sigil_chat::key::Key;
use sigil_chat::mention::{complete_mention, mention_query, mentions_in, MAX_MENTIONS};

fn k(b: u8) -> Key {
    [b; 32]
}

#[test]
fn the_query_is_the_trailing_at_token() {
    assert_eq!(mention_query("hi @Ad").as_deref(), Some("Ad"));
    assert_eq!(mention_query("@").as_deref(), Some(""));
    assert_eq!(mention_query("@Ada").as_deref(), Some("Ada"));
    assert_eq!(mention_query("a@b.c"), None, "an address is not a mention");
    assert_eq!(mention_query("hi @Ada "), None, "finished with");
    assert_eq!(mention_query("hello"), None);
    assert_eq!(mention_query(""), None);
}

#[test]
fn completing_replaces_the_token_being_typed() {
    let mut text = "hi @Ad".to_string();
    complete_mention(&mut text, "Ada");
    assert_eq!(text, "hi @Ada ");
    let mut text = "@".to_string();
    complete_mention(&mut text, "Bram");
    assert_eq!(text, "@Bram ");
}

#[test]
fn completing_with_no_at_adds_one() {
    let mut text = "hi ".to_string();
    complete_mention(&mut text, "Ada");
    assert_eq!(text, "hi @Ada ");
}

/// A recorded mention is sent while its label is in the text as a whole
/// word, and not otherwise.
#[test]
fn a_recorded_mention_is_kept_while_its_label_is_in_the_text() {
    let recorded = vec![("Ada".to_string(), k(2)), ("Adam".to_string(), k(5))];
    assert_eq!(mentions_in("hi @Ada look", &recorded), vec![k(2)]);
    assert_eq!(mentions_in("hi", &recorded), Vec::<Key>::new());
    assert_eq!(mentions_in("@Adam here", &recorded), vec![k(5)], "@Adam is not @Ada");
    assert_eq!(mentions_in("@Ada m", &recorded), vec![k(2)]);
    assert_eq!(
        mentions_in("mail@Ada.example", &recorded),
        Vec::<Key>::new(),
        "inside a word is not a mention"
    );
    assert_eq!(mentions_in("@Ada, @Ada!", &recorded), vec![k(2)], "once");
}

#[test]
fn no_more_than_the_wire_allows() {
    let recorded: Vec<(String, Key)> = (0..40).map(|i| (format!("p{i}"), k(i))).collect();
    let text: String = recorded.iter().map(|(l, _)| format!("@{l} ")).collect();
    assert_eq!(mentions_in(&text, &recorded).len(), MAX_MENTIONS);
    let few: Vec<(String, Key)> = recorded[..31].to_vec();
    let text: String = few.iter().map(|(l, _)| format!("@{l} ")).collect();
    assert_eq!(mentions_in(&text, &few).len(), 31);
}

#[test]
fn a_later_standing_of_the_label_counts() {
    let recorded = vec![("Ada".to_string(), k(2))];
    assert_eq!(mentions_in("x@Ada @Ada", &recorded), vec![k(2)]);
    assert_eq!(mentions_in("@Adax @Ada\ty", &recorded), vec![k(2)]);
    assert_eq!(mentions_in("@Adaé", &recorded), Vec::<Key>::new(), "a letter is a letter");
}

use sigil_chat::mention::{candidates, Known};

fn short(b: u8) -> String {
    format!("K{b}x...{b}yZ")
}

fn members() -> Vec<Known> {
    vec![
        Known { account: k(1), label: "Colin".into(), handle: None, short: short(1) },
        Known { account: k(2), label: "Ada".into(), handle: Some("ada@squic.org".into()), short: short(2) },
        Known { account: k(3), label: "bram@squic.org".into(), handle: Some("bram@squic.org".into()), short: short(3) },
        Known { account: k(4), label: short(4), handle: None, short: short(4) },
    ]
}

#[test]
fn candidates_leave_me_out_and_match_name_handle_or_key() {
    let all = candidates("", &members(), Some(k(1)));
    assert_eq!(all.len(), 3, "{all:?}");
    assert!(all.iter().all(|(_, key)| *key != k(1)));
    let by_name = candidates("ad", &members(), Some(k(1)));
    assert_eq!(by_name, vec![("Ada".to_string(), k(2))]);
    let by_handle = candidates("bram", &members(), Some(k(1)));
    assert_eq!(by_handle.len(), 1);
    assert_eq!(by_handle[0].1, k(3));
    assert_eq!(by_handle[0].0, "bram@squic.org", "no name: the handle is the label");
    let s = short(4);
    let by_key = candidates(&s[..3], &members(), Some(k(1)));
    assert!(by_key.iter().any(|(_, key)| *key == k(4)), "{by_key:?}");
    assert!(candidates("zzz", &members(), Some(k(1))).is_empty());
}

#[test]
fn candidates_come_by_name_case_aside_then_by_key_and_once() {
    let ms = vec![
        Known { account: k(9), label: "bea".into(), handle: None, short: short(9) },
        Known { account: k(5), label: "Bea".into(), handle: None, short: short(5) },
        Known { account: k(6), label: "al".into(), handle: None, short: short(6) },
        Known { account: k(5), label: "Bea".into(), handle: None, short: short(5) },
    ];
    let got = candidates("", &ms, None);
    assert_eq!(
        got,
        vec![("al".to_string(), k(6)), ("Bea".to_string(), k(5)), ("bea".to_string(), k(9))]
    );
    assert_eq!(candidates("BE", &ms, None).len(), 2, "the query's case is set aside too");
}

use sigil_chat::session::{Arrival, Mention};
use sigil_chat::words::{arrivals_said, cross_said, mention_said, ring_said, save_name, target};

/// The caller's short key, as the host would write it.
const SHORT: &str = "AgIC...AgIC";

fn a_mention(seq: u64, in_open: bool) -> Mention {
    let mut m = an_arrival(seq, in_open);
    m.mentions_me = true;
    m
}

fn an_arrival(seq: u64, in_open: bool) -> Arrival {
    Arrival {
        channel: [8u8; 32],
        seq,
        from: [2u8; 32],
        direct: false,
        mentions_me: false,
        from_label: "Ada".into(),
        conversation: "general".into(),
        public: true,
        said: "look at this".into(),
        in_open,
    }
}

#[test]
fn a_ring_names_the_identity_it_arrived_at() {
    let said = ring_said(SHORT, "Ada", "colin@squic.org", 3);
    assert!(said.contains("Ada"), "{said}");
    assert!(said.contains("colin@squic.org"), "{said}");
    assert!(said.contains(SHORT), "{said}");
    assert_eq!(said, "Ada — from AgIC...AgIC, to colin@squic.org");
}

#[test]
fn a_ring_at_the_only_identity_does_not_name_it() {
    let said = ring_said(SHORT, "Ada", "colin@squic.org", 1);
    assert!(said.contains("Ada"), "{said}");
    assert!(!said.contains("colin@squic.org"), "a fact nobody was in doubt about: {said}");
}

#[test]
fn a_ring_from_another_exchange_says_so() {
    assert_eq!(cross_said("Ada", "me", 1), "Ada, from another exchange");
    assert_eq!(cross_said("Ada", "me", 2), "Ada, from another exchange — to me");
}

#[test]
fn a_mention_names_the_identity_only_when_there_are_several() {
    let (one, _) = mention_said(&a_mention(1, false), "colin@squic.org", 1, SHORT);
    assert_eq!(one, "Ada mentioned you in #general");
    let (several, _) = mention_said(&a_mention(1, false), "colin@squic.org", 3, SHORT);
    assert!(several.contains("as colin@squic.org"), "{several}");
    let mut private = a_mention(1, false);
    private.public = false;
    private.conversation = "the four of us".into();
    let (s, _) = mention_said(&private, "x", 1, SHORT);
    assert_eq!(s, "Ada mentioned you in the four of us");
}

#[test]
fn a_mention_body_is_the_key_and_what_was_said() {
    let (_, body) = mention_said(&a_mention(1, false), "me", 1, SHORT);
    assert_eq!(body, "AgIC...AgIC — look at this");
    let mut quiet = a_mention(1, false);
    quiet.said = String::new();
    let (_, body) = mention_said(&quiet, "me", 1, SHORT);
    assert_eq!(body, SHORT);
}

#[test]
fn arrivals_are_worded_for_direct_messages_and_several_identities() {
    let mut direct = an_arrival(1, false);
    direct.direct = true;
    direct.conversation = "Ada".into();
    let (summary, body) = arrivals_said(&[direct.clone()], "me", 1);
    assert_eq!(summary, "Ada");
    assert_eq!(body, "look at this");
    let (summary, body) = arrivals_said(&[direct.clone(), direct.clone()], "me", 2);
    assert_eq!(summary, "2 new messages from Ada, as me");
    assert_eq!(body, "look at this");
}

#[test]
fn several_in_a_room_are_counted_and_the_last_speaks() {
    let (summary, body) =
        arrivals_said(&[an_arrival(1, false), an_arrival(2, false), an_arrival(3, false)], "me", 1);
    assert_eq!(summary, "3 new messages in #general");
    assert_eq!(body, "Ada: look at this");
    let (summary, _) = arrivals_said(&[an_arrival(1, false)], "me", 1);
    assert_eq!(summary, "Ada in #general");
    let many: Vec<Arrival> = (0..12).map(|i| an_arrival(i, false)).collect();
    assert_eq!(arrivals_said(&many, "me", 1).0, "12 new messages in #general");
}

#[test]
fn a_notification_leads_to_its_conversation() {
    let t = target(&([4u8; 32], "squic.org".to_string()), [8u8; 32]);
    assert_eq!(t.identity, [4u8; 32]);
    assert_eq!(t.exchange, "squic.org");
    assert_eq!(t.channel, [8u8; 32]);
    assert!(!t.answer);
}

#[test]
fn a_saved_file_is_named_for_its_moment_and_its_kind() {
    let said = save_name("2025-09-22-16-52-05", 0, "png");
    assert!(said.starts_with("sigil-"), "{said}");
    assert!(said.ends_with(".png"), "{said}");
    assert_eq!(said.len(), "sigil-".len() + 19 + ".png".len(), "{said}");
    assert!(said.chars().all(|c| c.is_ascii_alphanumeric() || c == '-' || c == '.'), "{said}");
}

#[test]
fn two_files_of_one_message_are_two_names() {
    assert_ne!(save_name("2025-09-22-16-52-05", 0, "png"), save_name("2025-09-22-16-52-05", 1, "png"));
    assert_eq!(save_name("2025-09-22-16-52-05", 1, "png"), "sigil-2025-09-22-16-52-05-2.png");
}

#[test]
fn a_later_message_gets_a_later_name() {
    assert_ne!(save_name("2025-09-22-16-52-05", 0, "png"), save_name("2025-09-22-16-53-19", 0, "png"));
}

#[test]
fn who_else_compared_the_words_is_read_back_as_their_word() {
    assert_eq!(
        sigil_chat::words::attested_said(&[]),
        "Nobody else has said they compared these words."
    );
    assert_eq!(
        sigil_chat::words::attested_said(&["Ada".to_string()]),
        "One person has said at this exchange that they compared them: Ada. Their word, not a check \u{2014} the words above are."
    );
    assert_eq!(
        sigil_chat::words::attested_said(&["Ada".to_string(), "Bram".to_string(), "Cy".to_string()]),
        "3 people have said at this exchange that they compared them: Ada, Bram, Cy. Their word, not a check \u{2014} the words above are."
    );
}

#[test]
fn a_search_says_how_much_it_found_and_where_it_looked() {
    assert_eq!(sigil_chat::words::hits_said(0, false), "\u{2026}");
    assert_eq!(sigil_chat::words::hits_said(0, true), "Nothing here matched.");
    assert_eq!(sigil_chat::words::hits_said(1, true), "1 result in what this client holds");
    assert_eq!(sigil_chat::words::hits_said(7, true), "7 results in what this client holds");
}

#[test]
fn a_calls_bar_says_whose_call_how_long_and_how_it_goes() {
    assert_eq!(sigil_chat::words::call_state_said(None, true), "In a call");
    assert_eq!(sigil_chat::words::call_state_said(None, false), "Connecting\u{2026}");
    assert_eq!(sigil_chat::words::call_state_said(Some("Ada"), true), "In a call as Ada");
    assert_eq!(sigil_chat::words::call_state_said(Some("Ada"), false), "Connecting\u{2026} as Ada");
    for s in [0u64, 9, 61, 599, 3_725, 6_000] {
        assert_eq!(sigil_chat::words::call_clock(s), format!("{:02}:{:02}", s / 60, s % 60));
    }
    assert_eq!(
        sigil_chat::words::relayed_said(None),
        "Relayed by the exchange: no introduction was asked for."
    );
    assert_eq!(
        sigil_chat::words::relayed_said(Some("they are behind a strict NAT")),
        "Relayed by the exchange: they are behind a strict NAT."
    );
}

#[test]
fn a_voice_note_is_named_for_its_moment() {
    assert_eq!(sigil_chat::words::note_name("2026-09-22-18-32-05"), "voice-2026-09-22-18-32-05.ogg");
}

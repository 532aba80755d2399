use sigil_chat::exchange::{
    adding, found_row, local_part, not_added_said, nothing_found_said, offered_peers, Adding,
    Found,
};
use sigil_chat::text::{entered, same_ignoring_ascii_case};

#[test]
fn peers_offered_are_those_with_a_domain_not_here_and_not_held() {
    let peers = vec![
        ([1u8; 32], String::new()),
        ([2u8; 32], "squic.org".to_string()),
        ([3u8; 32], "Other.NET".to_string()),
        ([4u8; 32], "third.example".to_string()),
    ];
    let here = Some("squic.org".to_string());
    let held = vec![String::new(), "other.net".to_string()];
    assert_eq!(offered_peers(&peers, &here, &held), vec![([4u8; 32], "third.example".to_string())]);
    assert_eq!(offered_peers(&peers, &None, &[]).len(), 3);
}

#[test]
fn the_home_cannot_carry_a_connection_to_itself() {
    let home = Some("Squic.org".to_string());
    let r = adding("  squic.ORG ", &home);
    assert!(
        matches!(&r, Adding::Home(w) if w == "squic.ORG is your home; it carries connections to other exchanges."),
        "{r:?}"
    );
    let r = adding(" other.net ", &home);
    assert!(matches!(&r, Adding::Add(n, Some(v)) if n == "other.net" && v == "Squic.org"), "{r:?}");
    let r = adding("other.net", &None);
    assert!(matches!(&r, Adding::Add(n, None) if n == "other.net"), "{r:?}");
}

#[test]
fn an_exchange_not_added_says_why() {
    assert_eq!(not_added_said(""), "Name an exchange \u{2014} a domain, or host:port.");
    assert_eq!(not_added_said("squic.org"), "This identity is already connected to squic.org.");
}

#[test]
fn ascii_case_aside_is_what_std_means_by_it() {
    for (a, b) in [("Squic.ORG", "squic.org"), ("é", "É"), ("a", "ab"), ("", ""), ("ΣX", "Σx")] {
        assert_eq!(same_ignoring_ascii_case(a, b), a.eq_ignore_ascii_case(b), "{a} {b}");
    }
}

#[test]
fn a_name_claimed_is_the_words_trimmed_and_given_up_by_its_local_part() {
    assert_eq!(entered("  ada "), Some("ada".to_string()));
    assert_eq!(entered("   "), None);
    assert_eq!(local_part("ada@squic.org"), "ada");
    assert_eq!(local_part("ada"), "ada");
    assert_eq!(local_part("a@b@c"), "a");
    assert_eq!(local_part("@squic.org"), "");
}

#[test]
fn a_channel_found_elsewhere_offers_its_exchange_through_the_home() {
    let home = Some("squic.org".to_string());
    assert!(matches!(found_row(true, false, false, "other.net", &home), Found::Joined));
    assert!(matches!(found_row(false, true, false, "squic.org", &home), Found::Join));
    let r = found_row(false, false, false, "other.net", &home);
    assert!(matches!(&r, Found::AddExchange { label, via: true } if label == "Add other.net"), "{r:?}");
    let r = found_row(false, false, true, "SQUIC.org", &home);
    assert!(matches!(&r, Found::AddExchange { label, via: false } if label == "Add exchange"), "{r:?}");
    let r = found_row(false, false, false, "other.net", &None);
    assert!(matches!(&r, Found::AddExchange { via: false, .. }), "{r:?}");
    assert_eq!(nothing_found_said(true), "Nothing matched.");
    assert_eq!(nothing_found_said(false), "Search to see what this exchange is carrying.");
}

#[test]
fn an_identity_with_nowhere_to_talk_to_is_offered_a_public_exchange() {
    let (said, suggest, other) = sigil_chat::exchange::unconnected_said(&[String::new()]);
    assert_eq!(said, "This identity names no exchange, so there is nothing for it to talk to.");
    assert_eq!(suggest.as_deref(), Some("Add trunk.exchange"));
    assert_eq!(other, "Add a different exchange");
    let (said, suggest, other) = sigil_chat::exchange::unconnected_said(&["squic.org".to_string()]);
    assert!(said.starts_with("Not connected to this exchange."));
    assert_eq!(suggest, None);
    assert_eq!(other, "Add an exchange");
    assert_eq!(sigil_chat::exchange::suggested_exchange(), "trunk.exchange");
}

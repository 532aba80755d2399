use sigil_chat::chat::{
    answer_step, banner_of, call_is_over, cross_for, cross_key, direct_allowed, duplicate_of,
    first_look, member_acts, put_down, retention_secs, settings_seed, showing_exchange, to_join,
    write_to, Answering, Banner, Carrying, CrossRing, MemberAct, Phase, WriteTo,
};
use sigil_chat::key::Key;
use sigil_chat::session::{Member, Ring, Summary};

fn key(b: u8) -> Key {
    [b; 32]
}

#[test]
fn a_carried_connection_never_asks_for_an_introduction() {
    assert!(direct_allowed(true, true, false), "direct, when everybody agrees");
    assert!(!direct_allowed(true, true, true), "carried: never");
    assert!(!direct_allowed(false, true, false), "the invitation did not say so");
    assert!(!direct_allowed(true, false, false), "this side does not allow it");
}

#[test]
fn a_bridge_is_the_first_half_of_its_key() {
    let k = cross_key([7u8; 16]);
    assert_eq!(&k[..16], &[7u8; 16]);
    assert_eq!(&k[16..], &[0u8; 16]);
}

#[test]
fn the_added_name_is_the_one_to_remove_either_way() {
    let me = key(1);
    let exchange = key(9);
    let default = (me, String::new());
    let added = (me, "squic.org".to_string());
    assert_eq!(
        duplicate_of(&added, Some(exchange), &[(default.clone(), Some(exchange))]),
        Some("squic.org".to_string())
    );
    assert_eq!(
        duplicate_of(&default, Some(exchange), &[(added.clone(), Some(exchange))]),
        Some("squic.org".to_string())
    );
}

#[test]
fn a_lock_nobody_here_holds_is_not_called_a_duplicate() {
    let me = key(1);
    let exchange = key(9);
    let added = (me, "squic.org".to_string());
    assert_eq!(duplicate_of(&added, Some(exchange), &[]), None);
    assert_eq!(duplicate_of(&added, Some(exchange), &[((me, String::new()), Some(key(8)))]), None);
    assert_eq!(
        duplicate_of(&added, Some(exchange), &[((key(2), String::new()), Some(exchange))]),
        None
    );
    assert_eq!(duplicate_of(&added, None, &[((me, String::new()), Some(exchange))]), None);
}

#[test]
fn an_identity_with_no_working_default_is_shown_where_it_is_connected() {
    let me = key(1);
    let live = [(me, "squic.org".to_string())];
    assert_eq!(showing_exchange(me, None, &live), "squic.org");
}

#[test]
fn the_default_is_preferred_when_there_is_a_session_for_it() {
    let me = key(1);
    let live = [(me, String::new()), (me, "squic.org".to_string())];
    assert_eq!(showing_exchange(me, None, &live), "");
}

#[test]
fn an_explicit_choice_is_honoured_whether_or_not_it_works() {
    let me = key(1);
    let live = [(me, "squic.org".to_string())];
    let chosen = String::new();
    assert_eq!(showing_exchange(me, Some(&chosen), &live), "");
    let other = "indra.org".to_string();
    assert_eq!(showing_exchange(me, Some(&other), &live), "indra.org");
}

#[test]
fn another_identitys_exchange_is_not_borrowed() {
    let me = key(1);
    let live = [(key(2), "squic.org".to_string())];
    assert_eq!(showing_exchange(me, None, &live), "");
}

fn convo(channel: u8, at: Option<u64>) -> Summary {
    Summary {
        channel: [channel; 32],
        peer: None,
        label: String::new(),
        unread: 0,
        mentioned: 0,
        preview: None,
        at,
        public: Some(false),
        group: false,
        typing: false,
        waiting: false,
    }
}

#[test]
fn arriving_opens_the_latest_conversation() {
    let convos = [convo(1, Some(10)), convo(2, Some(90)), convo(3, Some(50))];
    assert_eq!(first_look(None, false, false, &convos), Some([2; 32]));
    let backwards = [convo(3, Some(50)), convo(2, Some(90)), convo(1, Some(10))];
    assert_eq!(first_look(None, false, false, &backwards), Some([2; 32]));
}

#[test]
fn it_happens_once_and_not_on_every_pass() {
    let convos = [convo(1, Some(10)), convo(2, Some(90))];
    assert_eq!(first_look(None, true, false, &convos), None);
}

#[test]
fn what_is_already_open_stays_open() {
    let convos = [convo(1, Some(10)), convo(2, Some(90))];
    assert_eq!(first_look(Some([1; 32]), false, false, &convos), None);
}

#[test]
fn a_one_pane_window_is_left_on_the_list() {
    let convos = [convo(1, Some(10)), convo(2, Some(90))];
    assert_eq!(first_look(None, false, true, &convos), None);
}

#[test]
fn an_empty_list_opens_nothing() {
    assert_eq!(first_look(None, false, false, &[]), None);
}

#[test]
fn a_conversation_with_no_messages_is_still_a_conversation() {
    let convos = [convo(1, None), convo(2, None)];
    assert_eq!(first_look(None, false, false, &convos), Some([1; 32]));
}

/// The ring window, in milliseconds, for the tests below.
const WINDOW_MS: u64 = 60_000;

fn ring(mine: bool, answered: bool) -> Ring {
    Ring {
        channel: [1u8; 32],
        seq: 4,
        from: [2u8; 32],
        mine,
        secret: [3u8; 32],
        answered,
        label: "somebody".into(),
        direct: false,
        peer: None,
    }
}

#[test]
fn a_room_that_had_somebody_and_now_has_nobody_is_over() {
    assert!(call_is_over(Phase::Live, 0, 0, true, false, 0, WINDOW_MS));
    assert!(!call_is_over(Phase::Live, 0, 0, false, false, 0, WINDOW_MS));
    assert!(!call_is_over(Phase::Live, 1, 0, true, false, 0, WINDOW_MS));
    assert!(!call_is_over(Phase::Live, 0, 1, true, false, 0, WINDOW_MS));
}

#[test]
fn a_call_also_ends_when_the_task_the_channel_or_the_ring_window_says_so() {
    assert!(call_is_over(Phase::Ended, 1, 0, true, false, 0, WINDOW_MS));
    assert!(call_is_over(Phase::Live, 1, 0, true, true, 0, WINDOW_MS));
    let past = WINDOW_MS + 1_000;
    assert!(call_is_over(Phase::Connecting, 0, 0, false, false, past, WINDOW_MS));
    assert!(!call_is_over(Phase::Connecting, 0, 0, false, false, 0, WINDOW_MS));
    assert!(!call_is_over(Phase::Live, 1, 0, true, false, past, WINDOW_MS), "live is not waiting");
}

#[test]
fn our_own_call_being_answered_is_the_one_to_join() {
    let rings = vec![ring(true, true)];
    assert!(to_join(&rings, false, &[]).is_some());
}

#[test]
fn a_call_just_left_is_not_joined_again() {
    let rings = vec![ring(true, true)];
    let left = [(rings[0].channel, rings[0].seq)];
    assert!(to_join(&rings, false, &left).is_none());
    assert!(to_join(&rings, false, &[]).is_some());
}

#[test]
fn a_call_still_ringing_is_not_joined() {
    assert!(to_join(&[ring(true, false)], false, &[]).is_none());
}

#[test]
fn somebody_elses_ring_is_not_ours_to_join() {
    assert!(to_join(&[ring(false, true)], false, &[]).is_none());
    assert!(to_join(&[ring(false, false)], false, &[]).is_none());
}

#[test]
fn a_call_already_being_carried_is_not_joined_again() {
    assert!(to_join(&[ring(true, true)], true, &[]).is_none());
}

#[test]
fn the_answered_one_is_found_among_several() {
    let rings = vec![ring(false, true), ring(true, false), ring(true, true)];
    let found = to_join(&rings, false, &[]).expect("ours, answered");
    assert!(found.mine && found.answered);
}

#[test]
fn an_admin_is_offered_more_than_a_member() {
    let them = Member { account: key(5), admin: false, muted: false };
    let plain: Vec<MemberAct> = member_acts(false, false, false, &them).iter().map(|a| a.2).collect();
    assert_eq!(plain, vec![MemberAct::Verify, MemberAct::Block(true)]);
    let acts = member_acts(true, true, true, &them);
    let words: Vec<&str> = acts.iter().map(|a| a.0.as_str()).collect();
    assert_eq!(words, vec!["Verified", "Remove", "Make admin", "Mute", "Unblock"]);
    let admin = Member { account: key(6), admin: true, muted: true };
    let kinds: Vec<MemberAct> = member_acts(false, false, true, &admin).iter().map(|a| a.2).collect();
    assert_eq!(
        kinds,
        vec![MemberAct::Verify, MemberAct::Kick, MemberAct::Grant(false), MemberAct::Block(true)]
    );
}

use sigil_chat::chat::{default_label, exchange_label};

#[test]
fn the_default_exchange_is_called_by_its_domain() {
    let short = "CKaT...BkGD".to_string();
    assert_eq!(default_label(Some(&"squic.org".to_string()), Some(&short)), "squic.org");
}

#[test]
fn without_a_domain_the_key_stands_in() {
    let whole = "CKaTJqqpVNFCT3KFZgNHqA7s24Yu2XGwaEYTfB9KBkGD";
    let short = "CKaT...BkGD".to_string();
    let said = default_label(None, Some(&short));
    assert_ne!(said, "default");
    let (head, tail) = said.split_once("...").expect("a short key: {said}");
    assert!(whole.starts_with(head) && whole.ends_with(tail), "{said} is not the two ends of {whole}");
    assert_eq!(default_label(Some(&String::new()), Some(&short)), short);
}

#[test]
fn with_no_session_at_all_it_is_just_the_default() {
    assert_eq!(default_label(None, None), "default");
}

#[test]
fn an_exchange_carried_through_the_home_says_where_through() {
    assert_eq!(exchange_label("", "squic.org".to_string(), None), "squic.org");
    assert_eq!(exchange_label("indra.org", "x".to_string(), None), "indra.org");
    let home = "squic.org".to_string();
    assert_eq!(exchange_label("indra.org", "x".to_string(), Some(&home)), "indra.org via squic.org");
}

use sigil_chat::chat::{back_of, call_pass, Back};

#[test]
fn a_peer_first_seen_is_remembered_after_the_pass() {
    assert_eq!(call_pass(Phase::Live, 1, 0, false, false, 0, WINDOW_MS), (false, true));
    assert_eq!(call_pass(Phase::Live, 0, 0, true, false, 0, WINDOW_MS), (true, true));
    assert_eq!(call_pass(Phase::Live, 0, 0, false, false, 0, WINDOW_MS), (false, false));
}

#[test]
fn back_closes_what_is_open_then_goes_to_the_identity() {
    assert_eq!(back_of(true, true, true), Back::Nothing);
    assert_eq!(back_of(false, true, true), Back::Close);
    assert_eq!(back_of(false, true, false), Back::Switch);
    assert_eq!(back_of(false, false, true), Back::Nothing);
}

use sigil_chat::chat::{calling_label, Calling};

#[test]
fn the_call_being_carried_is_told_once_per_change() {
    assert_eq!(calling_label(false, Some("Ada".into())), None);
    assert_eq!(calling_label(true, Some("Ada".into())).as_deref(), Some("Ada"));
    assert_eq!(calling_label(true, None).as_deref(), Some(""), "a call is still a call");
    let mut c = Calling::new();
    assert_eq!(c.tell(None), None, "nothing to tell");
    assert_eq!(c.tell(Some("Ada".into())), Some(Some("Ada".to_string())));
    assert_eq!(c.tell(Some("Ada".into())), None, "told once");
    assert_eq!(c.tell(None), Some(None), "the call ended");
}

use sigil_chat::chat::Route;

#[test]
fn each_place_has_its_name_in_the_bar() {
    assert_eq!(Route::Conversations.title(), None);
    assert_eq!(Route::Settings.title().as_deref(), Some("Channel settings"));
    assert_eq!(Route::Me.title().as_deref(), Some("Settings"));
    assert_eq!(Route::Directory.title().as_deref(), Some("Public channels"));
}

#[test]
fn an_answer_pressed_answers_the_first_ring_that_is_somebody_elses_and_unanswered() {
    let mut other = ring(false, false);
    other.channel = [5u8; 32];
    let rings = vec![other, ring(true, false), ring(false, true), ring(false, false)];
    let r = answer_step(1_000, 30_000, true, &None, &[1u8; 32], &rings);
    assert!(matches!(r, Answering::Ring(3)), "{r:?}");
}

#[test]
fn an_answer_pressed_waits_for_its_ring_and_then_gives_up() {
    let rings = vec![ring(true, false)];
    assert!(matches!(answer_step(1_000, 30_000, true, &None, &[1u8; 32], &rings), Answering::Wait));
    assert!(matches!(answer_step(1_000, 30_000, false, &None, &[1u8; 32], &[]), Answering::Wait));
    assert!(matches!(answer_step(30_001, 30_000, true, &None, &[1u8; 32], &rings), Answering::Forget));
    assert!(matches!(answer_step(30_000, 30_000, false, &None, &[1u8; 32], &rings), Answering::Wait));
}

#[test]
fn an_answer_pressed_for_a_bridge_answers_the_cross_exchange_call() {
    let cross = Some(CrossRing { bridge: [6u8; 16], caller: [8u8; 32] });
    let channel = cross_key([6u8; 16]);
    assert!(cross_for(&cross, &channel));
    assert!(!cross_for(&cross, &[6u8; 32]));
    assert!(!cross_for(&None, &channel));
    let r = answer_step(0, 30_000, true, &cross, &channel, &[ring(false, false)]);
    assert!(matches!(r, Answering::Cross(k) if k == [8u8; 32]), "{r:?}");
}


#[test]
fn the_default_exchange_is_listed_only_when_it_resolves() {
    let names = vec![String::new(), "squic.org".to_string(), "home.example".to_string()];
    assert_eq!(
        sigil_chat::chat::listable(&names, false),
        vec!["squic.org".to_string(), "home.example".to_string()]
    );
    assert_eq!(sigil_chat::chat::listable(&names, true), names);
}

#[test]
fn a_call_put_down_is_not_joined_again() {
    let rings = vec![ring(true, true)];
    let mut left = Vec::new();
    let call = Carrying { channel: [1u8; 32], seq: 4, cross: false };
    assert_eq!(put_down(&call, 61_999, &mut left), Some(([1u8; 32], 4, 61)));
    assert!(to_join(&rings, false, &left).is_none());
    let cross = Carrying { channel: [0u8; 32], seq: 0, cross: true };
    let mut none = Vec::new();
    assert_eq!(put_down(&cross, 5_000, &mut none), None);
    assert!(none.is_empty());
    let mut long = Vec::new();
    assert_eq!(put_down(&call, u64::MAX, &mut long), Some(([1u8; 32], 4, u32::MAX)));
}

fn not_a_key() -> Result<Key, String> {
    Err("invalid length".to_string())
}

#[test]
fn another_exchanges_name_is_written_to_through_the_home() {
    let here = Some("squic.org".to_string());
    let r = write_to("  ada@elsewhere.net ", &not_a_key(), &here, "");
    assert!(matches!(&r, WriteTo::Remote(t) if t == "ada@elsewhere.net"), "{r:?}");
    let r = write_to("ada@elsewhere.net", &not_a_key(), &here, "work.example");
    assert!(
        matches!(&r, WriteTo::Elsewhere(w) if w == "elsewhere.net is another exchange: write to people there from your home, not from work.example."),
        "{r:?}"
    );
}

#[test]
fn a_name_at_this_exchange_is_looked_up_and_a_key_is_opened() {
    let here = Some("squic.org".to_string());
    let r = write_to("ada@squic.org", &not_a_key(), &here, "");
    assert!(matches!(&r, WriteTo::ByName(t) if t == "ada@squic.org"), "{r:?}");
    let r = write_to("@squic.org", &not_a_key(), &here, "");
    assert!(matches!(&r, WriteTo::ByName(t) if t == "@squic.org"), "no name: not another exchange");
    let r = write_to("abc", &Ok([5u8; 32]), &here, "");
    assert!(matches!(r, WriteTo::Contact(k) if k == [5u8; 32]));
    let r = write_to("nonsense", &not_a_key(), &here, "");
    assert!(
        matches!(&r, WriteTo::Trouble(w) if w == "not a key, and not a name@domain: invalid length"),
        "{r:?}"
    );
}

#[test]
fn settings_are_seeded_once_for_each_conversation_opened() {
    let mut named = convo(2, None);
    named.label = "Garden".into();
    let convos = [convo(1, None), named];
    let topic = "tomatoes".to_string();
    assert_eq!(
        settings_seed(Some([2u8; 32]), None, &convos, &topic),
        Some(("Garden".to_string(), "tomatoes".to_string(), [2u8; 32]))
    );
    assert_eq!(settings_seed(Some([2u8; 32]), Some([2u8; 32]), &convos, &topic), None);
    assert_eq!(settings_seed(None, None, &convos, &topic), None);
    assert_eq!(
        settings_seed(Some([7u8; 32]), Some([2u8; 32]), &convos, &topic),
        Some((String::new(), "tomatoes".to_string(), [7u8; 32]))
    );
    assert_eq!(retention_secs(30), 2_592_000);
    assert_eq!(retention_secs(u32::MAX), u32::MAX as u64 * 86_400);
}

#[test]
fn an_incoming_ring_is_shown_before_our_own_and_a_cross_one_before_both() {
    let rings = vec![ring(true, false), ring(false, true), ring(false, false)];
    assert_eq!(banner_of(false, &rings), Banner::Incoming(2));
    assert_eq!(banner_of(true, &rings), Banner::Cross);
    assert_eq!(banner_of(false, &rings[..2]), Banner::Calling(0));
    assert_eq!(banner_of(false, &[ring(true, true)]), Banner::Quiet, "answered: the call's own bar");
    assert_eq!(banner_of(false, &[]), Banner::Quiet);
}

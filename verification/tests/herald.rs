use sigil_chat::chat::At;
use sigil_chat::herald::{
    ArrivalSeen, Herald, MentionSeen, Notice, RingSeen, SessionArrivals, Sound, Urgency, Want,
};
use sigil_chat::key::Key;
use sigil_chat::session::{Arrival, Mention};
use sigil_chat::words::{target, Target};

const SHORT: &str = "AgIC...AgIC";

fn key(b: u8) -> Key {
    [b; 32]
}

fn at() -> At {
    (key(4), String::new())
}

fn a_mention(seq: u64, in_open: bool) -> Mention {
    let mut m = an_arrival(seq, in_open);
    m.mentions_me = true;
    m
}

fn an_arrival(seq: u64, in_open: bool) -> Arrival {
    Arrival {
        channel: [8u8; 32],
        seq,
        from: key(2),
        direct: false,
        mentions_me: false,
        from_label: "Ada".into(),
        conversation: "general".into(),
        public: true,
        said: "look at this".into(),
        in_open,
    }
}

fn mentioned(m: Mention, silenced: bool) -> MentionSeen {
    MentionSeen { at: at(), me: "me".into(), mention: m, who: SHORT.into(), silenced }
}

fn session(arrivals: Vec<Arrival>, silenced: bool) -> SessionArrivals {
    SessionArrivals {
        at: at(),
        me: "me".into(),
        arrivals: arrivals.into_iter().map(|arrival| ArrivalSeen { arrival, silenced }).collect(),
    }
}

fn a_ring(channel: u8, seq: u64, said: &str, silenced: bool) -> RingSeen {
    RingSeen {
        key: (key(channel), seq),
        mine: false,
        said: said.into(),
        to: target(&at(), key(channel)),
        silenced,
    }
}

fn words(n: &[Notice]) -> Vec<(String, String)> {
    n.iter().map(|n| (n.summary.clone(), n.body.clone())).collect()
}

#[test]
fn a_mention_is_said_once_when_not_looking_and_never_when_looking() {
    let mut h = Herald::new();
    let said = h.mentions(&[mentioned(a_mention(1, true), false)], true, 1);
    assert_eq!(said.len(), 1, "{:?}", words(&said));
    assert_eq!(said[0].summary, "Ada mentioned you in #general");
    assert!(said[0].body.contains("look at this") && said[0].body.contains(SHORT), "{}", said[0].body);
    assert_eq!(said[0].sound, Sound::Default);

    let again = h.mentions(&[mentioned(a_mention(1, true), false)], true, 1);
    assert!(again.is_empty(), "told twice");

    let looking = h.mentions(&[mentioned(a_mention(2, true), false)], false, 1);
    assert!(looking.is_empty(), "said about a message on screen");

    let elsewhere = h.mentions(&[mentioned(a_mention(3, false), false)], false, 1);
    assert_eq!(elsewhere.len(), 1);
}

#[test]
fn a_mention_away_asks_for_attention_and_a_ring_asks_to_be_presented() {
    let mut h = Herald::new();
    h.mentions(&[mentioned(a_mention(1, true), false)], true, 1);
    assert_eq!(h.take_wants(), vec![Want::Attention(Urgency::Informational)]);
    assert_eq!(h.take_wants(), vec![], "taken once");

    h.mentions(&[mentioned(a_mention(2, false), false)], false, 1);
    assert_eq!(h.take_wants(), vec![], "in front: nothing asked");

    let live = [(key(8), 100)];
    h.rings(&[a_ring(8, 100, "Ada is calling", false)], &live);
    assert_eq!(h.take_wants(), vec![Want::Present, Want::Attention(Urgency::Critical)]);
    h.rings(&[], &live);
    assert_eq!(h.take_wants(), vec![], "no ring, nothing asked");
}

#[test]
fn a_ring_that_has_stopped_ringing_is_taken_down_once() {
    let mut h = Herald::new();
    let both = [a_ring(8, 1, "one", false), a_ring(9, 7, "two", false)];
    let (said, gone) = h.rings(&both, &[(key(8), 1), (key(9), 7)]);
    assert_eq!(said.len(), 2);
    assert!(gone.is_empty());

    let (said, mut taken) = h.rings(&[], &[]);
    assert!(said.is_empty());
    taken.sort_by_key(|t| t.channel);
    assert_eq!(taken, vec![target(&at(), key(8)), target(&at(), key(9))], "both rings should be taken down");

    let (_, taken) = h.rings(&[], &[]);
    assert!(taken.is_empty(), "a ring was taken down twice");
}

#[test]
fn a_ring_still_ringing_is_left_alone_and_said_once() {
    let mut h = Herald::new();
    let live = [(key(8), 1), (key(9), 2)];
    let (said, _) = h.rings(&[a_ring(8, 1, "one", false)], &live);
    assert_eq!(said[0].summary, "Incoming call");
    assert_eq!(said[0].body, "one");
    assert_eq!(said[0].sound, Sound::Ring);
    assert_eq!(said[0].target, Some(target(&at(), key(8))));
    let (said, gone) = h.rings(&[a_ring(8, 1, "one", false), a_ring(9, 2, "two", false)], &live);
    assert_eq!(words(&said), vec![("Incoming call".to_string(), "two".to_string())]);
    assert!(gone.is_empty());
    let (_, gone) = h.rings(&[], &[(key(9), 2)]);
    assert_eq!(gone, vec![target(&at(), key(8))]);
}

#[test]
fn our_own_ring_is_not_said() {
    let mut h = Herald::new();
    let mut ours = a_ring(8, 1, "ours", false);
    ours.mine = true;
    let (said, _) = h.rings(&[ours], &[(key(8), 1)]);
    assert!(said.is_empty());
    assert_eq!(h.take_wants(), vec![]);
}

#[test]
fn arrivals_are_said_while_away_grouped_by_conversation_and_lead_back() {
    let mut h = Herald::new();
    let said = h.arrivals(&[session(vec![an_arrival(1, false)], false)], true, 1);
    assert_eq!(said.len(), 1, "{:?}", words(&said));
    assert_eq!(said[0].summary, "Ada in #general");
    assert_eq!(said[0].body, "look at this");
    assert_eq!(
        said[0].target,
        Some(Target { identity: key(4), exchange: String::new(), channel: [8u8; 32], answer: false })
    );
    assert_eq!(said[0].sound, Sound::Default);

    let again = h.arrivals(&[session(vec![an_arrival(1, false)], false)], true, 1);
    assert!(again.is_empty());

    let three = h.arrivals(
        &[session(vec![an_arrival(2, false), an_arrival(3, false), an_arrival(4, false)], false)],
        true,
        1,
    );
    assert_eq!(three.len(), 1, "{:?}", words(&three));
    assert_eq!(three[0].summary, "3 new messages in #general");
    assert_eq!(three[0].body, "Ada: look at this");

    let mention = h.arrivals(&[session(vec![a_mention(5, false)], false)], true, 1);
    assert!(mention.is_empty());

    let looking = h.arrivals(&[session(vec![an_arrival(6, false)], false)], false, 1);
    assert!(looking.is_empty());
    let later = h.arrivals(&[session(vec![an_arrival(6, false)], false)], true, 1);
    assert!(later.is_empty(), "read as it arrived: not owed");
}

#[test]
fn arrivals_in_two_conversations_are_two_notices_in_key_order() {
    let mut h = Herald::new();
    let mut other = an_arrival(2, false);
    other.channel = [3u8; 32];
    other.conversation = "random".into();
    let said = h.arrivals(&[session(vec![an_arrival(1, false), other, an_arrival(3, false)], false)], true, 1);
    assert_eq!(
        words(&said),
        vec![
            ("Ada in #random".to_string(), "look at this".to_string()),
            ("2 new messages in #general".to_string(), "Ada: look at this".to_string()),
        ]
    );
    assert_eq!(said[0].target.as_ref().map(|t| t.channel), Some([3u8; 32]));
    assert_eq!(said[1].target.as_ref().map(|t| t.channel), Some([8u8; 32]));
}

#[test]
fn a_ring_and_a_mention_carry_their_own_sounds() {
    let mut h = Herald::new();
    let (rung, _) = h.rings(&[a_ring(9, 1, "Ada is calling", false)], &[(key(9), 1)]);
    let said = h.mentions(&[mentioned(a_mention(1, false), false)], true, 1);
    assert_eq!(rung.len(), 1);
    assert_eq!(rung[0].sound, Sound::Ring);
    assert_eq!(rung[0].target.as_ref().map(|t| t.channel), Some([9u8; 32]));
    assert_eq!(said[0].sound, Sound::Default);
    assert_eq!(said[0].target.as_ref().map(|t| t.channel), Some([8u8; 32]));
}

#[test]
fn a_muted_conversation_and_do_not_disturb_say_nothing() {
    let mut h = Herald::new();
    let a = h.arrivals(&[session(vec![an_arrival(1, false)], true)], true, 1);
    let m = h.mentions(&[mentioned(a_mention(2, false), true)], true, 1);
    assert!(a.is_empty() && m.is_empty());
    assert_eq!(h.take_wants(), vec![], "and nothing asked for");
    let mut elsewhere = an_arrival(3, false);
    elsewhere.channel = [9u8; 32];
    assert_eq!(h.arrivals(&[session(vec![elsewhere], false)], true, 1).len(), 1);

    let unmuted = h.arrivals(&[session(vec![an_arrival(1, false)], false)], true, 1);
    assert!(unmuted.is_empty(), "not replayed");

    let mut anywhere = an_arrival(4, false);
    anywhere.channel = [9u8; 32];
    assert!(h.arrivals(&[session(vec![anywhere], true)], true, 1).is_empty());
    assert!(h.mentions(&[mentioned(a_mention(5, false), true)], true, 1).is_empty());
    let (rung, _) = h.rings(&[a_ring(9, 3, "Ada is calling", true)], &[(key(9), 3)]);
    assert!(rung.is_empty());
    assert_eq!(h.take_wants(), vec![], "not even a ring");
}

#[test]
fn several_identities_name_the_one_mentioned() {
    let mut h = Herald::new();
    let said = h.mentions(&[mentioned(a_mention(1, false), false)], true, 2);
    assert_eq!(said[0].summary, "Ada mentioned you in #general, as me");
    let said = h.arrivals(&[session(vec![an_arrival(2, false)], false)], true, 3);
    assert_eq!(said[0].summary, "Ada in #general, as me");
}

use sigil_chat::act::{command_acts, Act};
use sigil_chat::command::Command;
use sigil_chat::key::Key;
use sigil_chat::session::{Ring, Summary};

fn key(b: u8) -> Key {
    [b; 32]
}

fn convo(channel: u8, public: Option<bool>, peer: Option<Key>) -> Summary {
    Summary {
        channel: key(channel),
        peer,
        label: String::new(),
        unread: 0,
        mentioned: 0,
        preview: None,
        at: None,
        public,
        group: false,
        typing: false,
        waiting: false,
    }
}

fn ring(channel: u8, seq: u64, mine: bool, answered: bool) -> Ring {
    Ring {
        channel: key(channel),
        seq,
        from: key(2),
        mine,
        secret: [3u8; 32],
        answered,
        label: "somebody".into(),
        direct: false,
        peer: None,
    }
}

fn said(r: &(Vec<Act>, Result<(), String>)) -> String {
    r.1.clone().unwrap_err()
}

#[test]
fn a_command_with_nothing_open_says_so() {
    for cmd in [Command::Call, Command::Mute, Command::Topic("x".into()), Command::Members, Command::Verify] {
        let r = command_acts(cmd, &[], None, &[], None, true, None);
        assert!(r.0.is_empty());
        assert_eq!(said(&r), "Nothing is open.");
    }
}

#[test]
fn only_a_private_conversation_is_called_and_one_call_at_a_time() {
    let private = [convo(1, Some(false), Some(key(5)))];
    let public = [convo(1, Some(true), None)];
    let r = command_acts(Command::Call, &public, Some(key(1)), &[], None, true, None);
    assert_eq!(said(&r), "Only a private conversation can be called.");
    let r = command_acts(Command::Call, &private, Some(key(1)), &[], None, true, None);
    assert!(matches!(r.0.as_slice(), [Act::Call { direct: true }]));
    assert!(r.1.is_ok());
    let r = command_acts(Command::Call, &private, Some(key(1)), &[], Some(false), true, None);
    assert_eq!(said(&r), "You are already in a call, or placing one.");
    let ours = [ring(7, 1, true, false)];
    let r = command_acts(Command::Call, &private, Some(key(1)), &ours, None, false, None);
    assert_eq!(said(&r), "You are already in a call, or placing one.");
}

#[test]
fn answering_takes_the_ring_here_and_joins_it() {
    let rings = [ring(1, 9, false, false), ring(2, 4, false, false)];
    let r = command_acts(Command::Answer, &[], Some(key(2)), &rings, None, true, None);
    assert!(matches!(
        r.0.as_slice(),
        [Act::Answer { channel, seq: 4 }, Act::Join { seq: 4, .. }] if *channel == key(2)
    ));
    let r = command_acts(Command::Decline, &[], Some(key(1)), &rings, None, true, None);
    assert!(matches!(r.0.as_slice(), [Act::Decline { seq: 9, .. }]));
    let r = command_acts(Command::Answer, &[], Some(key(3)), &rings, None, true, None);
    assert_eq!(said(&r), "Nothing is ringing here.");
    let ours = [ring(3, 1, true, false)];
    let r = command_acts(Command::Decline, &[], Some(key(3)), &ours, None, true, None);
    assert_eq!(said(&r), "Nothing is ringing here.", "our own ring is not declined");
}

#[test]
fn hanging_up_leaves_the_call_or_cancels_our_ring() {
    let r = command_acts(Command::Hangup, &[], None, &[], Some(false), true, None);
    assert!(matches!(r.0.as_slice(), [Act::LeaveCall]) && r.1.is_ok());
    let ours = [ring(3, 6, true, false)];
    let r = command_acts(Command::Hangup, &[], None, &ours, None, true, None);
    assert!(matches!(r.0.as_slice(), [Act::Cancel { seq: 6, .. }]) && r.1.is_ok());
    let r = command_acts(Command::Hangup, &[], None, &[], None, true, None);
    assert_eq!(said(&r), "You are not in a call.");
    let r = command_acts(Command::Hangup, &[], None, &[], Some(true), true, None);
    assert!(matches!(r.0.as_slice(), [Act::LeaveCall]));
    assert_eq!(said(&r), "You are not in a call.", "a call from another exchange has no record");
}

#[test]
fn naming_inviting_and_verifying_need_the_right_conversation() {
    let direct = [convo(1, Some(false), Some(key(5)))];
    let room = [convo(1, Some(false), None)];
    let r = command_acts(Command::Name("x".into()), &direct, Some(key(1)), &[], None, true, None);
    assert_eq!(said(&r), "A direct message is named after the person in it.");
    let r = command_acts(Command::Name("x".into()), &room, Some(key(1)), &[], None, true, None);
    assert!(matches!(r.0.as_slice(), [Act::SetName(n)] if n == "x"));
    let r = command_acts(Command::Invite("zz".into()), &room, Some(key(1)), &[], None, true, None);
    assert_eq!(said(&r), "zz is not a key. /invite takes a base58 key.");
    let r = command_acts(Command::Invite("k".into()), &room, Some(key(1)), &[], None, true, Some(key(6)));
    assert!(matches!(r.0.as_slice(), [Act::Invite(k)] if *k == key(6)));
    let r = command_acts(Command::Verify, &room, Some(key(1)), &[], None, true, None);
    assert_eq!(said(&r), "Safety words are for two people: open a direct message.");
    let r = command_acts(Command::Verify, &direct, Some(key(1)), &[], None, true, None);
    assert!(matches!(r.0.as_slice(), [Act::Verify(k)] if *k == key(5)));
}

#[test]
fn muting_and_the_rest_act_on_what_is_open() {
    let room = [convo(1, Some(true), None)];
    let r = command_acts(Command::Mute, &room, Some(key(1)), &[], None, true, None);
    assert!(matches!(r.0.as_slice(), [Act::SetMuted { muted: true, .. }]));
    let r = command_acts(Command::Unmute, &room, Some(key(1)), &[], None, true, None);
    assert!(matches!(r.0.as_slice(), [Act::SetMuted { muted: false, .. }]));
    let r = command_acts(Command::Search("x".into()), &[], None, &[], None, true, None);
    assert!(matches!(r.0.as_slice(), [Act::Search(s)] if s == "x"));
    for (cmd, ok) in [
        (Command::Devices, true),
        (Command::New, true),
        (Command::Profile, true),
        (Command::Reconnect, true),
        (Command::Help, true),
        (Command::Settings, false),
    ] {
        let r = command_acts(cmd, &[], None, &[], None, true, None);
        assert_eq!(r.1.is_ok(), ok);
        assert_eq!(r.0.len(), if ok { 1 } else { 0 });
    }
}

//! What a command typed in the composer does, decided over what the pane
//! knows. Each command is the same thing its control does -- the Call
//! button, the bell, the Answer button -- so the host performs what is
//! decided here by the same paths its controls use, and a command cannot
//! drift from its control.

use vstd::prelude::*;

use crate::command::Command;
use crate::key::{Key, same_key};
use crate::session::{Ring, Summary};
use crate::text::{copy_str, push_str};

verus! {

broadcast use vstd::string::group_string_axioms;

/// One thing a command has the host do.
#[derive(Debug)]
pub enum Act {
    /// Ring the open conversation, directly if the preference allows.
    Call { direct: bool },
    /// Take the call ringing at `channel`, message `seq`.
    Answer { channel: Key, seq: u64 },
    /// Join that call's room.
    Join { channel: Key, seq: u64 },
    /// Refuse the call ringing at `channel`, message `seq`.
    Decline { channel: Key, seq: u64 },
    /// Leave the call being carried, recording its end in its conversation
    /// when it has one.
    LeaveCall,
    /// Cancel our own ring, which nobody picked up.
    Cancel { channel: Key, seq: u64 },
    /// Say nothing out loud about a conversation, or say things again.
    SetMuted { channel: Key, muted: bool },
    SetTopic(String),
    SetName(String),
    Invite(Key),
    /// Compare safety words with the one other person.
    Verify(Key),
    /// Who is here.
    Members,
    /// This conversation's settings.
    Settings,
    /// This account's devices.
    Devices,
    /// Search what this client holds.
    Search(String),
    /// Write to somebody new.
    Compose,
    /// Your name and title.
    Profile,
    /// Dial the exchange again.
    Reconnect,
    /// Show the list of commands.
    Help,
}

/// The first conversation of `convs` from `i` on that is the open one;
/// `convs.len()` when there is none.
pub open spec fn open_from(convs: Seq<Summary>, open: Option<Key>, i: int) -> int
    decreases convs.len() - i,
{
    if i >= convs.len() {
        convs.len() as int
    } else if open == Some(convs[i].channel) {
        i
    } else {
        open_from(convs, open, i + 1)
    }
}

/// Whether the ring `r` is somebody else's, still ringing, in the open
/// conversation.
pub open spec fn rings_here(r: Ring, open: Option<Key>) -> bool {
    open == Some(r.channel) && !r.mine && !r.answered
}

/// The first ring from `i` on that rings here; `rings.len()` when none.
pub open spec fn ringing_from(rings: Seq<Ring>, open: Option<Key>, i: int) -> int
    decreases rings.len() - i,
{
    if i >= rings.len() {
        rings.len() as int
    } else if rings_here(rings[i], open) {
        i
    } else {
        ringing_from(rings, open, i + 1)
    }
}

/// The first ring from `i` on that is ours; `rings.len()` when none.
pub open spec fn mine_from(rings: Seq<Ring>, i: int) -> int
    decreases rings.len() - i,
{
    if i >= rings.len() {
        rings.len() as int
    } else if rings[i].mine {
        i
    } else {
        mine_from(rings, i + 1)
    }
}

/// The words when nothing is open.
pub open spec fn nothing_open() -> Seq<char> {
    "Nothing is open."@
}

/// What a command does: the acts, in order, and whether it could be done
/// -- `Err` with the words for the person when it made sense and cannot be
/// done here. `open` is the conversation open on screen, `convs` the
/// conversations listed, `rings` what is ringing; `carrying` is whether a
/// call is being carried and, if so, whether it came from another exchange;
/// `direct` the preference for direct calls; `invite_key` what the text an
/// invitation carries reads as, when it reads as a key.
pub open spec fn decided(
    cmd: Command,
    convs: Seq<Summary>,
    open: Option<Key>,
    rings: Seq<Ring>,
    carrying: Option<bool>,
    direct: bool,
    invite_key: Option<Key>,
) -> (Seq<Act>, Result<(), Seq<char>>) {
    let o = open_from(convs, open, 0);
    let here = o < convs.len();
    let c = convs[o];
    let rh = ringing_from(rings, open, 0);
    let mine = mine_from(rings, 0);
    let none = Seq::<Act>::empty();
    match cmd {
        Command::Call => if !here {
            (none, Err(nothing_open()))
        } else if c.public != Some(false) {
            (none, Err("Only a private conversation can be called."@))
        } else if carrying is Some || mine < rings.len() {
            (none, Err("You are already in a call, or placing one."@))
        } else {
            (seq![Act::Call { direct }], Ok(()))
        },
        Command::Answer => if rh < rings.len() {
            (
                seq![
                    Act::Answer { channel: rings[rh].channel, seq: rings[rh].seq },
                    Act::Join { channel: rings[rh].channel, seq: rings[rh].seq },
                ],
                Ok(()),
            )
        } else {
            (none, Err("Nothing is ringing here."@))
        },
        Command::Decline => if rh < rings.len() {
            (seq![Act::Decline { channel: rings[rh].channel, seq: rings[rh].seq }], Ok(()))
        } else {
            (none, Err("Nothing is ringing here."@))
        },
        Command::Hangup => {
            let left = if carrying is Some { seq![Act::LeaveCall] } else { none };
            if carrying == Some(false) {
                (left, Ok(()))
            } else if mine < rings.len() {
                (left.push(Act::Cancel { channel: rings[mine].channel, seq: rings[mine].seq }), Ok(()))
            } else {
                (left, Err("You are not in a call."@))
            }
        },
        Command::Mute => if here {
            (seq![Act::SetMuted { channel: c.channel, muted: true }], Ok(()))
        } else {
            (none, Err(nothing_open()))
        },
        Command::Unmute => if here {
            (seq![Act::SetMuted { channel: c.channel, muted: false }], Ok(()))
        } else {
            (none, Err(nothing_open()))
        },
        Command::Topic(t) => if here {
            (seq![Act::SetTopic(t)], Ok(()))
        } else {
            (none, Err(nothing_open()))
        },
        Command::Name(t) => if !here {
            (none, Err(nothing_open()))
        } else if c.peer is Some {
            (none, Err("A direct message is named after the person in it."@))
        } else {
            (seq![Act::SetName(t)], Ok(()))
        },
        Command::Invite(t) => if !here {
            (none, Err(nothing_open()))
        } else {
            match invite_key {
                Some(k) => (seq![Act::Invite(k)], Ok(())),
                None => (none, Err(t@ + " is not a key. /invite takes a base58 key."@)),
            }
        },
        Command::Verify => if !here {
            (none, Err(nothing_open()))
        } else {
            match c.peer {
                Some(p) => (seq![Act::Verify(p)], Ok(())),
                None => (none, Err("Safety words are for two people: open a direct message."@)),
            }
        },
        Command::Members => if here {
            (seq![Act::Members], Ok(()))
        } else {
            (none, Err(nothing_open()))
        },
        Command::Settings => if here {
            (seq![Act::Settings], Ok(()))
        } else {
            (none, Err(nothing_open()))
        },
        Command::Devices => (seq![Act::Devices], Ok(())),
        Command::Search(t) => (seq![Act::Search(t)], Ok(())),
        Command::New => (seq![Act::Compose], Ok(())),
        Command::Profile => (seq![Act::Profile], Ok(())),
        Command::Reconnect => (seq![Act::Reconnect], Ok(())),
        Command::Help => (seq![Act::Help], Ok(())),
    }
}

/// Where the open conversation is in `convs`.
fn find_open(convs: &[Summary], open: Option<Key>) -> (r: usize)
    ensures
        r == open_from(convs@, open, 0),
{
    let mut i: usize = 0;
    while i < convs.len()
        invariant
            i <= convs@.len(),
            open_from(convs@, open, 0) == open_from(convs@, open, i as int),
        decreases convs@.len() - i,
    {
        let hit = match open {
            Some(k) => same_key(&k, &convs[i].channel),
            None => false,
        };
        if hit {
            return i;
        }
        i = i + 1;
    }
    i
}

/// Where the ring ringing here is in `rings`.
fn find_ringing(rings: &[Ring], open: Option<Key>) -> (r: usize)
    ensures
        r == ringing_from(rings@, open, 0),
{
    let mut i: usize = 0;
    while i < rings.len()
        invariant
            i <= rings@.len(),
            ringing_from(rings@, open, 0) == ringing_from(rings@, open, i as int),
        decreases rings@.len() - i,
    {
        let r = &rings[i];
        let hit = match open {
            Some(k) => same_key(&k, &r.channel) && !r.mine && !r.answered,
            None => false,
        };
        if hit {
            return i;
        }
        i = i + 1;
    }
    i
}

/// Where our own ring is in `rings`.
fn find_mine(rings: &[Ring]) -> (r: usize)
    ensures
        r == mine_from(rings@, 0),
{
    let mut i: usize = 0;
    while i < rings.len()
        invariant
            i <= rings@.len(),
            mine_from(rings@, 0) == mine_from(rings@, i as int),
        decreases rings@.len() - i,
    {
        if rings[i].mine {
            return i;
        }
        i = i + 1;
    }
    i
}

/// The words in `s`, as a `String` to hand back.
fn said(s: &str) -> (r: Result<(), String>)
    ensures
        r matches Err(e) && e@ == s@,
{
    Err(copy_str(s))
}

/// What a line beginning with a slash asks the host to do, and whether it
/// can be done here: the acts [`decided`] gives, in order, and `Err` with
/// the words for the person when the command made sense and cannot be
/// done. A hang-up while carrying a call from another exchange leaves it
/// and, with no ring of ours to cancel, still says that no call is being
/// carried: that call has no conversation to record its end in.
pub fn command_acts(
    cmd: Command,
    convs: &[Summary],
    open: Option<Key>,
    rings: &[Ring],
    carrying: Option<bool>,
    direct: bool,
    invite_key: Option<Key>,
) -> (r: (Vec<Act>, Result<(), String>))
    ensures
        ({
            let d = decided(cmd, convs@, open, rings@, carrying, direct, invite_key);
            &&& r.0@ == d.0
            &&& match (r.1, d.1) {
                (Ok(_), Ok(_)) => true,
                (Err(e), Err(m)) => e@ == m,
                _ => false,
            }
        }),
{
    let o = find_open(convs, open);
    let here = o < convs.len();
    let rh = find_ringing(rings, open);
    let mine = find_mine(rings);
    let mut acts: Vec<Act> = Vec::new();
    match cmd {
        Command::Call => {
            if !here {
                return (acts, said("Nothing is open."));
            }
            if !matches!(convs[o].public, Some(false)) {
                return (acts, said("Only a private conversation can be called."));
            }
            if carrying.is_some() || mine < rings.len() {
                return (acts, said("You are already in a call, or placing one."));
            }
            acts.push(Act::Call { direct });
        },
        Command::Answer => {
            if rh >= rings.len() {
                return (acts, said("Nothing is ringing here."));
            }
            acts.push(Act::Answer { channel: rings[rh].channel, seq: rings[rh].seq });
            acts.push(Act::Join { channel: rings[rh].channel, seq: rings[rh].seq });
        },
        Command::Decline => {
            if rh >= rings.len() {
                return (acts, said("Nothing is ringing here."));
            }
            acts.push(Act::Decline { channel: rings[rh].channel, seq: rings[rh].seq });
        },
        Command::Hangup => {
            if carrying.is_some() {
                acts.push(Act::LeaveCall);
            }
            if !matches!(carrying, Some(false)) {
                if mine < rings.len() {
                    acts.push(Act::Cancel { channel: rings[mine].channel, seq: rings[mine].seq });
                } else {
                    return (acts, said("You are not in a call."));
                }
            }
        },
        Command::Mute => {
            if !here {
                return (acts, said("Nothing is open."));
            }
            acts.push(Act::SetMuted { channel: convs[o].channel, muted: true });
        },
        Command::Unmute => {
            if !here {
                return (acts, said("Nothing is open."));
            }
            acts.push(Act::SetMuted { channel: convs[o].channel, muted: false });
        },
        Command::Topic(t) => {
            if !here {
                return (acts, said("Nothing is open."));
            }
            acts.push(Act::SetTopic(t));
        },
        Command::Name(t) => {
            if !here {
                return (acts, said("Nothing is open."));
            }
            if convs[o].peer.is_some() {
                return (acts, said("A direct message is named after the person in it."));
            }
            acts.push(Act::SetName(t));
        },
        Command::Invite(t) => {
            if !here {
                return (acts, said("Nothing is open."));
            }
            match invite_key {
                Some(k) => acts.push(Act::Invite(k)),
                None => {
                    let mut e = copy_str(t.as_str());
                    push_str(&mut e, " is not a key. /invite takes a base58 key.");
                    return (acts, Err(e));
                },
            }
        },
        Command::Verify => {
            if !here {
                return (acts, said("Nothing is open."));
            }
            match convs[o].peer {
                Some(p) => acts.push(Act::Verify(p)),
                None => {
                    return (acts, said("Safety words are for two people: open a direct message."));
                },
            }
        },
        Command::Members => {
            if !here {
                return (acts, said("Nothing is open."));
            }
            acts.push(Act::Members);
        },
        Command::Settings => {
            if !here {
                return (acts, said("Nothing is open."));
            }
            acts.push(Act::Settings);
        },
        Command::Devices => acts.push(Act::Devices),
        Command::Search(t) => acts.push(Act::Search(t)),
        Command::New => acts.push(Act::Compose),
        Command::Profile => acts.push(Act::Profile),
        Command::Reconnect => acts.push(Act::Reconnect),
        Command::Help => acts.push(Act::Help),
    }
    (acts, Ok(()))
}


/// Whether `i` is the first conversation of `convs` in the channel open.
pub open spec fn open_at(convs: Seq<Summary>, open: Option<Key>, i: int) -> bool {
    &&& 0 <= i < convs.len()
    &&& open == Some(convs[i].channel)
    &&& forall|j: int| 0 <= j < i ==> open != Some(#[trigger] convs[j].channel)
}

proof fn lemma_open_from(convs: Seq<Summary>, open: Option<Key>, i: int, k: int)
    requires
        open_at(convs, open, i),
        0 <= k <= i,
    ensures
        open_from(convs, open, k) == i,
    decreases i - k,
{
    if k < i {
        lemma_open_from(convs, open, i, k + 1);
    }
}

proof fn lemma_none_open(convs: Seq<Summary>, open: Option<Key>, k: int)
    requires
        0 <= k <= convs.len(),
        forall|j: int| 0 <= j < convs.len() ==> open != Some(#[trigger] convs[j].channel),
    ensures
        open_from(convs, open, k) == convs.len(),
    decreases convs.len() - k,
{
    if k < convs.len() {
        lemma_none_open(convs, open, k + 1);
    }
}

/// **Each command does what its list entry says**, on the conversation
/// open -- the first listed in its channel: `/topic` sets its topic to the
/// words given, `/name` names it unless it is a direct message, `/mute`
/// and `/unmute` silence it or not, `/verify` compares words with the one
/// other person, `/invite` invites the key the words read as; and
/// `/search` searches for the words given, wherever you are.
pub proof fn law_commands_do_what_they_say(
    t: String,
    convs: Seq<Summary>,
    open: Option<Key>,
    rings: Seq<Ring>,
    carrying: Option<bool>,
    direct: bool,
    invite_key: Option<Key>,
    i: int,
)
    requires
        open_at(convs, open, i),
    ensures
        decided(Command::Topic(t), convs, open, rings, carrying, direct, invite_key) == (
            seq![Act::SetTopic(t)],
            Ok::<(), Seq<char>>(()),
        ),
        convs[i].peer is None ==> decided(Command::Name(t), convs, open, rings, carrying, direct, invite_key)
            == (seq![Act::SetName(t)], Ok::<(), Seq<char>>(())),
        convs[i].peer is Some ==> decided(Command::Name(t), convs, open, rings, carrying, direct, invite_key).0
            == Seq::<Act>::empty(),
        decided(Command::Mute, convs, open, rings, carrying, direct, invite_key) == (
            seq![Act::SetMuted { channel: convs[i].channel, muted: true }],
            Ok::<(), Seq<char>>(()),
        ),
        decided(Command::Unmute, convs, open, rings, carrying, direct, invite_key) == (
            seq![Act::SetMuted { channel: convs[i].channel, muted: false }],
            Ok::<(), Seq<char>>(()),
        ),
        convs[i].peer matches Some(p) ==> decided(Command::Verify, convs, open, rings, carrying, direct, invite_key)
            == (seq![Act::Verify(p)], Ok::<(), Seq<char>>(())),
        invite_key matches Some(k) ==> decided(Command::Invite(t), convs, open, rings, carrying, direct, invite_key)
            == (seq![Act::Invite(k)], Ok::<(), Seq<char>>(())),
        decided(Command::Search(t), convs, open, rings, carrying, direct, invite_key) == (
            seq![Act::Search(t)],
            Ok::<(), Seq<char>>(()),
        ),
{
    lemma_open_from(convs, open, i, 0);
}

/// **Nothing open, nothing done to it.** With no conversation open,
/// `/topic`, `/name`, `/mute`, `/unmute`, `/invite` and `/verify` do
/// nothing and say that nothing is open.
pub proof fn law_nothing_open_nothing_done(
    t: String,
    convs: Seq<Summary>,
    open: Option<Key>,
    rings: Seq<Ring>,
    carrying: Option<bool>,
    direct: bool,
    invite_key: Option<Key>,
)
    requires
        forall|j: int| 0 <= j < convs.len() ==> open != Some(#[trigger] convs[j].channel),
    ensures
        decided(Command::Topic(t), convs, open, rings, carrying, direct, invite_key) == (
            Seq::<Act>::empty(),
            Err::<(), Seq<char>>("Nothing is open."@),
        ),
        decided(Command::Name(t), convs, open, rings, carrying, direct, invite_key) == (
            Seq::<Act>::empty(),
            Err::<(), Seq<char>>("Nothing is open."@),
        ),
        decided(Command::Mute, convs, open, rings, carrying, direct, invite_key).0 == Seq::<Act>::empty(),
        decided(Command::Unmute, convs, open, rings, carrying, direct, invite_key).0 == Seq::<Act>::empty(),
        decided(Command::Invite(t), convs, open, rings, carrying, direct, invite_key).0 == Seq::<Act>::empty(),
        decided(Command::Verify, convs, open, rings, carrying, direct, invite_key).0 == Seq::<Act>::empty(),
{
    lemma_none_open(convs, open, 0);
}

} // verus!

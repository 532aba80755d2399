//! Decisions the chat pane makes over plain data: where to go on
//! arriving, which call to join, when a call is over, which exchange to
//! show, and what may be done about a member.

use vstd::prelude::*;

use crate::key::{Key, key_before, key_less, lemma_key_order, same_key};
use crate::session::{Member, Ring, Summary};
use crate::mention::{last_at, rfind_at};
use crate::text::{chars_of, copy_str, push_str, string_of, trim, trim_range};

verus! {

broadcast use vstd::string::group_string_axioms;

/// Where you are inside the chat app.
#[derive(Clone, Copy, Debug, PartialEq, Eq, Structural)]
pub enum Route {
    /// The list and whatever is open in it.
    Conversations,
    /// The public directory: search, and join what it turns up.
    Directory,
    /// Who is in the open conversation, and what may be done about them.
    Members,
    /// The open conversation's name, topic and retention.
    Settings,
    /// Which devices act for this account, and how to link or revoke one.
    Devices,
    /// Searching what has been said.
    Search,
    /// You: your mark, your name, your exchange, your keys.
    Me,
}

/// What the shell's bar calls a place: nothing for the list, which the
/// shell names itself.
pub open spec fn title_of(r: Route) -> Option<Seq<char>> {
    match r {
        Route::Conversations => None,
        Route::Directory => Some("Public channels"@),
        Route::Members => Some("Members"@),
        Route::Settings => Some("Channel settings"@),
        Route::Devices => Some("Devices"@),
        Route::Search => Some("Search"@),
        Route::Me => Some("Settings"@),
    }
}

impl Route {
    /// What the shell's bar calls this place, by [`title_of`].
    pub fn title(&self) -> (r: Option<String>)
        ensures
            match (r, title_of(*self)) {
                (Some(a), Some(b)) => a@ == b,
                (None, None) => true,
                _ => false,
            },
    {
        match self {
            Route::Conversations => None,
            Route::Directory => Some(copy_str("Public channels")),
            Route::Members => Some(copy_str("Members")),
            Route::Settings => Some(copy_str("Channel settings")),
            Route::Devices => Some(copy_str("Devices")),
            Route::Search => Some(copy_str("Search")),
            Route::Me => Some(copy_str("Settings")),
        }
    }
}

/// One identity at one exchange: the key, and the name the exchange was
/// given (empty for the identity's default).
pub type At = (Key, String);

/// Whether a call may ask the exchange for an introduction: the
/// invitation says the other side will, this side allows it, and the
/// connection is not carried by the home, whose address is the one that
/// would be introduced.
pub fn direct_allowed(ring_says: bool, preference: bool, carried: bool) -> (r: bool)
    ensures
        r == (ring_says && preference && !carried),
{
    ring_says && preference && !carried
}

/// A cross-exchange ring has no conversation, and everything about a ring
/// here is keyed on one. The bridge is sixteen bytes and a channel is
/// thirty-two; the bridge in the first half and nothing in the second is a
/// key no real channel has, since a channel is a hash.
pub fn cross_key(bridge: [u8; 16]) -> (key: Key)
    ensures
        forall|i: int| 0 <= i < 16 ==> key[i] == bridge[i],
        forall|i: int| 16 <= i < 32 ==> key[i] == 0,
{
    let mut key = [0u8; 32];
    let mut i: usize = 0;
    while i < 16
        invariant
            i <= 16,
            forall|j: int| 0 <= j < i ==> key[j] == bridge[j],
            forall|j: int| 16 <= j < 32 ==> key[j] == 0,
        decreases 16 - i,
    {
        key[i] = bridge[i];
        i = i + 1;
    }
    key
}

/// Whether the ring at `i` of `rings` is ours, answered, and not one just
/// left.
pub open spec fn joinable(rings: Seq<Ring>, left: Seq<(Key, u64)>, i: int) -> bool {
    rings[i].mine && rings[i].answered && !left.contains((rings[i].channel, rings[i].seq))
}

/// Whether `(channel, seq)` is among `left`.
fn was_left(left: &[(Key, u64)], channel: &Key, seq: u64) -> (r: bool)
    ensures
        r == left@.contains((*channel, seq)),
{
    let mut i: usize = 0;
    while i < left.len()
        invariant
            i <= left@.len(),
            forall|j: int| 0 <= j < i ==> left@[j] != (*channel, seq),
        decreases left@.len() - i,
    {
        if same_key(&left[i].0, channel) && left[i].1 == seq {
            return true;
        }
        i = i + 1;
    }
    false
}

/// The call we placed that has been picked up and not yet joined: the
/// first that is **ours** (somebody else's is answered by pressing
/// Answer), **answered** (there is somebody in the room) and **not one
/// this window just left**; and none at all while already **in a call**
/// (one microphone, one room).
pub fn to_join<'a>(rings: &'a [Ring], in_a_call: bool, left: &[(Key, u64)]) -> (r: Option<&'a Ring>)
    ensures
        in_a_call ==> r is None,
        !in_a_call ==> match r {
            Some(ring) => exists|i: int|
                0 <= i < rings@.len() && #[trigger] joinable(rings@, left@, i) && *ring == rings@[i]
                    && forall|j: int| 0 <= j < i ==> !joinable(rings@, left@, j),
            None => forall|i: int| 0 <= i < rings@.len() ==> !joinable(rings@, left@, i),
        },
{
    if in_a_call {
        return None;
    }
    let mut i: usize = 0;
    while i < rings.len()
        invariant
            !in_a_call,
            i <= rings@.len(),
            forall|j: int| 0 <= j < i ==> !joinable(rings@, left@, j),
        decreases rings@.len() - i,
    {
        let ring = &rings[i];
        if ring.mine && ring.answered && !was_left(left, &ring.channel, ring.seq) {
            assert(joinable(rings@, left@, i as int));
            return Some(ring);
        }
        i = i + 1;
    }
    None
}

/// Where a call stands.
#[derive(Clone, Copy, Debug, PartialEq, Eq, Structural)]
pub enum Phase {
    /// Being set up.
    Connecting,
    /// Carrying sound.
    Live,
    /// Finished.
    Ended,
}

/// Whether a call is over: the channel recorded the end, we hung up,
/// somebody who was in the room has left it empty, or it never went live
/// within the ring window.
pub open spec fn over_of(
    phase: Phase,
    present: usize,
    connecting: usize,
    saw_peer: bool,
    hung_up: bool,
    waiting_ms: u64,
    ring_window_ms: u64,
) -> bool {
    phase == Phase::Ended || hung_up || (saw_peer && present == 0 && connecting == 0) || (phase
        != Phase::Live && waiting_ms > ring_window_ms)
}

/// Whether a call this window is carrying has finished: the channel
/// recorded the end, we hung up, somebody who was in the room has left it
/// empty, or it never went live within the ring window. `saw_peer` keeps
/// the start of a call from reading as the end of one: a room nobody has
/// joined yet is also a room with nobody in it. Times in milliseconds.
pub fn call_is_over(
    phase: Phase,
    present: usize,
    connecting: usize,
    saw_peer: bool,
    hung_up: bool,
    waiting_ms: u64,
    ring_window_ms: u64,
) -> (r: bool)
    ensures
        r == over_of(phase, present, connecting, saw_peer, hung_up, waiting_ms, ring_window_ms),
{
    let never = match phase {
        Phase::Live => false,
        _ => true,
    };
    let left = saw_peer && present == 0 && connecting == 0;
    let ended = match phase {
        Phase::Ended => true,
        _ => false,
    };
    ended || hung_up || left || (never && waiting_ms > ring_window_ms)
}

/// When something was last said in a conversation; nought for never.
pub open spec fn said_at(c: Summary) -> u64 {
    match c.at {
        Some(t) => t,
        None => 0,
    }
}

/// Whether `a` is newer than `b`: said in later, or as late and first by
/// channel, the tie-break the session sorts by.
pub open spec fn newer(a: Summary, b: Summary) -> bool {
    said_at(a) > said_at(b) || (said_at(a) == said_at(b) && key_before(a.channel, b.channel))
}

/// Which conversation to open on arriving, if any: the newest, chosen
/// **by its time** rather than by taking the first row of the list, ties
/// to the first channel. Nothing when something is already open, when
/// this has been done once, when there is nothing to open, or in a
/// one-pane window, where opening a conversation *is* hiding the list.
pub fn first_look(open: Option<Key>, done: bool, one_pane: bool, conversations: &[Summary]) -> (r: Option<Key>)
    ensures
        (open is Some || done || one_pane || conversations@.len() == 0) ==> r is None,
        !(open is Some || done || one_pane || conversations@.len() == 0) ==> match r {
            Some(c) => exists|i: int|
                0 <= i < conversations@.len() && #[trigger] conversations@[i].channel == c
                    && forall|j: int|
                    0 <= j < conversations@.len() ==> !newer(conversations@[j], conversations@[i]),
            None => false,
        },
{
    if open.is_some() || done || one_pane || conversations.len() == 0 {
        return None;
    }
    let mut best: usize = 0;
    let mut i: usize = 1;
    while i < conversations.len()
        invariant
            1 <= i <= conversations@.len(),
            best < i,
            forall|j: int| 0 <= j < i ==> !newer(conversations@[j], conversations@[best as int]),
        decreases conversations@.len() - i,
    {
        let b = &conversations[best];
        let c = &conversations[i];
        let bt = match b.at {
            Some(t) => t,
            None => 0,
        };
        let ct = match c.at {
            Some(t) => t,
            None => 0,
        };
        if ct > bt || (ct == bt && key_less(&c.channel, &b.channel)) {
            proof {
                assert forall|j: int| 0 <= j < i + 1 implies !newer(
                    conversations@[j],
                    conversations@[i as int],
                ) by {
                    let x = conversations@[j];
                    let y = conversations@[i as int];
                    let z = conversations@[best as int];
                    lemma_key_order(x.channel, y.channel);
                    lemma_key_order(y.channel, z.channel);
                    lemma_key_order(x.channel, z.channel);
                    if j < i && said_at(x) == said_at(y) && key_before(x.channel, y.channel) {
                        lemma_key_transitive(x.channel, y.channel, z.channel);
                    }
                }
            }
            best = i;
        } else {
            proof {
                let y = conversations@[i as int];
                let z = conversations@[best as int];
                lemma_key_order(y.channel, z.channel);
            }
        }
        i = i + 1;
    }
    Some(conversations[best].channel)
}

/// The byte order on keys is transitive.
pub proof fn lemma_key_transitive(a: Key, b: Key, c: Key)
    requires
        key_before(a, b),
        key_before(b, c),
    ensures
        key_before(a, c),
{
    let i = choose|i: int| 0 <= i < 32 && a[i] < b[i] && forall|j: int| 0 <= j < i ==> a[j] == b[j];
    let k = choose|k: int| 0 <= k < 32 && b[k] < c[k] && forall|j: int| 0 <= j < k ==> b[j] == c[j];
    if i < k {
        assert(a[i] < c[i]);
        assert(forall|j: int| 0 <= j < i ==> a[j] == c[j]);
    } else if k < i {
        assert(a[k] < c[k]);
        assert(forall|j: int| 0 <= j < k ==> a[j] == c[j]);
    } else {
        assert(a[i] < c[i]);
    }
}

/// Whether two places are the same identity at the same exchange.
fn same_at(a: &At, b: &At) -> (r: bool)
    ensures
        r == (a.0 == b.0 && a.1@ == b.1@),
{
    same_key(&a.0, &b.0) && a.1 == b.1
}

/// Whether `o` is another session of the identity at `at`, at the exchange
/// `wanted`.
pub open spec fn sibling(at: At, wanted: Key, o: (At, Option<Key>)) -> bool {
    o.0.0 == at.0 && !(o.0.0 == at.0 && o.0.1@ == at.1@) && o.1 == Some(wanted)
}

/// The named exchange of a pair of sessions, one at `at` and one at `o`.
pub open spec fn spare_of(at: At, o: (At, Option<Key>)) -> Seq<char> {
    if at.1@.len() == 0 {
        o.0.1@
    } else {
        at.1@
    }
}

/// The first place at or after `i` in `others` that is a sibling of `at`
/// at `w`; the length of `others` when there is none.
pub open spec fn first_sibling(at: At, w: Key, others: Seq<(At, Option<Key>)>, i: int) -> int
    decreases others.len() - i,
{
    if i >= others.len() {
        others.len() as int
    } else if sibling(at, w, others[i]) {
        i
    } else {
        first_sibling(at, w, others, i + 1)
    }
}

/// What [`duplicate_of`] answers.
pub open spec fn duplicate_spec(at: At, locked_out: Option<Key>, others: Seq<(At, Option<Key>)>) -> Option<Seq<char>> {
    match locked_out {
        None => None,
        Some(w) => {
            let i = first_sibling(at, w, others, 0);
            if i >= others.len() {
                None
            } else if spare_of(at, others[i]).len() == 0 {
                None
            } else {
                Some(spare_of(at, others[i]))
            }
        },
    }
}

/// The added exchange name to drop, when a session lost the store lock to
/// another session of the **same identity**: always the *named* one of
/// the pair, since the default is not a name that can be removed. `None`
/// when the lock is genuinely somebody else's -- another sigil, or the
/// terminal client -- which keeps its own words.
pub fn duplicate_of(at: &At, locked_out: Option<Key>, others: &[(At, Option<Key>)]) -> (r: Option<String>)
    ensures
        match (r, duplicate_spec(*at, locked_out, others@)) {
            (Some(s), Some(t)) => s@ == t,
            (None, None) => true,
            _ => false,
        },
{
    let wanted = match locked_out {
        Some(w) => w,
        None => return None,
    };
    let mut i: usize = 0;
    while i < others.len()
        invariant
            locked_out == Some(wanted),
            i <= others@.len(),
            first_sibling(*at, wanted, others@, 0) == first_sibling(*at, wanted, others@, i as int),
        decreases others@.len() - i,
    {
        let o = &others[i];
        let at_wanted = match o.1 {
            Some(k) => same_key(&k, &wanted),
            None => false,
        };
        if same_key(&o.0.0, &at.0) && !same_at(&o.0, at) && at_wanted {
            assert(sibling(*at, wanted, others@[i as int]));
            let spare = if at.1.as_str().is_empty() {
                o.0.1.clone()
            } else {
                at.1.clone()
            };
            if spare.as_str().is_empty() {
                return None;
            }
            return Some(spare);
        }
        i = i + 1;
    }
    None
}

/// The first place at or after `i` in `live` of the identity `me`; the
/// length of `live` when there is none.
pub open spec fn first_of_me(me: Key, live: Seq<At>, i: int) -> int
    decreases live.len() - i,
{
    if i >= live.len() {
        live.len() as int
    } else if live[i].0 == me {
        i
    } else {
        first_of_me(me, live, i + 1)
    }
}

/// Which of an identity's exchanges to show: the one chosen, whether or
/// not it works; otherwise the default when there is a session for it;
/// otherwise the first exchange the identity is live at; otherwise the
/// default.
pub fn showing_exchange(me: Key, chosen: Option<&String>, live: &[At]) -> (r: String)
    ensures
        chosen matches Some(c) ==> r@ == c@,
        chosen is None ==> {
            if exists|i: int| 0 <= i < live@.len() && live@[i].0 == me && (#[trigger] live@[i]).1@.len() == 0 {
                r@.len() == 0
            } else if first_of_me(me, live@, 0) < live@.len() {
                r@ == live@[first_of_me(me, live@, 0)].1@
            } else {
                r@.len() == 0
            }
        },
{
    if let Some(named) = chosen {
        return named.clone();
    }
    let mut i: usize = 0;
    while i < live.len()
        invariant
            chosen is None,
            i <= live@.len(),
            forall|j: int| 0 <= j < i ==> !(live@[j].0 == me && live@[j].1@.len() == 0),
        decreases live@.len() - i,
    {
        if same_key(&live[i].0, &me) && live[i].1.as_str().is_empty() {
            return String::new();
        }
        i = i + 1;
    }
    let mut k: usize = 0;
    while k < live.len()
        invariant
            chosen is None,
            k <= live@.len(),
            forall|j: int| 0 <= j < live@.len() ==> !(live@[j].0 == me && live@[j].1@.len() == 0),
            first_of_me(me, live@, 0) == first_of_me(me, live@, k as int),
        decreases live@.len() - k,
    {
        if same_key(&live[k].0, &me) {
            return live[k].1.clone();
        }
        k = k + 1;
    }
    String::new()
}

/// What may be done about a member.
#[derive(Clone, Copy, Debug, PartialEq, Eq, Structural)]
pub enum MemberAct {
    Verify,
    Kick,
    /// Make an admin, or stop being one.
    Grant(bool),
    /// They read, and may not write.
    Mute(bool),
    /// Not an admin's act: personal, and applies everywhere.
    Block(bool),
}

/// What may be done about one member, in the order it is offered: verify
/// always; remove, grant or take back admin, and -- for a member who is
/// not an admin -- mute or unmute, when we are an admin; and block or
/// unblock always, since that is personal and not an admin's act.
/// `verified` and `blocked` are what we hold of them.
pub fn member_acts(verified: bool, blocked: bool, i_am_admin: bool, member: &Member) -> (acts: Vec<(String, &'static str, MemberAct)>)
    ensures
        acts@.map_values(|a: (String, &'static str, MemberAct)| a.2) == acts_for(
            blocked,
            i_am_admin,
            *member,
        ),
        acts@[0].0@ == (if verified {
            "Verified"@
        } else {
            "Verify"@
        }),
        acts@.last().0@ == (if blocked {
            "Unblock"@
        } else {
            "Block"@
        }),
        i_am_admin ==> acts@[1].0@ == "Remove"@ && acts@[2].0@ == (if member.admin {
            "Demote"@
        } else {
            "Make admin"@
        }),
        i_am_admin && !member.admin ==> acts@[3].0@ == (if member.muted {
            "Unmute"@
        } else {
            "Mute"@
        }),
{
    let mut acts: Vec<(String, &'static str, MemberAct)> = Vec::new();
    acts.push(
        (
            copy_str(
                if verified {
                    "Verified"
                } else {
                    "Verify"
                },
            ),
            if verified {
                "You compared safety words with them. Open to see them again, or to take the mark back."
            } else {
                "Compare six words with them, in person or over a call, and mark their key as theirs."
            },
            MemberAct::Verify,
        ),
    );
    if i_am_admin {
        acts.push(
            (
                copy_str("Remove"),
                "Removes them and mints a new key, so what follows is not theirs. What they already hold, they keep.",
                MemberAct::Kick,
            ),
        );
        acts.push(
            (
                copy_str(
                    if member.admin {
                        "Demote"
                    } else {
                        "Make admin"
                    },
                ),
                if member.admin {
                    "They stop being an admin of this room."
                } else {
                    "They may invite, remove and mute here."
                },
                MemberAct::Grant(!member.admin),
            ),
        );
        if !member.admin {
            acts.push(
                (
                    copy_str(
                        if member.muted {
                            "Unmute"
                        } else {
                            "Mute"
                        },
                    ),
                    if member.muted {
                        "They may write again. Everybody sees this."
                    } else {
                        "An admin's act, seen by all: they read, and may not write. Not the same as muting this conversation for yourself."
                    },
                    MemberAct::Mute(!member.muted),
                ),
            );
        }
    }
    acts.push(
        (
            copy_str(
                if blocked {
                    "Unblock"
                } else {
                    "Block"
                },
            ),
            if blocked {
                "They can reach you again."
            } else {
                "You stop hearing from them. They are told nothing, though it can be worked out."
            },
            MemberAct::Block(!blocked),
        ),
    );
    assert(acts@.map_values(|a: (String, &'static str, MemberAct)| a.2) =~= acts_for(
        blocked,
        i_am_admin,
        *member,
    ));
    acts
}

/// The acts offered about `member`, in order.
pub open spec fn acts_for(blocked: bool, i_am_admin: bool, member: Member) -> Seq<MemberAct> {
    let admin_acts = if !i_am_admin {
        Seq::empty()
    } else if member.admin {
        seq![MemberAct::Kick, MemberAct::Grant(false)]
    } else {
        seq![MemberAct::Kick, MemberAct::Grant(true), MemberAct::Mute(!member.muted)]
    };
    seq![MemberAct::Verify] + admin_acts + seq![MemberAct::Block(!blocked)]
}

/// What the switcher calls an identity's default exchange: the domain it
/// was discovered at when there is one, else the exchange's key in short,
/// else just "default".
pub open spec fn default_words(domain: Option<Seq<char>>, exchange: Option<Seq<char>>) -> Seq<char> {
    match domain {
        Some(d) if d.len() > 0 => d,
        _ => match exchange {
            Some(k) => k,
            None => "default"@,
        },
    }
}

/// What to call the default exchange in the switcher. The default has no
/// name in the roster, so the domain it was discovered at is the answer
/// when there is one; a connection made to an address has none, and the
/// exchange's key -- `exchange`, in its short form -- stands in; with
/// nothing known yet, nothing is invented.
pub fn default_label(domain: Option<&String>, exchange: Option<&String>) -> (r: String)
    ensures
        r@ == default_words(
            match domain {
                Some(d) => Some(d@),
                None => None,
            },
            match exchange {
                Some(k) => Some(k@),
                None => None,
            },
        ),
{
    if let Some(d) = domain {
        if !d.as_str().is_empty() {
            return copy_str(d.as_str());
        }
    }
    match exchange {
        Some(k) => copy_str(k.as_str()),
        None => copy_str("default"),
    }
}

/// What the switcher calls one of an identity's exchanges: the default by
/// [`default_label`]'s words `default`; any other by its name, and -- when
/// it is carried through the home -- where through.
pub fn exchange_label(name: &str, default: String, carried: Option<&String>) -> (r: String)
    ensures
        name@.len() == 0 ==> r@ == default@,
        name@.len() > 0 ==> r@ == match carried {
            Some(home) => name@ + " via "@ + home@,
            None => name@,
        },
{
    if name.is_empty() {
        return default;
    }
    let mut r = copy_str(name);
    if let Some(home) = carried {
        push_str(&mut r, " via ");
        push_str(&mut r, home.as_str());
    }
    r
}

/// One pass over a call being carried: whether it is over, and whether
/// somebody has been seen in its room -- remembered after the decision, so
/// the pass a peer first appears in is not also the pass that reads them as
/// having left.
pub fn call_pass(
    phase: Phase,
    present: usize,
    connecting: usize,
    saw_peer: bool,
    hung_up: bool,
    waiting_ms: u64,
    ring_window_ms: u64,
) -> (r: (bool, bool))
    ensures
        r.0 == over_of(phase, present, connecting, saw_peer, hung_up, waiting_ms, ring_window_ms),
        r.1 == (saw_peer || present > 0),
{
    let over = call_is_over(phase, present, connecting, saw_peer, hung_up, waiting_ms, ring_window_ms);
    (over, saw_peer || present > 0)
}

/// **Nobody who never came can have left.** In the pass a peer is first
/// seen, the call is not over by the room emptying; it is over by that only
/// after somebody was seen and nobody is left.
pub proof fn law_first_sight_is_not_leaving(
    present: usize,
    connecting: usize,
    waiting_ms: u64,
    ring_window_ms: u64,
)
    ensures
        !over_of(Phase::Live, present, connecting, false, false, waiting_ms, ring_window_ms),
        over_of(Phase::Live, 0, 0, true, false, waiting_ms, ring_window_ms),
{
}

/// What the back key does in the chat pane.
#[derive(Clone, Copy, Debug, PartialEq, Eq, Structural)]
pub enum Back {
    /// Nothing here: the shell's own back.
    Nothing,
    /// Close the conversation open, back to the list.
    Close,
    /// Back to the identity the list belongs to.
    Switch,
}

/// What the back key does: nothing while a picture or a dialog is up --
/// those close themselves; in a one-pane window, close what is open, and
/// with nothing open go back to the identity the list belongs to; in two
/// panes, nothing.
pub fn back_of(covered: bool, one_pane: bool, open: bool) -> (r: Back)
    ensures
        covered ==> r == Back::Nothing,
        !covered && one_pane && open ==> r == Back::Close,
        !covered && one_pane && !open ==> r == Back::Switch,
        !covered && !one_pane ==> r == Back::Nothing,
{
    if covered {
        Back::Nothing
    } else if one_pane && open {
        Back::Close
    } else if one_pane {
        Back::Switch
    } else {
        Back::Nothing
    }
}

/// An optional text as plain values.
pub open spec fn opt_v(o: Option<String>) -> Option<Seq<char>> {
    match o {
        Some(s) => Some(s@),
        None => None,
    }
}

/// What the platform is told a call is with: nothing when no call is
/// being carried; else the conversation's name, or -- when this window
/// cannot name it -- empty, since a call is still a call and the service
/// that keeps the process alive must be started for it.
pub fn calling_label(in_call: bool, label: Option<String>) -> (r: Option<String>)
    ensures
        !in_call ==> r is None,
        in_call ==> opt_v(r) == Some(
            match label {
                Some(l) => l@,
                None => Seq::<char>::empty(),
            },
        ),
{
    if !in_call {
        return None;
    }
    match label {
        Some(l) => Some(l),
        None => Some(String::new()),
    }
}

/// What the platform was last told about the call being carried.
pub struct Calling {
    told: Option<String>,
}

impl Calling {
    /// What was last told.
    pub closed spec fn told(&self) -> Option<Seq<char>> {
        opt_v(self.told)
    }

    /// Nothing told yet.
    pub fn new() -> (c: Calling)
        ensures
            c.told() is None,
    {
        Calling { told: None }
    }

    /// The call as it stands `now`: what to tell the platform -- only when
    /// it changed since last told.
    pub fn tell(&mut self, now: Option<String>) -> (r: Option<Option<String>>)
        ensures
            opt_v(now) == old(self).told() ==> r is None && final(self).told() == old(self).told(),
            opt_v(now) != old(self).told() ==> (r matches Some(t) && opt_v(t) == opt_v(now))
                && final(self).told() == opt_v(now),
    {
        let same = match (&now, &self.told) {
            (Some(a), Some(b)) => same_text(a.as_str(), b.as_str()),
            (None, None) => true,
            _ => false,
        };
        if same {
            return None;
        }
        let told = match &now {
            Some(a) => Some(copy_str(a.as_str())),
            None => None,
        };
        self.told = told;
        Some(now)
    }
}

/// Whether two texts are the same.
fn same_text(a: &str, b: &str) -> (r: bool)
    ensures
        r == (a@ == b@),
{
    let av = crate::text::chars_of(a);
    let bv = crate::text::chars_of(b);
    if av.len() != bv.len() {
        return false;
    }
    let mut i: usize = 0;
    while i < av.len()
        invariant
            av@ == a@,
            bv@ == b@,
            av@.len() == bv@.len(),
            i <= av@.len(),
            forall|j: int| 0 <= j < i ==> av@[j] == bv@[j],
        decreases av@.len() - i,
    {
        if av[i] != bv[i] {
            return false;
        }
        i = i + 1;
    }
    assert(av@ =~= bv@);
    true
}

/// **The added name is the one to remove, either way.** When the default
/// exchange and an added one of the same identity race for the same store,
/// whichever lost is told to drop the added name: both orders give the
/// same answer, since the default is not a name that can be removed.
pub proof fn law_duplicate_either_way(default: At, added: At, exchange: Key)
    requires
        default.0 == added.0,
        default.1@.len() == 0,
        added.1@.len() > 0,
    ensures
        duplicate_spec(added, Some(exchange), seq![(default, Some(exchange))]) == Some(added.1@),
        duplicate_spec(default, Some(exchange), seq![(added, Some(exchange))]) == Some(added.1@),
{
    assert(sibling(added, exchange, (default, Some(exchange))));
    assert(sibling(default, exchange, (added, Some(exchange))));
}


/// A call another exchange carried here, waiting on this connection.
#[derive(Clone, Copy, Debug)]
pub struct CrossRing {
    /// The bridge the caller's exchange holds for it.
    pub bridge: [u8; 16],
    /// Who is calling.
    pub caller: Key,
}

/// Whether `k` is the key [`cross_key`] makes of `bridge`.
pub open spec fn bridged(bridge: [u8; 16], k: Key) -> bool {
    &&& forall|i: int| 0 <= i < 16 ==> k[i] == bridge[i]
    &&& forall|i: int| 16 <= i < 32 ==> k[i] == 0
}

/// Whether the cross-exchange ring this session holds, if any, is the one
/// notified under `channel`.
pub open spec fn is_cross_for(cross: Option<CrossRing>, channel: Key) -> bool {
    cross matches Some(c) && bridged(c.bridge, channel)
}

/// Whether the cross-exchange ring this session holds is the one notified
/// under `channel`. A notification pressed shows its conversation unless
/// it is: a bridge's key is no conversation, and showing it would wait for
/// ever on one that does not exist.
pub fn cross_for(cross: &Option<CrossRing>, channel: &Key) -> (r: bool)
    ensures
        r == is_cross_for(*cross, *channel),
{
    match cross {
        Some(c) => {
            let k = cross_key(c.bridge);
            let same = same_key(&k, channel);
            proof {
                if bridged(c.bridge, *channel) {
                    assert(k =~= *channel);
                }
            }
            same
        },
        None => false,
    }
}

/// What an Answer pressed on a notification comes to on one pass.
#[derive(Clone, Copy, Debug)]
pub enum Answering {
    /// Not yet: the session or the ring has not come up. Asked again next
    /// pass.
    Wait,
    /// The ring window went by without one: it ended while the window was
    /// coming up. Stop asking.
    Forget,
    /// Answer the call another exchange carried here, from this caller.
    Cross(Key),
    /// Answer the ring at this place in the session's list, and join it.
    Ring(usize),
}

/// Whether the ring at `i` is the one pressed: in `channel`, somebody
/// else's, and not picked up yet.
pub open spec fn answerable(rings: Seq<Ring>, channel: Key, i: int) -> bool {
    rings[i].channel == channel && !rings[i].mine && !rings[i].answered
}

/// Whether the ring at `i` is the first of `rings` that is [`answerable`].
pub open spec fn first_answerable(rings: Seq<Ring>, channel: Key, i: int) -> bool {
    &&& 0 <= i < rings.len()
    &&& answerable(rings, channel, i)
    &&& forall|j: int| 0 <= j < i ==> !answerable(rings, channel, j)
}

/// What an Answer pressed on the notification for `channel`, `waited_ms`
/// ago, comes to: forgotten once the ring window has gone by; waited on
/// while the session is not held; the cross-exchange ring first, when it
/// is the one notified; else the first ring in the channel that is
/// somebody else's and unanswered; else waited on.
pub open spec fn answer_of(
    waited_ms: u64,
    window_ms: u64,
    held: bool,
    cross: Option<CrossRing>,
    channel: Key,
    rings: Seq<Ring>,
) -> Answering {
    if waited_ms > window_ms {
        Answering::Forget
    } else if !held {
        Answering::Wait
    } else if is_cross_for(cross, channel) {
        Answering::Cross(cross->0.caller)
    } else if exists|i: int| #[trigger] first_answerable(rings, channel, i) {
        let i = choose|i: int| #[trigger] first_answerable(rings, channel, i);
        Answering::Ring(i as usize)
    } else {
        Answering::Wait
    }
}

/// **Opening the conversation is not answering the call.** What an
/// Answer pressed on a notification comes to on this pass, by
/// [`answer_of`]: the press can come before there is a ring to answer,
/// when the window is starting from cold, so until the ring window has
/// gone by it is asked again each pass. `held` is whether this window
/// holds the session the notification came to; `cross` and `rings` are
/// that session's.
pub fn answer_step(
    waited_ms: u64,
    window_ms: u64,
    held: bool,
    cross: &Option<CrossRing>,
    channel: &Key,
    rings: &[Ring],
) -> (r: Answering)
    ensures
        r == answer_of(waited_ms, window_ms, held, *cross, *channel, rings@),
        r matches Answering::Ring(i) ==> i < rings@.len() && answerable(rings@, *channel, i as int),
{
    if waited_ms > window_ms {
        return Answering::Forget;
    }
    if !held {
        return Answering::Wait;
    }
    if cross_for(cross, channel) {
        match cross {
            Some(c) => {
                return Answering::Cross(c.caller);
            },
            None => {
                return Answering::Wait;
            },
        }
    }
    let mut i: usize = 0;
    while i < rings.len()
        invariant
            waited_ms <= window_ms,
            held,
            !is_cross_for(*cross, *channel),
            i <= rings@.len(),
            forall|j: int| 0 <= j < i ==> !answerable(rings@, *channel, j),
        decreases rings@.len() - i,
    {
        let ring = &rings[i];
        if same_key(&ring.channel, channel) && !ring.mine && !ring.answered {
            assert(answerable(rings@, *channel, i as int));
            proof {
                assert(first_answerable(rings@, *channel, i as int));
                let k = choose|k: int| #[trigger] first_answerable(rings@, *channel, k);
                if k < i {
                } else if k > i {
                    assert(!answerable(rings@, *channel, i as int));
                }
                assert(k == i);
            }
            return Answering::Ring(i);
        }
        i = i + 1;
    }
    Answering::Wait
}

/// A press on a notification for the cross-exchange ring this session
/// holds is answered as that call and nothing else: never as a ring in
/// the conversation list, and never by showing a conversation.
pub proof fn law_cross_is_answered_as_cross(
    waited_ms: u64,
    window_ms: u64,
    cross: Option<CrossRing>,
    channel: Key,
    rings: Seq<Ring>,
)
    requires
        waited_ms <= window_ms,
        is_cross_for(cross, channel),
    ensures
        answer_of(waited_ms, window_ms, true, cross, channel, rings) == Answering::Cross(
            cross->0.caller,
        ),
{
}


/// The exchanges worth listing for an identity: the named ones, and its
/// default -- the empty name -- only when the default resolves somewhere.
pub fn listable(names: &[String], default_resolves: bool) -> (r: Vec<String>)
    ensures
        r@.map_values(|s: String| s@) == names@.map_values(|s: String| s@).filter(
            |n: Seq<char>| n.len() > 0 || default_resolves,
        ),
{
    let ghost views = names@.map_values(|s: String| s@);
    let mut r: Vec<String> = Vec::new();
    let mut i: usize = 0;
    while i < names.len()
        invariant
            i <= names@.len(),
            views == names@.map_values(|s: String| s@),
            r@.map_values(|s: String| s@) == views.take(i as int).filter(
                |n: Seq<char>| n.len() > 0 || default_resolves,
            ),
        decreases names@.len() - i,
    {
        assert(views.take(i + 1).drop_last() =~= views.take(i as int));
        assert(views.take(i + 1).last() == names@[i as int]@);
        reveal_with_fuel(Seq::filter, 1);
        if !names[i].as_str().is_empty() || default_resolves {
            let ghost before = r@.map_values(|s: String| s@);
            r.push(names[i].clone());
            assert(r@.map_values(|s: String| s@) =~= before.push(names@[i as int]@));
        }
        i = i + 1;
    }
    assert(views.take(names@.len() as int) =~= views);
    r
}


/// A call this window carries, as far as deciding about it goes; the
/// audio itself is the host's.
#[derive(Clone, Copy, Debug)]
pub struct Carrying {
    /// The conversation it rings in; a cross-exchange call has none.
    pub channel: Key,
    /// The message that started it.
    pub seq: u64,
    /// Whether it is a call another exchange carried here.
    pub cross: bool,
}

/// How long a call lasted, in whole seconds, as a hang-up records it: at
/// most what thirty-two bits hold.
pub open spec fn lasted(elapsed_ms: u64) -> u32 {
    if elapsed_ms / 1000 > u32::MAX as u64 {
        u32::MAX
    } else {
        (elapsed_ms / 1000) as u32
    }
}

/// Put down a call `elapsed_ms` after it was joined: it is recorded among
/// those left, so it is not joined again while its ring is still about,
/// and the hang-up to write in its conversation is handed back, with how
/// long it lasted. A cross-exchange call has no conversation to record
/// its end in: nothing is written, and nothing remembered.
pub fn put_down(call: &Carrying, elapsed_ms: u64, left: &mut Vec<(Key, u64)>) -> (r: Option<(Key, u64, u32)>)
    ensures
        call.cross ==> r is None && final(left)@ == old(left)@,
        !call.cross ==> r == Some((call.channel, call.seq, lasted(elapsed_ms))) && final(left)@
            == old(left)@.push((call.channel, call.seq)),
{
    let secs = elapsed_ms / 1000;
    let seconds: u32 = if secs > 4294967295u64 {
        4294967295u32
    } else {
        secs as u32
    };
    if call.cross {
        return None;
    }
    left.push((call.channel, call.seq));
    Some((call.channel, call.seq, seconds))
}

/// **A call put down is not picked up again.** Once a call of ours is
/// put down, its ring -- still answered, still about until the channel
/// says it is over -- is not one [`to_join`] joins.
pub proof fn law_put_down_stays_down(call: Carrying, left: Seq<(Key, u64)>, rings: Seq<Ring>, i: int)
    requires
        !call.cross,
        0 <= i < rings.len(),
        rings[i].channel == call.channel,
        rings[i].seq == call.seq,
    ensures
        !joinable(rings, left.push((call.channel, call.seq)), i),
{
    assert(left.push((call.channel, call.seq))[left.len() as int] == (call.channel, call.seq));
}


/// What the "Write to" field of a new conversation comes to.
#[derive(Debug)]
pub enum WriteTo {
    /// A `name@domain` at another exchange, reached through the home: the
    /// words to open, as typed.
    Remote(String),
    /// A `name@domain` at another exchange typed at an exchange that is not
    /// the home: refused, with the words said under the field.
    Elsewhere(String),
    /// A key: added as a contact, and the conversation with it opened.
    Contact(Key),
    /// A name, to be looked up at this exchange.
    ByName(String),
    /// Neither a key nor a name: the words said under the field.
    Trouble(String),
}

/// The name and the domain of `t`, split at its last `@`; none without
/// one.
pub open spec fn split_at_last(t: Seq<char>) -> Option<(Seq<char>, Seq<char>)> {
    let p = last_at(t);
    if p < 0 {
        None
    } else {
        Some((t.take(p), t.skip(p + 1)))
    }
}

/// Whether `t` names somebody at another exchange: a name, an `@` and a
/// domain, not a key, and the domain is not this exchange's.
pub open spec fn names_elsewhere(t: Seq<char>, a_key: bool, here: Option<Seq<char>>) -> bool {
    split_at_last(t) matches Some(nd) && nd.0.len() > 0 && nd.1.len() > 0 && !a_key && here != Some(
        nd.1,
    )
}

/// What is said when another exchange's name is typed away from the home.
pub open spec fn elsewhere_words(domain: Seq<char>, exchange: Seq<char>) -> Seq<char> {
    domain + " is another exchange: write to people there from your home, not from "@ + exchange
        + "."@
}

/// What is said when the words are neither a key nor a name.
pub open spec fn unknown_words(why: Seq<char>) -> Seq<char> {
    "not a key, and not a name@domain: "@ + why
}

/// What writing `typed` to somebody from the identity's exchange named
/// `exchange` (empty for the home, whose domain is `here`) comes to, the
/// words trimmed. `parsed` is what reading the trimmed words as a key gave:
/// the key, or why it is not one.
pub open spec fn write_to_of(
    typed: Seq<char>,
    parsed: Result<Key, Seq<char>>,
    here: Option<Seq<char>>,
    exchange: Seq<char>,
    r: WriteTo,
) -> bool {
    let t = trim(typed);
    if names_elsewhere(t, parsed is Ok, here) {
        if exchange.len() == 0 {
            r matches WriteTo::Remote(w) && w@ == t
        } else {
            let nd = split_at_last(t)->0;
            r matches WriteTo::Elsewhere(w) && w@ == elsewhere_words(nd.1, exchange)
        }
    } else {
        match parsed {
            Ok(k) => r matches WriteTo::Contact(c) && c == k,
            Err(why) => if last_at(t) >= 0 {
                r matches WriteTo::ByName(w) && w@ == t
            } else {
                r matches WriteTo::Trouble(w) && w@ == unknown_words(why)
            },
        }
    }
}

/// What the "Write to" field of a new conversation does with what was
/// typed, by [`write_to_of`]. **Another exchange's `name@domain` is reached
/// through the home** -- the identity's default session, and only that one:
/// the create is carried after the identity's move, and a move presented
/// from an added exchange would move the home there. A key opens the
/// conversation with it; anything else with an `@` is looked up as a name.
/// `parsed` is what reading the trimmed words as a key gave.
pub fn write_to(typed: &str, parsed: &Result<Key, String>, here: &Option<String>, exchange: &str) -> (r:
    WriteTo)
    ensures
        write_to_of(
            typed@,
            match parsed {
                Ok(k) => Ok(*k),
                Err(e) => Err(e@),
            },
            match here {
                Some(h) => Some(h@),
                None => None,
            },
            exchange@,
            r,
        ),
{
    let all = chars_of(typed);
    let (a, b) = trim_range(&all, 0, all.len());
    assert(all@.subrange(0, all@.len() as int) =~= all@);
    let t = string_of(&all, a, b);
    let v = chars_of(t.as_str());
    let ghost tv = trim(typed@);
    assert(v@ == tv);
    let a_key = parsed.is_ok();
    match rfind_at(&v) {
        Some(p) => {
            let name = string_of(&v, 0, p);
            let domain = string_of(&v, p + 1, v.len());
            assert(name@ == tv.take(p as int));
            assert(domain@ == tv.skip(p + 1));
            let same_here = match here {
                Some(h) => *h == domain,
                None => false,
            };
            if p > 0 && p + 1 < v.len() && !a_key && !same_here {
                if exchange.is_empty() {
                    return WriteTo::Remote(t);
                }
                let mut w = domain;
                push_str(&mut w, " is another exchange: write to people there from your home, not from ");
                push_str(&mut w, exchange);
                push_str(&mut w, ".");
                return WriteTo::Elsewhere(w);
            }
        },
        None => {},
    }
    match parsed {
        Ok(k) => WriteTo::Contact(*k),
        Err(why) => {
            if rfind_at(&v).is_some() {
                WriteTo::ByName(t)
            } else {
                let mut w = copy_str("not a key, and not a name@domain: ");
                push_str(&mut w, why.as_str());
                WriteTo::Trouble(w)
            }
        },
    }
}


/// The label of the first of `conversations` in `channel`; empty when
/// none is.
pub open spec fn label_in(conversations: Seq<Summary>, channel: Key) -> Seq<char>
    decreases conversations.len(),
{
    if conversations.len() == 0 {
        Seq::empty()
    } else if conversations[0].channel == channel {
        conversations[0].label@
    } else {
        label_in(conversations.drop_first(), channel)
    }
}

/// What the settings fields of the open conversation are seeded with, when
/// they are: once for each conversation opened, so what is being typed in
/// them is not put back on every pass -- its name as the list has it, and
/// its topic. Nothing while nothing is open, or when they were already
/// seeded for this one.
pub fn settings_seed(open: Option<Key>, seeded_for: Option<Key>, conversations: &[Summary], topic: &String) -> (r:
    Option<(String, String, Key)>)
    ensures
        (open is None || seeded_for == open) ==> r is None,
        !(open is None || seeded_for == open) ==> (r matches Some(t) && t.0@ == label_in(
            conversations@,
            open->0,
        ) && t.1@ == topic@ && t.2 == open->0),
{
    let channel = match open {
        Some(c) => c,
        None => {
            return None;
        },
    };
    match seeded_for {
        Some(f) => {
            if same_key(&f, &channel) {
                return None;
            }
        },
        None => {},
    }
    let mut i: usize = 0;
    assert(conversations@.skip(0) =~= conversations@);
    while i < conversations.len()
        invariant
            open == Some(channel),
            seeded_for != open,
            i <= conversations@.len(),
            label_in(conversations@, channel) == label_in(conversations@.skip(i as int), channel),
        decreases conversations@.len() - i,
    {
        assert(conversations@.skip(i as int).drop_first() =~= conversations@.skip(i + 1));
        if same_key(&conversations[i].channel, &channel) {
            return Some((conversations[i].label.clone(), topic.clone(), channel));
        }
        i = i + 1;
    }
    Some((String::new(), topic.clone(), channel))
}

/// How long a conversation keeps its messages, in seconds, for a window
/// of `days` days.
pub fn retention_secs(days: u32) -> (r: u64)
    ensures
        r == days * 86400,
{
    days as u64 * 86400
}


/// Which ring banner a conversation shows.
#[derive(Clone, Copy, Debug, PartialEq, Eq, Structural)]
pub enum Banner {
    /// None: nothing is ringing.
    Quiet,
    /// The call another exchange carried here: it has no conversation of
    /// its own to ring in, so this is the one place it can.
    Cross,
    /// The ring at this place, somebody else's and not picked up: Answer
    /// or Decline.
    Incoming(usize),
    /// The ring at this place, ours and not picked up: Cancel.
    Calling(usize),
}

/// Whether the ring at `i` is the first of `rings` placed by us (`mine`)
/// or not, and not yet picked up.
pub open spec fn first_unanswered(rings: Seq<Ring>, mine: bool, i: int) -> bool {
    &&& 0 <= i < rings.len()
    &&& rings[i].mine == mine && !rings[i].answered
    &&& forall|j: int| 0 <= j < i ==> !(rings[j].mine == mine && !rings[j].answered)
}

/// The first ring of `rings` placed by us (`mine`) or not, not yet picked
/// up.
fn find_unanswered(rings: &[Ring], mine: bool) -> (r: Option<usize>)
    ensures
        match r {
            Some(i) => first_unanswered(rings@, mine, i as int),
            None => forall|j: int| 0 <= j < rings@.len() ==> !(rings@[j].mine == mine && !rings@[j].answered),
        },
{
    let mut i: usize = 0;
    while i < rings.len()
        invariant
            i <= rings@.len(),
            forall|j: int| 0 <= j < i ==> !(rings@[j].mine == mine && !rings@[j].answered),
        decreases rings@.len() - i,
    {
        if rings[i].mine == mine && !rings[i].answered {
            return Some(i);
        }
        i = i + 1;
    }
    None
}

/// **Incoming first.** Which ring banner a conversation shows: a call
/// another exchange carried here before anything, then the first ring that
/// is somebody else's and not picked up, then the first of ours not picked
/// up -- only while it rings: once it is answered, the call's own bar says
/// what is happening. The two cannot both be true of one conversation
/// without somebody having called somebody who was calling them.
pub fn banner_of(cross: bool, rings: &[Ring]) -> (r: Banner)
    ensures
        cross ==> r == Banner::Cross,
        !cross ==> match r {
            Banner::Incoming(i) => first_unanswered(rings@, false, i as int),
            Banner::Calling(i) => (forall|j: int|
                0 <= j < rings@.len() ==> !(!rings@[j].mine && !rings@[j].answered))
                && first_unanswered(rings@, true, i as int),
            Banner::Quiet => forall|j: int| 0 <= j < rings@.len() ==> rings@[j].answered,
            Banner::Cross => false,
        },
{
    if cross {
        return Banner::Cross;
    }
    match find_unanswered(rings, false) {
        Some(i) => Banner::Incoming(i),
        None => match find_unanswered(rings, true) {
            Some(i) => Banner::Calling(i),
            None => Banner::Quiet,
        },
    }
}

} // verus!

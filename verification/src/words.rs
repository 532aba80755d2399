//! What is said out loud about calls, mentions and arrivals, what a
//! saved file is called, and the words read back beside a search and a
//! comparison of safety words.
//!
//! A key is shown in its short form, which the host makes; these take it
//! ready made. The identity a thing arrived at is named only when this
//! host holds several: with one there is nothing to tell apart.

use vstd::prelude::*;

use crate::chat::At;
use crate::composer::{listed, push_listed};
use crate::key::Key;
use crate::session::{Arrival, Mention};
use crate::text::{copy_str, decimal, push_decimal, push_str};

verus! {

broadcast use vstd::string::group_string_axioms;

/// Where a notification leads: an identity at an exchange, and a
/// conversation there.
#[derive(Debug, Clone, PartialEq, Eq)]
pub struct Target {
    pub identity: Key,
    pub exchange: String,
    pub channel: Key,
    /// Whether pressing it answers a ring, rather than opening the
    /// conversation.
    pub answer: bool,
}

/// Where a notification about `channel` at `at` leads: the conversation,
/// never an answer -- a ring's Answer is built where the ring is.
pub fn target(at: &At, channel: Key) -> (t: Target)
    ensures
        t.identity == at.0,
        t.exchange@ == at.1@,
        t.channel == channel,
        !t.answer,
{
    Target { identity: at.0, exchange: at.1.clone(), channel, answer: false }
}

/// The words for a ringing call: the conversation, the caller by their
/// short key, and the identity called when there are several.
pub open spec fn ring_words(who: Seq<char>, label: Seq<char>, called: Seq<char>, held: nat) -> Seq<char> {
    if held > 1 {
        label + " — from "@ + who + ", to "@ + called
    } else {
        label + " — from "@ + who
    }
}

/// The words for a ringing call. `who` is the caller's short key.
pub fn ring_said(who: &str, label: &str, called: &str, held: usize) -> (s: String)
    ensures
        s@ == ring_words(who@, label@, called@, held as nat),
{
    let mut s = copy_str(label);
    push_str(&mut s, " — from ");
    push_str(&mut s, who);
    if held > 1 {
        push_str(&mut s, ", to ");
        push_str(&mut s, called);
    }
    s
}

/// The words for a call carried here from another exchange: the caller,
/// by the name this client has for them, and where from.
pub open spec fn cross_words(who: Seq<char>, called: Seq<char>, held: nat) -> Seq<char> {
    if held > 1 {
        who + ", from another exchange — to "@ + called
    } else {
        who + ", from another exchange"@
    }
}

/// The words for a call carried here from another exchange.
pub fn cross_said(who: &str, called: &str, held: usize) -> (s: String)
    ensures
        s@ == cross_words(who@, called@, held as nat),
{
    let mut s = copy_str(who);
    if held > 1 {
        push_str(&mut s, ", from another exchange — to ");
        push_str(&mut s, called);
    } else {
        push_str(&mut s, ", from another exchange");
    }
    s
}

/// A conversation as it is called in words: `#` before a public one.
pub open spec fn room_words(public: bool, conversation: Seq<char>) -> Seq<char> {
    if public {
        "#"@ + conversation
    } else {
        conversation
    }
}

/// The summary of a mention's notification.
pub open spec fn mention_summary(m: Mention, called: Seq<char>, held: nat) -> Seq<char> {
    let base = m.from_label@ + " mentioned you in "@ + room_words(m.public, m.conversation@);
    if held > 1 {
        base + ", as "@ + called
    } else {
        base
    }
}

/// The body of a mention's notification: the sender's short key `who`,
/// and what was said when anything was.
pub open spec fn mention_body(m: Mention, who: Seq<char>) -> Seq<char> {
    if m.said@.len() == 0 {
        who
    } else {
        who + " — "@ + m.said@
    }
}

/// `conversation` as it is called, appended to `s`.
fn push_room(s: &mut String, public: bool, conversation: &String)
    ensures
        final(s)@ == old(s)@ + room_words(public, conversation@),
{
    if public {
        push_str(s, "#");
        push_str(s, conversation.as_str());
        assert(old(s)@ + "#"@ + conversation@ == old(s)@ + ("#"@ + conversation@));
    } else {
        push_str(s, conversation.as_str());
    }
}

/// The words for a mention: the summary and the body of the notification.
/// The sender by the name this client has for them and, in the body, by
/// their short key `who`, since a name is only what they say they are
/// called, and the key is who they are.
pub fn mention_said(m: &Mention, called: &str, held: usize, who: &str) -> (r: (String, String))
    ensures
        r.0@ == mention_summary(*m, called@, held as nat),
        r.1@ == mention_body(*m, who@),
{
    let mut summary = copy_str(m.from_label.as_str());
    push_str(&mut summary, " mentioned you in ");
    push_room(&mut summary, m.public, &m.conversation);
    if held > 1 {
        push_str(&mut summary, ", as ");
        push_str(&mut summary, called);
    }
    let mut body = copy_str(who);
    if !m.said.as_str().is_empty() {
        push_str(&mut body, " — ");
        push_str(&mut body, m.said.as_str());
    }
    (summary, body)
}

/// The summary of a notification for the arrivals `t`, the last of them
/// leading.
pub open spec fn arrivals_summary(t: Seq<Arrival>, called: Seq<char>, held: nat) -> Seq<char> {
    let last = t.last();
    let room = room_words(last.public, last.conversation@);
    let base = if t.len() == 1 {
        if last.direct {
            last.from_label@
        } else {
            last.from_label@ + " in "@ + room
        }
    } else {
        if last.direct {
            decimal(t.len()) + " new messages from "@ + last.from_label@
        } else {
            decimal(t.len()) + " new messages in "@ + room
        }
    };
    if held > 1 {
        base + ", as "@ + called
    } else {
        base
    }
}

/// The body of a notification for the arrivals `t`: what the last said,
/// and who said it when several in a room are counted together.
pub open spec fn arrivals_body(t: Seq<Arrival>) -> Seq<char> {
    let last = t.last();
    if t.len() > 1 && !last.direct {
        last.from_label@ + ": "@ + last.said@
    } else {
        last.said@
    }
}

/// One or several messages arrived in one conversation, in words: who and
/// where, and what the last one said. With several identities held, which
/// one it came to.
pub fn arrivals_said(together: &[Arrival], called: &str, held: usize) -> (r: (String, String))
    requires
        together@.len() > 0,
    ensures
        r.0@ == arrivals_summary(together@, called@, held as nat),
        r.1@ == arrivals_body(together@),
{
    let n = together.len();
    let last = &together[n - 1];
    let mut summary = String::new();
    if n == 1 {
        push_str(&mut summary, last.from_label.as_str());
        if !last.direct {
            push_str(&mut summary, " in ");
            push_room(&mut summary, last.public, &last.conversation);
        }
    } else {
        push_decimal(&mut summary, n as u64);
        if last.direct {
            push_str(&mut summary, " new messages from ");
            push_str(&mut summary, last.from_label.as_str());
        } else {
            push_str(&mut summary, " new messages in ");
            push_room(&mut summary, last.public, &last.conversation);
        }
    }
    if held > 1 {
        push_str(&mut summary, ", as ");
        push_str(&mut summary, called);
    }
    let body = if n > 1 && !last.direct {
        let mut b = copy_str(last.from_label.as_str());
        push_str(&mut b, ": ");
        push_str(&mut b, last.said.as_str());
        b
    } else {
        copy_str(last.said.as_str())
    };
    (summary, body)
}

/// What a saved file is called: `sigil-` and the moment, then for the
/// second file of a message and after, which it is, then the extension.
pub open spec fn save_words(stamp: Seq<char>, index: nat, ext: Seq<char>) -> Seq<char> {
    if index == 0 {
        "sigil-"@ + stamp + "."@ + ext
    } else {
        "sigil-"@ + stamp + "-"@ + decimal(index + 1) + "."@ + ext
    }
}

/// What a saved file is called: `sigil-2026-09-22-18-32-05.png`. `stamp`
/// is the message's moment as the host writes it, and `ext` the extension
/// the host read out of the bytes. **The second file of a message is not
/// the first**: a gallery's pictures share a moment, so the first keeps the
/// plain name and the rest say which they are.
pub fn save_name(stamp: &str, index: usize, ext: &str) -> (s: String)
    requires
        index < u64::MAX,
    ensures
        s@ == save_words(stamp@, index as nat, ext@),
{
    let mut s = copy_str("sigil-");
    push_str(&mut s, stamp);
    if index != 0 {
        push_str(&mut s, "-");
        push_decimal(&mut s, index as u64 + 1);
    }
    push_str(&mut s, ".");
    push_str(&mut s, ext);
    s
}

/// What a recorded voice note is called, for the moment it was made: a
/// directory of `note.ogg`, `note-1.ogg` says nothing about which is which.
pub open spec fn note_words(stamp: Seq<char>) -> Seq<char> {
    "voice-"@ + stamp + ".ogg"@
}

/// A voice note's name, by [`note_words`]; `stamp` is the moment as the
/// host writes it.
pub fn note_name(stamp: &str) -> (s: String)
    ensures
        s@ == note_words(stamp@),
{
    let mut s = copy_str("voice-");
    push_str(&mut s, stamp);
    push_str(&mut s, ".ogg");
    s
}

/// What is said under the safety words about who else said at this
/// exchange that they compared theirs with the same person: their word,
/// read back, never acted on.
pub open spec fn attested_words(who: Seq<Seq<char>>) -> Seq<char> {
    if who.len() == 0 {
        "Nobody else has said they compared these words."@
    } else {
        let many = if who.len() == 1 {
            "One person has"@
        } else {
            decimal(who.len()) + " people have"@
        };
        many + " said at this exchange that they compared them: "@ + listed(who)
            + ". Their word, not a check \u{2014} the words above are."@
    }
}

/// The line about others who said they compared the words, by
/// [`attested_words`], each named as this client calls them.
pub fn attested_said(who: &[String]) -> (r: String)
    ensures
        r@ == attested_words(who@.map_values(|n: String| n@)),
{
    if who.len() == 0 {
        return copy_str("Nobody else has said they compared these words.");
    }
    let mut r = if who.len() == 1 {
        copy_str("One person has")
    } else {
        let mut m = String::new();
        push_decimal(&mut m, who.len() as u64);
        push_str(&mut m, " people have");
        m
    };
    push_str(&mut r, " said at this exchange that they compared them: ");
    push_listed(&mut r, who);
    push_str(&mut r, ". Their word, not a check \u{2014} the words above are.");
    r
}


/// What a search that found nothing says: the search has not answered
/// yet, or nothing here matched.
pub open spec fn no_hits_words(searched: bool) -> Seq<char> {
    if searched {
        "Nothing here matched."@
    } else {
        "\u{2026}"@
    }
}

/// How many results a search found, said every time with where it
/// looked: an empty result means "not in what this client has opened",
/// which is a different fact from "never said".
pub open spec fn hits_words(n: nat) -> Seq<char> {
    decimal(n) + if n == 1 {
        " result"@
    } else {
        " results"@
    } + " in what this client holds"@
}

/// What stands over a search's results, by [`hits_words`], or by
/// [`no_hits_words`] when there are none.
pub fn hits_said(n: usize, searched: bool) -> (r: String)
    ensures
        n == 0 ==> r@ == no_hits_words(searched),
        n > 0 ==> r@ == hits_words(n as nat),
{
    if n == 0 {
        return if searched {
            copy_str("Nothing here matched.")
        } else {
            copy_str("\u{2026}")
        };
    }
    let mut r = String::new();
    push_decimal(&mut r, n as u64);
    if n == 1 {
        push_str(&mut r, " result");
    } else {
        push_str(&mut r, " results");
    }
    push_str(&mut r, " in what this client holds");
    r
}


/// What a call's bar says of it: in it or still connecting, and -- when
/// the call is not the identity being looked at -- whose it is, since a
/// hang-up that ends somebody else's call has to say whose.
pub open spec fn call_state_words(who: Option<Seq<char>>, up: bool) -> Seq<char> {
    match who {
        Some(w) => if up {
            "In a call as "@ + w
        } else {
            "Connecting\u{2026} as "@ + w
        },
        None => if up {
            "In a call"@
        } else {
            "Connecting\u{2026}"@
        },
    }
}

/// A call's bar, by [`call_state_words`].
pub fn call_state_said(who: Option<&str>, up: bool) -> (r: String)
    ensures
        r@ == call_state_words(
            match who {
                Some(w) => Some(w@),
                None => None,
            },
            up,
        ),
{
    match who {
        Some(w) => {
            let mut r = if up {
                copy_str("In a call as ")
            } else {
                copy_str("Connecting\u{2026} as ")
            };
            push_str(&mut r, w);
            r
        },
        None => if up {
            copy_str("In a call")
        } else {
            copy_str("Connecting\u{2026}")
        },
    }
}

/// `n` in at least two digits.
pub open spec fn two_digits(n: nat) -> Seq<char> {
    if n < 10 {
        "0"@ + decimal(n)
    } else {
        decimal(n)
    }
}

/// How long a call has lasted, as its bar shows it: minutes and seconds,
/// each in at least two digits.
pub open spec fn clock_words(seconds: nat) -> Seq<char> {
    two_digits(seconds / 60) + ":"@ + two_digits(seconds % 60)
}

/// `n` onto `s` in at least two digits.
fn push_two_digits(s: &mut String, n: u64)
    ensures
        final(s)@ == old(s)@ + two_digits(n as nat),
{
    if n < 10 {
        push_str(s, "0");
    }
    push_decimal(s, n);
}

/// How long a call has lasted, by [`clock_words`].
pub fn call_clock(seconds: u64) -> (r: String)
    ensures
        r@ == clock_words(seconds as nat),
{
    let mut r = String::new();
    push_two_digits(&mut r, seconds / 60);
    push_str(&mut r, ":");
    push_two_digits(&mut r, seconds % 60);
    r
}

/// Why a call is relayed by the exchange, as its bar says on hovering:
/// the reason the call gave, or that no introduction was asked for.
pub open spec fn relayed_words(why: Option<Seq<char>>) -> Seq<char> {
    "Relayed by the exchange: "@ + match why {
        Some(w) => w,
        None => "no introduction was asked for"@,
    } + "."@
}

/// Why a call is relayed, by [`relayed_words`].
pub fn relayed_said(why: Option<&str>) -> (r: String)
    ensures
        r@ == relayed_words(
            match why {
                Some(w) => Some(w@),
                None => None,
            },
        ),
{
    let mut r = copy_str("Relayed by the exchange: ");
    match why {
        Some(w) => push_str(&mut r, w),
        None => push_str(&mut r, "no introduction was asked for"),
    }
    push_str(&mut r, ".");
    r
}


/// **The last one speaks.** What is said of messages counted together
/// depends only on how many there are and the last of them: two runs as
/// long, ending in the same message, are said alike; and the body ends
/// with what the last one said, after who said it when several in a room
/// are counted together.
pub proof fn law_the_last_one_speaks(t: Seq<Arrival>, u: Seq<Arrival>, called: Seq<char>, held: nat)
    requires
        t.len() > 0,
        u.len() == t.len(),
        u[u.len() - 1] == t[t.len() - 1],
    ensures
        arrivals_summary(u, called, held) == arrivals_summary(t, called, held),
        arrivals_body(u) == arrivals_body(t),
        t.len() > 1 && !t[t.len() - 1].direct ==> arrivals_body(t) == t[t.len() - 1].from_label@
            + ": "@ + t[t.len() - 1].said@,
        !(t.len() > 1 && !t[t.len() - 1].direct) ==> arrivals_body(t) == t[t.len() - 1].said@,
{
    assert(u.last() == u[u.len() - 1]);
    assert(t.last() == t[t.len() - 1]);
}

} // verus!

//! What is said above a conversation when something about it is wrong:
//! a record that does not match this device's, a key not held, messages
//! that cannot be opened -- and which kind of cannot -- messages whose key
//! is gone, history past retention, a conversation started again, and
//! entries whose signature did not hold.

use vstd::prelude::*;

use crate::text::{copy_str, decimal, push_decimal, push_str};

verus! {

broadcast use vstd::string::group_string_axioms;

/// What is wrong with a conversation, as the session found it.
pub struct Trouble {
    /// The exchange's record of what this device wrote does not match its own.
    pub chain_apart: bool,
    /// No key held for the conversation's epoch.
    pub no_key: Option<u64>,
    /// Messages not opened.
    pub unreadable: u64,
    /// Of those, the ones this identity may take down.
    pub redactable: Vec<u64>,
    /// Messages whose key is gone.
    pub lost: u64,
    /// History past the retention window.
    pub gap: bool,
    /// The conversation was destroyed and started again.
    pub restarted: bool,
    /// Entries whose signature did not hold.
    pub forged: u64,
}

/// How a line is said.
#[derive(Debug, Clone, Copy, PartialEq, Eq, Structural)]
pub enum Tone {
    Secondary,
    Warning,
    Destructive,
}

/// A line said at a tone.
pub type Line = (Tone, Seq<char>);

/// The words for messages not opened: in a private conversation nearly
/// always the key, and waiting is right; in a public one nothing is ever
/// sealed and no key will come, so it is this version that could not read
/// them.
pub open spec fn unreadable_words(public: bool, n: nat) -> Seq<char> {
    if !public {
        if n == 1 {
            "1 message here has not been opened yet — its key may still arrive."@
        } else {
            decimal(n) + " messages here have not been opened yet — their key may still arrive."@
        }
    } else {
        if n == 1 {
            "1 message here could not be read by this version of sigil."@
        } else {
            decimal(n) + " messages here could not be read by this version of sigil."@
        }
    }
}

/// The words for messages whose key is gone.
pub open spec fn lost_words(n: nat) -> Seq<char> {
    if n == 1 {
        "1 message here can never be read: its key is gone."@
    } else {
        decimal(n) + " messages here can never be read: their key is gone."@
    }
}

/// The words for entries whose signature did not hold.
pub open spec fn forged_words(n: nat) -> Seq<char> {
    if n == 1 {
        "1 entry claimed to be from somebody here and was not signed by them. It is not shown."@
    } else {
        decimal(n)
            + " entries claimed to be from somebody here and were not signed by them. They are not shown."@
    }
}

/// The words for a key not held.
pub open spec fn no_key_words(epoch: nat) -> Seq<char> {
    "You hold no key for this conversation (epoch "@ + decimal(epoch)
        + "). An admin has to hand you one before anything here can be read."@
}

/// The words for a record that does not match.
pub open spec fn apart_words() -> Seq<char> {
    "The exchange's record of what this device wrote here does not match this device's own. Something else has written here under this device's key, or this machine's history was rolled back."@
}

/// The words for history past retention.
pub open spec fn gap_words() -> Seq<char> {
    "Older messages have passed this channel's retention window and are gone."@
}

/// The words for a conversation started again.
pub open spec fn restarted_words() -> Seq<char> {
    "This conversation was destroyed and started again under the same name. Nothing above is related to what follows."@
}

/// `line` after `s` when `say`.
pub open spec fn and_then(s: Seq<Line>, say: bool, line: Line) -> Seq<Line> {
    if say {
        s.push(line)
    } else {
        s
    }
}

/// Everything said of `t`, in order, each at its tone.
pub open spec fn said_of(t: Trouble, public: bool) -> Seq<Line> {
    let a = and_then(Seq::empty(), t.chain_apart, (Tone::Warning, apart_words()));
    let b = match t.no_key {
        Some(e) => a.push((Tone::Destructive, no_key_words(e as nat))),
        None => a,
    };
    let c = and_then(b, t.unreadable > 0, (Tone::Warning, unreadable_words(public, t.unreadable as nat)));
    let d = and_then(c, t.lost > 0, (Tone::Destructive, lost_words(t.lost as nat)));
    let e = and_then(d, t.gap, (Tone::Secondary, gap_words()));
    let f = and_then(e, t.restarted, (Tone::Warning, restarted_words()));
    and_then(f, t.forged > 0, (Tone::Destructive, forged_words(t.forged as nat)))
}

/// The lines said, as plain values.
pub open spec fn lines_v(v: Seq<(Tone, String)>) -> Seq<Line> {
    v.map_values(|l: (Tone, String)| (l.0, l.1@))
}

/// One line more.
fn say(v: &mut Vec<(Tone, String)>, tone: Tone, s: String)
    ensures
        lines_v(final(v)@) == lines_v(old(v)@).push((tone, s@)),
{
    let ghost before = lines_v(v@);
    v.push((tone, s));
    assert(lines_v(v@) =~= before.push((tone, s@)));
}

/// A count, and what follows it.
fn counted(n: u64, rest: &str) -> (r: String)
    ensures
        r@ == decimal(n as nat) + rest@,
{
    let mut r = String::new();
    push_decimal(&mut r, n);
    push_str(&mut r, rest);
    r
}

/// What is said above a conversation about what is wrong with it, in
/// order, each line at its tone; nothing when all is well. `public` is
/// whether the conversation is public, which decides the words for what
/// could not be opened.
pub fn trouble_said(t: &Trouble, public: bool) -> (r: Vec<(Tone, String)>)
    ensures
        lines_v(r@) == said_of(*t, public),
{
    let mut v: Vec<(Tone, String)> = Vec::new();
    assert(lines_v(v@) =~= Seq::<Line>::empty());
    if t.chain_apart {
        say(
            &mut v,
            Tone::Warning,
            copy_str(
                "The exchange's record of what this device wrote here does not match this device's own. Something else has written here under this device's key, or this machine's history was rolled back.",
            ),
        );
    }
    if let Some(epoch) = t.no_key {
        let mut s = copy_str("You hold no key for this conversation (epoch ");
        push_decimal(&mut s, epoch);
        push_str(&mut s, "). An admin has to hand you one before anything here can be read.");
        say(&mut v, Tone::Destructive, s);
    }
    if t.unreadable > 0 {
        let s = if !public {
            if t.unreadable == 1 {
                copy_str("1 message here has not been opened yet — its key may still arrive.")
            } else {
                counted(t.unreadable, " messages here have not been opened yet — their key may still arrive.")
            }
        } else {
            if t.unreadable == 1 {
                copy_str("1 message here could not be read by this version of sigil.")
            } else {
                counted(t.unreadable, " messages here could not be read by this version of sigil.")
            }
        };
        say(&mut v, Tone::Warning, s);
    }
    if t.lost > 0 {
        let s = if t.lost == 1 {
            copy_str("1 message here can never be read: its key is gone.")
        } else {
            counted(t.lost, " messages here can never be read: their key is gone.")
        };
        say(&mut v, Tone::Destructive, s);
    }
    if t.gap {
        say(
            &mut v,
            Tone::Secondary,
            copy_str("Older messages have passed this channel's retention window and are gone."),
        );
    }
    if t.restarted {
        say(
            &mut v,
            Tone::Warning,
            copy_str(
                "This conversation was destroyed and started again under the same name. Nothing above is related to what follows.",
            ),
        );
    }
    if t.forged > 0 {
        let s = if t.forged == 1 {
            copy_str(
                "1 entry claimed to be from somebody here and was not signed by them. It is not shown.",
            )
        } else {
            counted(
                t.forged,
                " entries claimed to be from somebody here and were not signed by them. They are not shown.",
            )
        };
        say(&mut v, Tone::Destructive, s);
    }
    v
}

/// The words on the way to take down messages that will never open, for
/// whoever may: nothing when none may be, else all of them, or those of
/// them that are this identity's.
pub open spec fn delete_words(unreadable: nat, mine: nat) -> Option<Seq<char>> {
    if unreadable == 0 || mine == 0 {
        None
    } else if mine == unreadable {
        if mine == 1 {
            Some("Delete it"@)
        } else {
            Some("Delete them"@)
        }
    } else {
        Some("Delete the "@ + decimal(mine) + " of them that are yours"@)
    }
}

/// The way to take down messages that will never open, by
/// [`delete_words`]: the one thing to do with one is delete it, and
/// nothing else offers the control.
pub fn delete_label(t: &Trouble) -> (r: Option<String>)
    ensures
        match (r, delete_words(t.unreadable as nat, t.redactable@.len())) {
            (Some(a), Some(b)) => a@ == b,
            (None, None) => true,
            _ => false,
        },
{
    let n = t.redactable.len();
    if t.unreadable == 0 || n == 0 {
        return None;
    }
    if n as u64 == t.unreadable {
        if n == 1 {
            return Some(copy_str("Delete it"));
        }
        return Some(copy_str("Delete them"));
    }
    let mut s = copy_str("Delete the ");
    push_decimal(&mut s, n as u64);
    push_str(&mut s, " of them that are yours");
    Some(s)
}

} // verus!

//! An identity's exchanges beyond its home: which of the exchanges its
//! home federates with are offered to add, what adding one by name comes
//! to, what a public channel found at another exchange offers, and the
//! name an identity holds at one -- claimed as it is
//! [`entered`](crate::text::entered), and given up by its local part.
//!
//! **Reached through the home.** An exchange added through the home sees
//! the home's address and the identity's own key, never where this
//! machine is. The home itself is not one of them: it carries the
//! connections to the others.

use vstd::prelude::*;

use crate::key::Key;
use crate::text::{
    ascii_lower, chars_of, copy_str, push_str, same_ignoring_ascii_case, string_of, trim, trim_range,
};

verus! {

broadcast use vstd::string::group_string_axioms;

/// `s` with its ASCII capitals made small.
pub open spec fn folded(s: Seq<char>) -> Seq<char> {
    s.map_values(|c: char| ascii_lower(c))
}

/// Whether `d` is among `held`, ASCII case aside.
pub open spec fn held_already(held: Seq<Seq<char>>, d: Seq<char>) -> bool {
    exists|i: int| 0 <= i < held.len() && folded(#[trigger] held[i]) == folded(d)
}

/// Whether a peer of the home's exchange is worth offering: it has a
/// domain, it is not the exchange itself, and the identity does not hold
/// it already.
pub open spec fn worth_offering(d: Seq<char>, domain: Option<Seq<char>>, held: Seq<Seq<char>>) -> bool {
    d.len() > 0 && domain != Some(d) && !held_already(held, d)
}

/// The views of `held`.
pub open spec fn views(held: Seq<String>) -> Seq<Seq<char>> {
    held.map_values(|s: String| s@)
}

/// Whether `d` is among `held`, ASCII case aside, by looking.
fn holds(held: &[String], d: &String) -> (r: bool)
    ensures
        r == held_already(views(held@), d@),
{
    let mut i: usize = 0;
    while i < held.len()
        invariant
            i <= held@.len(),
            forall|j: int| 0 <= j < i ==> folded(#[trigger] views(held@)[j]) != folded(d@),
        decreases held@.len() - i,
    {
        if same_ignoring_ascii_case(held[i].as_str(), d.as_str()) {
            assert(folded(views(held@)[i as int]) == folded(d@));
            return true;
        }
        i = i + 1;
    }
    false
}

/// The peers of `peers` worth offering, in order.
pub open spec fn offered_of(
    peers: Seq<(Key, Seq<char>)>,
    domain: Option<Seq<char>>,
    held: Seq<Seq<char>>,
) -> Seq<(Key, Seq<char>)>
    decreases peers.len(),
{
    if peers.len() == 0 {
        Seq::empty()
    } else {
        let rest = offered_of(peers.drop_last(), domain, held);
        if worth_offering(peers.last().1, domain, held) {
            rest.push(peers.last())
        } else {
            rest
        }
    }
}

/// The views of `peers`.
pub open spec fn peer_views(peers: Seq<(Key, String)>) -> Seq<(Key, Seq<char>)> {
    peers.map_values(|p: (Key, String)| (p.0, p.1@))
}

/// The view of an optional name.
pub open spec fn opt_view(d: Option<String>) -> Option<Seq<char>> {
    match d {
        Some(d) => Some(d@),
        None => None,
    }
}

/// What an exchange federates with, offered to add, in the order it
/// listed them: only those with a domain -- a key alone is nothing the
/// roster can dial -- and not the exchange itself, nor one the identity
/// already holds, ASCII case aside. `domain` is this exchange's own.
pub fn offered_peers(peers: &[(Key, String)], domain: &Option<String>, held: &[String]) -> (r: Vec<
    (Key, String),
>)
    ensures
        peer_views(r@) == offered_of(peer_views(peers@), opt_view(*domain), views(held@)),
{
    let ghost pv = peer_views(peers@);
    let mut r: Vec<(Key, String)> = Vec::new();
    let mut i: usize = 0;
    while i < peers.len()
        invariant
            i <= peers@.len(),
            pv == peer_views(peers@),
            peer_views(r@) == offered_of(pv.take(i as int), opt_view(*domain), views(held@)),
        decreases peers@.len() - i,
    {
        assert(pv.take(i + 1).drop_last() =~= pv.take(i as int));
        assert(pv.take(i + 1).last() == (peers@[i as int].0, peers@[i as int].1@));
        let d = &peers[i].1;
        let is_here = match domain {
            Some(h) => *h == *d,
            None => false,
        };
        if !d.as_str().is_empty() && !is_here && !holds(held, d) {
            let ghost before = peer_views(r@);
            r.push((peers[i].0, d.clone()));
            assert(peer_views(r@) =~= before.push((peers@[i as int].0, peers@[i as int].1@)));
        }
        i = i + 1;
    }
    assert(pv.take(peers@.len() as int) =~= pv);
    r
}

/// What pressing Add in the exchange dialog comes to.
#[derive(Debug)]
pub enum Adding {
    /// The home was named as an exchange to reach through itself: refused,
    /// with the words.
    Home(String),
    /// Add the exchange of this name, through the home when one is given.
    Add(String, Option<String>),
}

/// What is said when the home is named as an exchange to reach through
/// the home.
pub open spec fn home_words(named: Seq<char>) -> Seq<char> {
    named + " is your home; it carries connections to other exchanges."@
}

/// What adding the exchange `typed` comes to, the words trimmed, through
/// `via` -- the home's domain, when the connection is to be carried by it.
/// The home cannot carry a connection to itself.
pub fn adding(typed: &str, via: &Option<String>) -> (r: Adding)
    ensures
        match via {
            Some(h) if folded(h@) == folded(trim(typed@)) => r matches Adding::Home(w) && w@
                == home_words(trim(typed@)),
            _ => r matches Adding::Add(n, v) && n@ == trim(typed@) && match (v, via) {
                (Some(a), Some(b)) => a@ == b@,
                (None, None) => true,
                _ => false,
            },
        },
{
    let all = chars_of(typed);
    let (a, b) = trim_range(&all, 0, all.len());
    assert(all@.subrange(0, all@.len() as int) =~= all@);
    let named = string_of(&all, a, b);
    match via {
        Some(h) => {
            if same_ignoring_ascii_case(h.as_str(), named.as_str()) {
                let mut w = named;
                push_str(&mut w, " is your home; it carries connections to other exchanges.");
                Adding::Home(w)
            } else {
                Adding::Add(named, Some(h.clone()))
            }
        },
        None => Adding::Add(named, None),
    }
}

/// What is said when an exchange was not added: no name was given, or
/// the identity holds that one already.
pub open spec fn not_added_words(named: Seq<char>) -> Seq<char> {
    if named.len() == 0 {
        "Name an exchange \u{2014} a domain, or host:port."@
    } else {
        "This identity is already connected to "@ + named + "."@
    }
}

/// **Refused where it was typed**, rather than the dialog staying open
/// with the text still in it and nothing said: what is said when adding
/// `named` was turned down.
pub fn not_added_said(named: &str) -> (r: String)
    ensures
        r@ == not_added_words(named@),
{
    if named.is_empty() {
        copy_str("Name an exchange \u{2014} a domain, or host:port.")
    } else {
        let mut w = copy_str("This identity is already connected to ");
        push_str(&mut w, named);
        push_str(&mut w, ".");
        w
    }
}


/// What comes before the first `@` of `s`; all of it when it has none.
pub open spec fn before_first_at(s: Seq<char>) -> Seq<char>
    decreases s.len(),
{
    if s.len() == 0 || s[0] == '@' {
        Seq::empty()
    } else {
        seq![s[0]] + before_first_at(s.drop_first())
    }
}

/// The bare local part of a name held, as giving it up names it: the
/// exchange it is given up at is the one being talked to.
pub fn local_part(handle: &str) -> (r: String)
    ensures
        r@ == before_first_at(handle@),
{
    let v = chars_of(handle);
    let mut k: usize = 0;
    assert(v@.take(0) =~= Seq::<char>::empty());
    assert(v@.skip(0) =~= v@);
    while k < v.len() && v[k] != '@'
        invariant
            k <= v@.len(),
            before_first_at(v@) == v@.take(k as int) + before_first_at(v@.skip(k as int)),
        decreases v@.len() - k,
    {
        assert(v@.skip(k as int).drop_first() =~= v@.skip(k + 1));
        assert(v@.take(k + 1) =~= v@.take(k as int) + seq![v@[k as int]]);
        k = k + 1;
    }
    assert(before_first_at(v@.skip(k as int)) =~= Seq::<char>::empty());
    string_of(&v, 0, k)
}


/// What a public channel the directory found offers.
#[derive(Debug)]
pub enum Found {
    /// Already among the identity's conversations.
    Joined,
    /// At an exchange the identity is not connected to: the exchange dialog
    /// is opened on its domain, under this label, and reaching it through
    /// the home is ticked when there is a home other than that exchange.
    AddExchange { label: String, via: bool },
    /// Here, to join: reading a public channel is joining it.
    Join,
}

/// What the button on a channel found at another exchange says: the
/// domain, unless the row is narrow.
pub open spec fn add_words(domain: Seq<char>, narrow: bool) -> Seq<char> {
    if narrow {
        "Add exchange"@
    } else {
        "Add "@ + domain
    }
}

/// What a channel the directory found offers: `already` among the
/// conversations, `here` at this exchange, `domain` the exchange it is
/// at, `home` the home's domain, if the home has one.
pub fn found_row(already: bool, here: bool, narrow: bool, domain: &str, home: &Option<String>) -> (r: Found)
    ensures
        already ==> r is Joined,
        !already && here ==> r is Join,
        !already && !here ==> (r matches Found::AddExchange { label, via } && label@ == add_words(
            domain@,
            narrow,
        ) && via == (home matches Some(h) && folded(h@) != folded(domain@))),
{
    if already {
        return Found::Joined;
    }
    if here {
        return Found::Join;
    }
    let label = if narrow {
        copy_str("Add exchange")
    } else {
        let mut l = copy_str("Add ");
        push_str(&mut l, domain);
        l
    };
    let via = match home {
        Some(h) => !same_ignoring_ascii_case(h.as_str(), domain),
        None => false,
    };
    Found::AddExchange { label, via }
}

/// What the directory says when it lists nothing: nothing matched what
/// was asked, or nothing has been asked yet.
pub open spec fn nothing_found_words(searched: bool) -> Seq<char> {
    if searched {
        "Nothing matched."@
    } else {
        "Search to see what this exchange is carrying."@
    }
}

/// The directory's words over an empty list, by [`nothing_found_words`].
pub fn nothing_found_said(searched: bool) -> (r: String)
    ensures
        r@ == nothing_found_words(searched),
{
    if searched {
        copy_str("Nothing matched.")
    } else {
        copy_str("Search to see what this exchange is carrying.")
    }
}


/// What a screen with nowhere to talk to offers somebody new: a public
/// exchange anybody can join, so the first thing after making an identity
/// is one press rather than a search for a domain name. Offered, not
/// applied; nobody is connected anywhere they did not choose.
pub open spec fn suggested() -> Seq<char> {
    "trunk.exchange"@
}

/// The exchange offered to somebody whose identity names none.
pub fn suggested_exchange() -> (r: String)
    ensures
        r@ == suggested(),
{
    copy_str("trunk.exchange")
}

/// Whether an identity names no exchange at all: every name it holds is
/// the default's, and the default does not resolve.
pub open spec fn names_none(listable: Seq<Seq<char>>) -> bool {
    forall|i: int| 0 <= i < listable.len() ==> (#[trigger] listable[i]).len() == 0
}

/// What the screen of an identity that is not connected says, and what its
/// two buttons say: with no exchange named at all, that there is nothing
/// to talk to, the suggestion, and a different one; otherwise, that the
/// others are in the corner, and an exchange to add.
pub open spec fn unconnected_words(none: bool) -> (Seq<char>, Option<Seq<char>>, Seq<char>) {
    if none {
        (
            "This identity names no exchange, so there is nothing for it to talk to."@,
            Some("Add "@ + suggested()),
            "Add a different exchange"@,
        )
    } else {
        (
            "Not connected to this exchange. The others this identity holds are in the block in the corner."@,
            None,
            "Add an exchange"@,
        )
    }
}

/// The not-connected screen's words for an identity whose listable
/// exchanges are `listable`, by [`unconnected_words`] over [`names_none`].
pub fn unconnected_said(listable: &[String]) -> (r: (String, Option<String>, String))
    ensures
        ({
            let w = unconnected_words(names_none(views(listable@)));
            &&& r.0@ == w.0
            &&& match (r.1, w.1) {
                (Some(a), Some(b)) => a@ == b,
                (None, None) => true,
                _ => false,
            }
            &&& r.2@ == w.2
        }),
{
    let mut i: usize = 0;
    let mut none = true;
    while i < listable.len()
        invariant
            i <= listable@.len(),
            none == forall|j: int| 0 <= j < i ==> (#[trigger] views(listable@)[j]).len() == 0,
        decreases listable@.len() - i,
    {
        if !listable[i].as_str().is_empty() {
            assert(views(listable@)[i as int].len() > 0);
            none = false;
        }
        i = i + 1;
    }
    if none {
        let mut add = copy_str("Add ");
        push_str(&mut add, suggested_exchange().as_str());
        (
            copy_str("This identity names no exchange, so there is nothing for it to talk to."),
            Some(add),
            copy_str("Add a different exchange"),
        )
    } else {
        (
            copy_str(
                "Not connected to this exchange. The others this identity holds are in the block in the corner.",
            ),
            None,
            copy_str("Add an exchange"),
        )
    }
}

} // verus!

//! The guardians an account names before it loses its key: the people
//! named, and how many of them it takes to name a successor. No one of
//! them can move the account alone unless it takes one. And, on the other
//! side, an account somebody talks to that has moved to a successor:
//! asked after once, and said plainly.

use vstd::prelude::*;

use crate::key::{Key, has_key, same_key};
use crate::text::{copy_str, decimal, push_decimal, push_str};

verus! {

broadcast use vstd::string::group_string_axioms;

/// The guardians being named, before they are lodged with the exchange.
pub struct Guardians {
    named: Vec<Key>,
    threshold: u8,
}

impl Guardians {
    /// Who is named, in the order named.
    pub closed spec fn named(&self) -> Seq<Key> {
        self.named@
    }

    /// How many it takes, as last chosen.
    pub closed spec fn wanted(&self) -> u8 {
        self.threshold
    }

    /// Each named once.
    pub closed spec fn wf(&self) -> bool {
        self.named@.no_duplicates()
    }

    /// Nobody named yet; two wanted, when there are two.
    pub fn new() -> (g: Guardians)
        ensures
            g.wf(),
            g.named() == Seq::<Key>::empty(),
            g.wanted() == 2,
    {
        Guardians { named: Vec::new(), threshold: 2 }
    }

    /// Who is named.
    pub fn list(&self) -> (r: Vec<Key>)
        ensures
            r@ == self.named(),
    {
        let mut r: Vec<Key> = Vec::new();
        let mut i: usize = 0;
        while i < self.named.len()
            invariant
                i <= self.named@.len(),
                r@ == self.named@.take(i as int),
            decreases self.named@.len() - i,
        {
            r.push(self.named[i]);
            assert(r@ =~= self.named@.take(i + 1));
            i = i + 1;
        }
        assert(self.named@.take(self.named@.len() as int) =~= self.named@);
        r
    }

    /// Somebody more named, once: naming the same key again changes
    /// nothing.
    pub fn add(&mut self, k: Key)
        requires
            old(self).wf(),
        ensures
            final(self).wf(),
            final(self).named() == if old(self).named().contains(k) {
                old(self).named()
            } else {
                old(self).named().push(k)
            },
            final(self).wanted() == old(self).wanted(),
    {
        if !has_key(&self.named, &k) {
            let ghost before = self.named@;
            self.named.push(k);
            assert(self.named@.no_duplicates()) by {
                assert forall|a: int, b: int| 0 <= a < b < self.named@.len() implies self.named@[a]
                    != self.named@[b] by {
                    if b == before.len() {
                        assert(before.contains(self.named@[a]));
                    }
                }
            }
        }
    }

    /// Somebody named taken off again.
    pub fn remove(&mut self, k: Key)
        requires
            old(self).wf(),
        ensures
            final(self).wf(),
            final(self).named() == old(self).named().filter(|x: Key| x != k),
            final(self).wanted() == old(self).wanted(),
    {
        let ghost before = self.named@;
        let mut kept: Vec<Key> = Vec::new();
        let mut i: usize = 0;
        while i < self.named.len()
            invariant
                before == self.named@,
                before.no_duplicates(),
                i <= before.len(),
                kept@ == before.take(i as int).filter(|x: Key| x != k),
            decreases before.len() - i,
        {
            proof {
                reveal_with_fuel(Seq::filter, 1);
                assert(before.take(i + 1).drop_last() =~= before.take(i as int));
            }
            if !same_key(&self.named[i], &k) {
                kept.push(self.named[i]);
            }
            i = i + 1;
        }
        assert(before.take(before.len() as int) =~= before);
        proof {
            lemma_filter_unrepeated(before, |x: Key| x != k);
        }
        self.named = kept;
    }

    /// How many it takes, kept between one and how many are named: what
    /// is offered to choose from.
    pub fn threshold(&self) -> (t: u8)
        requires
            self.named().len() % 256 != 0 || self.named().len() == 0,
        ensures
            self.named().len() == 0 ==> t == self.wanted(),
            self.named().len() > 0 ==> t == clamped(self.wanted(), self.named().len()),
    {
        let n = self.named.len();
        if n == 0 {
            return self.threshold;
        }
        let top: u8 = (n % 256) as u8;
        if self.threshold < 1 {
            1
        } else if self.threshold > top {
            top
        } else {
            self.threshold
        }
    }

    /// How many it takes, chosen.
    pub fn set_threshold(&mut self, t: u8)
        ensures
            final(self).wanted() == t,
            final(self).named() == old(self).named(),
            final(self).wf() == old(self).wf(),
    {
        self.threshold = t;
    }

    /// The guardians lodged: how many it takes, and who, and the list
    /// emptied for next time. Nothing when nobody is named.
    pub fn lodge(&mut self) -> (r: Option<(u8, Vec<Key>)>)
        requires
            old(self).wf(),
            old(self).named().len() % 256 != 0 || old(self).named().len() == 0,
        ensures
            final(self).wf(),
            old(self).named().len() == 0 ==> r is None && final(self).named() == old(self).named(),
            old(self).named().len() > 0 ==> (r matches Some((t, who)) && t == clamped(
                old(self).wanted(),
                old(self).named().len(),
            ) && who@ == old(self).named() && 1 <= t)
                && final(self).named() == Seq::<Key>::empty(),
            final(self).wanted() == old(self).wanted(),
    {
        if self.named.len() == 0 {
            return None;
        }
        let t = self.threshold();
        let mut who: Vec<Key> = Vec::new();
        std::mem::swap(&mut who, &mut self.named);
        Some((t, who))
    }
}

/// How many it takes, kept between one and `n` -- `n` as a `u8` holds it,
/// its low byte.
pub open spec fn clamped(t: u8, n: nat) -> u8 {
    let top: u8 = (n % 256) as u8;
    if t < 1 {
        1
    } else if t > top {
        top
    } else {
        t
    }
}

/// Filtering keeps a list unrepeated.
proof fn lemma_filter_unrepeated(s: Seq<Key>, f: spec_fn(Key) -> bool)
    requires
        s.no_duplicates(),
    ensures
        s.filter(f).no_duplicates(),
    decreases s.len(),
{
    reveal_with_fuel(Seq::filter, 1);
    if s.len() > 0 {
        let rest = s.drop_last();
        assert(rest.no_duplicates()) by {
            assert forall|a: int, b: int| 0 <= a < b < rest.len() implies rest[a] != rest[b] by {
                assert(rest[a] == s[a] && rest[b] == s[b]);
            }
        }
        lemma_filter_unrepeated(rest, f);
        if f(s.last()) {
            let fr = rest.filter(f);
            assert forall|a: int, b: int| 0 <= a < b < s.filter(f).len() implies s.filter(f)[a]
                != s.filter(f)[b] by {
                if b == fr.len() {
                    rest.lemma_filter_contains_rev(f, fr[a]);
                    let w = choose|w: int| 0 <= w < rest.len() && rest[w] == fr[a];
                    assert(s[w] == rest[w]);
                    assert(s[s.len() - 1] == s.last());
                } else {
                    assert(s.filter(f)[a] == fr[a] && s.filter(f)[b] == fr[b]);
                }
            }
        }
    }
}

/// The words for guardians lodged.
pub open spec fn lodged_words(threshold: nat, n: nat) -> Seq<char> {
    "Lodged: any "@ + decimal(threshold) + " of "@ + decimal(n) + " guardians may name your successor."@
}

/// What is said of guardians lodged with the exchange: how many it takes,
/// of how many.
pub fn lodged_said(threshold: u8, n: u64) -> (r: String)
    ensures
        r@ == lodged_words(threshold as nat, n as nat),
{
    let mut r = copy_str("Lodged: any ");
    push_decimal(&mut r, threshold as u64);
    push_str(&mut r, " of ");
    push_decimal(&mut r, n);
    push_str(&mut r, " guardians may name your successor.");
    r
}


/// Whether an account's successor is to be asked after: not when the
/// answer is known, and not twice -- `asked` holds the accounts this
/// session has already asked after. When it is, it is remembered as asked.
pub fn ask_after(known: bool, asked: &mut Vec<Key>, peer: &Key) -> (r: bool)
    ensures
        r == (!known && !old(asked)@.contains(*peer)),
        r ==> final(asked)@ == old(asked)@.push(*peer),
        !r ==> final(asked)@ == old(asked)@,
{
    if known {
        return false;
    }
    if has_key(asked, peer) {
        return false;
    }
    asked.push(*peer);
    true
}

/// What is said over a conversation with somebody whose account has a
/// successor: who they were, as named here, and the successor's key,
/// short.
pub open spec fn moved_words(named: Seq<char>, successor: Seq<char>) -> Seq<char> {
    named + "'s account is now "@ + successor
}

/// The line about a successor, by [`moved_words`].
pub fn moved_said(named: &str, successor: &str) -> (r: String)
    ensures
        r@ == moved_words(named@, successor@),
{
    let mut r = copy_str(named);
    push_str(&mut r, "'s account is now ");
    push_str(&mut r, successor);
    r
}

/// **Asked after once.** Once [`ask_after`] has asked after an account,
/// asking after it again, whatever is known by then, does not ask.
pub proof fn law_asked_once(asked: Seq<Key>, peer: Key, known: bool)
    ensures
        !(!known && !asked.push(peer).contains(peer)),
{
    assert(asked.push(peer)[asked.len() as int] == peer);
}

} // verus!

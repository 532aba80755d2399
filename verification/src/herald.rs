//! What tells the platform about rings, mentions and arrivals.
//!
//! The deciding half of it, over what a walk of the sessions found: which
//! of them have not been said yet, which are said out loud, what the
//! window is asked for, and which ring notifications are taken down
//! because the ring stopped. Each ring, mention and message is considered
//! once -- said or not -- so nothing is said twice and nothing left unsaid
//! (read on screen, or in a muted conversation) is owed later.
//!
//! Walking the sessions, the words' short keys, and whether a conversation
//! is muted are the host's, and come in with what was found.

use vstd::prelude::*;

use crate::chat::At;
use crate::key::{Key, has_key, key_before, key_less, lemma_key_order, same_key};
use crate::session::{Arrival, Mention};
use crate::text::copy_str;
use crate::words::{
    Target, arrivals_body, arrivals_said, arrivals_summary, mention_body, mention_said,
    mention_summary, target,
};

verus! {

broadcast use vstd::string::group_string_axioms;

/// Which sound a notification makes.
#[derive(Debug, Clone, Copy, PartialEq, Eq, Structural)]
pub enum Sound {
    Default,
    Ring,
}

/// How hard the window's icon asks for attention.
#[derive(Debug, Clone, Copy, PartialEq, Eq, Structural)]
pub enum Urgency {
    /// Until answered.
    Critical,
    /// Once.
    Informational,
}

/// What the shell is asked for.
#[derive(Debug, Clone, Copy, PartialEq, Eq, Structural)]
pub enum Want {
    /// Come forward.
    Present,
    /// Ask for attention.
    Attention(Urgency),
}

/// One notification to post.
#[derive(Debug)]
pub struct Notice {
    pub summary: String,
    pub body: String,
    pub target: Option<Target>,
    pub sound: Sound,
}

/// A target as plain values: identity, exchange, channel, answer.
pub type TargetV = (Key, Seq<char>, Key, bool);

/// A notification as plain values.
pub type NoticeV = (Seq<char>, Seq<char>, Option<TargetV>, Sound);

/// A target's plain values.
pub open spec fn target_v(t: Target) -> TargetV {
    (t.identity, t.exchange@, t.channel, t.answer)
}

/// A notification's plain values.
pub open spec fn notice_v(n: Notice) -> NoticeV {
    (
        n.summary@,
        n.body@,
        match n.target {
            Some(t) => Some(target_v(t)),
            None => None,
        },
        n.sound,
    )
}

/// Where a notification about `channel` at `at` leads.
pub open spec fn lead_v(at: At, channel: Key) -> TargetV {
    (at.0, at.1@, channel, false)
}

/// A ring a walk of the sessions found.
pub struct RingSeen {
    /// Its conversation and message; a cross-exchange ring's conversation
    /// is its bridge's key, and its message nought.
    pub key: (Key, u64),
    /// Whether we placed it.
    pub mine: bool,
    /// Its words.
    pub said: String,
    /// Where its notification leads.
    pub to: Target,
    /// Whether its conversation is muted, or do-not-disturb is on.
    pub silenced: bool,
}

/// A mention a walk of the sessions found.
pub struct MentionSeen {
    /// The session it arrived at.
    pub at: At,
    /// What that identity is called.
    pub me: String,
    pub mention: Mention,
    /// The sender's short key.
    pub who: String,
    /// Whether its conversation is muted, or do-not-disturb is on.
    pub silenced: bool,
}

/// A message a walk of the sessions found.
pub struct ArrivalSeen {
    pub arrival: Arrival,
    /// Whether its conversation is muted, or do-not-disturb is on.
    pub silenced: bool,
}

/// What a walk of one session found of its messages.
pub struct SessionArrivals {
    pub at: At,
    /// What that identity is called.
    pub me: String,
    pub arrivals: Vec<ArrivalSeen>,
}

/// What has been said, what rings are posted, and what the shell is to be
/// asked for.
pub struct Herald {
    /// Rings and messages already considered, by conversation and message.
    announced: Vec<(Key, u64)>,
    /// Rings posted and not yet taken down, with where each was posted.
    ringing_out: Vec<((Key, u64), Target)>,
    /// What the shell is asked for, until taken.
    wants: Vec<Want>,
}

/// Posted rings as plain values.
pub open spec fn posted_v(s: Seq<((Key, u64), Target)>) -> Seq<((Key, u64), TargetV)> {
    s.map_values(|e: ((Key, u64), Target)| (e.0, target_v(e.1)))
}

/// The keys of posted rings.
pub open spec fn posted_keys(s: Seq<((Key, u64), TargetV)>) -> Seq<(Key, u64)> {
    s.map_values(|e: ((Key, u64), TargetV)| e.0)
}

impl Herald {
    /// What has been considered.
    pub closed spec fn announced(&self) -> Set<(Key, u64)> {
        self.announced@.to_set()
    }

    /// The rings posted and not taken down, in the order posted.
    pub closed spec fn posted(&self) -> Seq<((Key, u64), TargetV)> {
        posted_v(self.ringing_out@)
    }

    /// What the shell is to be asked for.
    pub closed spec fn wants(&self) -> Seq<Want> {
        self.wants@
    }

    /// Each ring is posted once, and only one that has been considered.
    pub closed spec fn wf(&self) -> bool {
        &&& posted_keys(posted_v(self.ringing_out@)).no_duplicates()
        &&& forall|i: int|
            0 <= i < self.ringing_out@.len() ==> self.announced@.contains(
                #[trigger] self.ringing_out@[i].0,
            )
    }

    /// Nothing said yet, nothing posted, nothing asked.
    pub fn new() -> (h: Herald)
        ensures
            h.wf(),
            h.announced() == Set::<(Key, u64)>::empty(),
            h.posted() == Seq::<((Key, u64), TargetV)>::empty(),
            h.wants() == Seq::<Want>::empty(),
    {
        let h = Herald { announced: Vec::new(), ringing_out: Vec::new(), wants: Vec::new() };
        assert(h.announced@.to_set() =~= Set::<(Key, u64)>::empty());
        assert(posted_v(h.ringing_out@) =~= Seq::<((Key, u64), TargetV)>::empty());
        h
    }

    /// What the shell was asked for since last taken.
    pub fn take_wants(&mut self) -> (w: Vec<Want>)
        requires
            old(self).wf(),
        ensures
            final(self).wf(),
            w@ == old(self).wants(),
            final(self).wants() == Seq::<Want>::empty(),
            final(self).announced() == old(self).announced(),
            final(self).posted() == old(self).posted(),
    {
        let mut w: Vec<Want> = Vec::new();
        std::mem::swap(&mut w, &mut self.wants);
        w
    }
}

/// What considering one mention does to what was said and asked, and to
/// the notices posted: a mention already considered does nothing; a new
/// one is considered, and unless its conversation is silenced it is said
/// when nobody is looking or it is not on screen, and asks for attention
/// once when nobody is looking.
pub open spec fn mention_step(
    st: (Set<(Key, u64)>, Seq<Want>, Seq<NoticeV>),
    f: MentionSeen,
    unfocused: bool,
    held: nat,
) -> (Set<(Key, u64)>, Seq<Want>, Seq<NoticeV>) {
    let m = f.mention;
    let k = (m.channel, m.seq);
    if st.0.contains(k) {
        st
    } else if f.silenced {
        (st.0.insert(k), st.1, st.2)
    } else {
        let ns = if unfocused || !m.in_open {
            st.2.push(
                (
                    mention_summary(m, f.me@, held),
                    mention_body(m, f.who@),
                    Some(lead_v(f.at, m.channel)),
                    Sound::Default,
                ),
            )
        } else {
            st.2
        };
        let ws = if unfocused {
            st.1.push(Want::Attention(Urgency::Informational))
        } else {
            st.1
        };
        (st.0.insert(k), ws, ns)
    }
}

/// Considering `found`, in order.
pub open spec fn mentions_fold(
    st: (Set<(Key, u64)>, Seq<Want>, Seq<NoticeV>),
    found: Seq<MentionSeen>,
    unfocused: bool,
    held: nat,
) -> (Set<(Key, u64)>, Seq<Want>, Seq<NoticeV>)
    decreases found.len(),
{
    if found.len() == 0 {
        st
    } else {
        mention_step(mentions_fold(st, found.drop_last(), unfocused, held), found.last(), unfocused, held)
    }
}

impl Herald {
    /// `k` considered: whether it had not been.
    fn consider(&mut self, k: (Key, u64)) -> (fresh: bool)
        requires
            old(self).wf(),
        ensures
            final(self).wf(),
            fresh == !old(self).announced().contains(k),
            final(self).announced() == old(self).announced().insert(k),
            final(self).posted() == old(self).posted(),
            final(self).wants() == old(self).wants(),
    {
        let mut i: usize = 0;
        while i < self.announced.len()
            invariant
                self.wf(),
                i <= self.announced@.len(),
                forall|j: int| 0 <= j < i ==> self.announced@[j] != k,
            decreases self.announced@.len() - i,
        {
            if same_key(&self.announced[i].0, &k.0) && self.announced[i].1 == k.1 {
                assert(self.announced@[i as int] == k);
                assert(self.announced@.to_set().insert(k) =~= self.announced@.to_set());
                return false;
            }
            i = i + 1;
        }
        let ghost before = self.announced@;
        let ghost a_after = before.push(k);
        assert forall|j: int| 0 <= j < self.ringing_out@.len() implies a_after.contains(
            #[trigger] self.ringing_out@[j].0,
        ) by {
            assert(before.contains(self.ringing_out@[j].0));
            let w = choose|w: int| 0 <= w < before.len() && before[w] == self.ringing_out@[j].0;
            assert(a_after[w] == before[w]);
        }
        self.announced.push(k);
        let ghost a = self.announced;
        assert(a@.to_set() =~= before.to_set().insert(k)) by {
            assert forall|x: (Key, u64)| #[trigger] a@.contains(x) == (before.contains(x) || x == k) by {
                if a@.contains(x) {
                    let j = choose|j: int| 0 <= j < a@.len() && a@[j] == x;
                    if j < before.len() {
                        assert(before[j] == x);
                    }
                }
                if before.contains(x) {
                    let j = choose|j: int| 0 <= j < before.len() && before[j] == x;
                    assert(a@[j] == x);
                }
                if x == k {
                    assert(a@[before.len() as int] == x);
                }
            }
        }
        true
    }

    /// Say out loud that somebody mentioned us, when we are not looking:
    /// each mention considered once, whether or not it is posted -- one
    /// read on screen as it arrived is not owed a notification later.
    /// `unfocused` is whether nobody is looking; `held`, how many
    /// identities this host holds.
    pub fn mentions(&mut self, found: &[MentionSeen], unfocused: bool, held: usize) -> (notices: Vec<Notice>)
        requires
            old(self).wf(),
        ensures
            final(self).wf(),
            (final(self).announced(), final(self).wants(), notices@.map_values(|n: Notice| notice_v(n)))
                == mentions_fold(
                (old(self).announced(), old(self).wants(), Seq::empty()),
                found@,
                unfocused,
                held as nat,
            ),
            final(self).posted() == old(self).posted(),
    {
        let ghost start = (self.announced(), self.wants(), Seq::<NoticeV>::empty());
        let mut notices: Vec<Notice> = Vec::new();
        let mut i: usize = 0;
        while i < found.len()
            invariant
                self.wf(),
                i <= found@.len(),
                self.posted() == old(self).posted(),
                start == (old(self).announced(), old(self).wants(), Seq::<NoticeV>::empty()),
                (self.announced(), self.wants(), notices@.map_values(|n: Notice| notice_v(n)))
                    == mentions_fold(start, found@.take(i as int), unfocused, held as nat),
            decreases found@.len() - i,
        {
            assert(found@.take(i + 1).drop_last() =~= found@.take(i as int));
            assert(found@.take(i + 1).last() == found@[i as int]);
            let f = &found[i];
            let m = &f.mention;
            let ghost before = notices@.map_values(|n: Notice| notice_v(n));
            if self.consider((m.channel, m.seq)) {
                if !f.silenced {
                    if unfocused || !m.in_open {
                        let (summary, body) = mention_said(m, f.me.as_str(), held, f.who.as_str());
                        let to = target(&f.at, m.channel);
                        notices.push(Notice { summary, body, target: Some(to), sound: Sound::Default });
                        assert(notices@.map_values(|n: Notice| notice_v(n)) =~= before.push(
                            notice_v(notices@.last()),
                        ));
                    }
                    if unfocused {
                        self.want(Want::Attention(Urgency::Informational));
                    }
                }
            }
            i = i + 1;
        }
        assert(found@.take(found@.len() as int) =~= found@);
        notices
    }

    /// One more thing the shell is asked for.
    fn want(&mut self, w: Want)
        requires
            old(self).wf(),
        ensures
            final(self).wf(),
            final(self).wants() == old(self).wants().push(w),
            final(self).announced() == old(self).announced(),
            final(self).posted() == old(self).posted(),
    {
        self.wants.push(w);
    }
}

/// A ring noted for saying: its words, where it leads, and whether it is
/// silenced.
pub type FreshRing = (Seq<char>, TargetV, bool);

/// What walking one ring found does: one of ours, or one already
/// considered, does nothing; any other is considered, posted, and noted
/// for saying.
pub open spec fn ring_step(
    st: (Set<(Key, u64)>, Seq<((Key, u64), TargetV)>, Seq<FreshRing>),
    r: RingSeen,
) -> (Set<(Key, u64)>, Seq<((Key, u64), TargetV)>, Seq<FreshRing>) {
    if r.mine || st.0.contains(r.key) {
        st
    } else {
        (
            st.0.insert(r.key),
            st.1.push((r.key, target_v(r.to))),
            st.2.push((r.said@, target_v(r.to), r.silenced)),
        )
    }
}

/// Walking `found`, in order.
pub open spec fn rings_walk(
    st: (Set<(Key, u64)>, Seq<((Key, u64), TargetV)>, Seq<FreshRing>),
    found: Seq<RingSeen>,
) -> (Set<(Key, u64)>, Seq<((Key, u64), TargetV)>, Seq<FreshRing>)
    decreases found.len(),
{
    if found.len() == 0 {
        st
    } else {
        ring_step(rings_walk(st, found.drop_last()), found.last())
    }
}

/// The notices for fresh rings: each one not silenced, with the ring's
/// sound, leading to where it rings.
pub open spec fn ring_notices(fresh: Seq<FreshRing>) -> Seq<NoticeV> {
    fresh.filter(|f: FreshRing| !f.2).map_values(
        |f: FreshRing| ("Incoming call"@, f.0, Some(f.1), Sound::Ring),
    )
}

/// What a ring being said asks of the shell: to come forward, and for
/// attention until answered.
pub open spec fn ring_wants(wants: Seq<Want>, notices: Seq<NoticeV>) -> Seq<Want> {
    if notices.len() > 0 {
        wants.push(Want::Present).push(Want::Attention(Urgency::Critical))
    } else {
        wants
    }
}

/// Whether a posted ring is still ringing somewhere.
pub open spec fn still_ringing(live: Seq<(Key, u64)>) -> spec_fn(((Key, u64), TargetV)) -> bool {
    |e: ((Key, u64), TargetV)| live.contains(e.0)
}

/// Whether a posted ring has stopped.
pub open spec fn stopped(live: Seq<(Key, u64)>) -> spec_fn(((Key, u64), TargetV)) -> bool {
    |e: ((Key, u64), TargetV)| !live.contains(e.0)
}

/// Whether `k` is among `live`.
fn is_live(live: &[(Key, u64)], k: &(Key, u64)) -> (r: bool)
    ensures
        r == live@.contains(*k),
{
    let mut i: usize = 0;
    while i < live.len()
        invariant
            i <= live@.len(),
            forall|j: int| 0 <= j < i ==> live@[j] != *k,
        decreases live@.len() - i,
    {
        if same_key(&live[i].0, &k.0) && live[i].1 == k.1 {
            return true;
        }
        i = i + 1;
    }
    false
}

/// The same target, again.
pub fn copy_target(t: &Target) -> (r: Target)
    ensures
        r == *t,
{
    Target { identity: t.identity, exchange: t.exchange.clone(), channel: t.channel, answer: t.answer }
}

impl Herald {
    /// Rings nobody has been told about are said, with the ring's sound,
    /// leading to where they ring -- unless their conversation is muted or
    /// do-not-disturb is on, when they ring on the screen and nowhere else
    /// -- and the window is asked to come forward and for attention. Then
    /// every posted ring that is no longer in `live`, the rings still
    /// ringing anywhere, is taken down: answered, declined, cancelled or
    /// missed all mean the same thing here. Gives what to post, and what
    /// to take down.
    pub fn rings(&mut self, found: &[RingSeen], live: &[(Key, u64)]) -> (r: (Vec<Notice>, Vec<Target>))
        requires
            old(self).wf(),
        ensures
            final(self).wf(),
            ({
                let w = rings_walk((old(self).announced(), old(self).posted(), Seq::empty()), found@);
                let said = ring_notices(w.2);
                &&& final(self).announced() == w.0
                &&& r.0@.map_values(|n: Notice| notice_v(n)) == said
                &&& final(self).wants() == ring_wants(old(self).wants(), said)
                &&& final(self).posted() == w.1.filter(still_ringing(live@))
                &&& r.1@.map_values(|t: Target| target_v(t)) == w.1.filter(stopped(live@)).map_values(
                    |e: ((Key, u64), TargetV)| e.1,
                )
            }),
    {
        let ghost start = (self.announced(), self.posted(), Seq::<FreshRing>::empty());
        let mut fresh: Vec<(String, Target, bool)> = Vec::new();
        let mut i: usize = 0;
        while i < found.len()
            invariant
                self.wf(),
                i <= found@.len(),
                self.wants() == old(self).wants(),
                start == (old(self).announced(), old(self).posted(), Seq::<FreshRing>::empty()),
                (self.announced(), self.posted(), fresh@.map_values(
                    |f: (String, Target, bool)| (f.0@, target_v(f.1), f.2),
                )) == rings_walk(start, found@.take(i as int)),
            decreases found@.len() - i,
        {
            assert(found@.take(i + 1).drop_last() =~= found@.take(i as int));
            assert(found@.take(i + 1).last() == found@[i as int]);
            let r = &found[i];
            let ghost fv = fresh@.map_values(|f: (String, Target, bool)| (f.0@, target_v(f.1), f.2));
            if !r.mine {
                let ghost posted_before = self.posted();
                if self.consider(r.key) {
                    self.post(r.key, copy_target(&r.to));
                    fresh.push((copy_str(r.said.as_str()), copy_target(&r.to), r.silenced));
                    assert(fresh@.map_values(|f: (String, Target, bool)| (f.0@, target_v(f.1), f.2))
                        =~= fv.push((r.said@, target_v(r.to), r.silenced)));
                }
            }
            i = i + 1;
        }
        assert(found@.take(found@.len() as int) =~= found@);
        let ghost fv = fresh@.map_values(|f: (String, Target, bool)| (f.0@, target_v(f.1), f.2));
        let mut notices: Vec<Notice> = Vec::new();
        let mut j: usize = 0;
        while j < fresh.len()
            invariant
                j <= fresh@.len(),
                fv == fresh@.map_values(|f: (String, Target, bool)| (f.0@, target_v(f.1), f.2)),
                notices@.map_values(|n: Notice| notice_v(n)) == ring_notices(fv.take(j as int)),
            decreases fresh@.len() - j,
        {
            proof {
                reveal_with_fuel(Seq::filter, 1);
                assert(fv.take(j + 1).drop_last() =~= fv.take(j as int));
            }
            let ghost before = notices@.map_values(|n: Notice| notice_v(n));
            let f = &fresh[j];
            if !f.2 {
                notices.push(
                    Notice {
                        summary: copy_str("Incoming call"),
                        body: copy_str(f.0.as_str()),
                        target: Some(copy_target(&f.1)),
                        sound: Sound::Ring,
                    },
                );
                assert(notices@.map_values(|n: Notice| notice_v(n)) =~= before.push(
                    notice_v(notices@.last()),
                ));
                assert(fv.take(j + 1).filter(|f: FreshRing| !f.2) =~= fv.take(j as int).filter(
                    |f: FreshRing| !f.2,
                ).push(fv[j as int]));
                assert(ring_notices(fv.take(j + 1)) =~= ring_notices(fv.take(j as int)).push(
                    ("Incoming call"@, fv[j as int].0, Some(fv[j as int].1), Sound::Ring),
                ));
            } else {
                assert(fv.take(j + 1).filter(|f: FreshRing| !f.2) =~= fv.take(j as int).filter(
                    |f: FreshRing| !f.2,
                ));
            }
            j = j + 1;
        }
        assert(fv.take(fresh@.len() as int) =~= fv);
        if notices.len() > 0 {
            self.want(Want::Present);
            self.want(Want::Attention(Urgency::Critical));
        }
        let gone = self.withdraw_gone(live);
        (notices, gone)
    }

    /// A ring posted at `key`, leading to `to`.
    fn post(&mut self, key: (Key, u64), to: Target)
        requires
            old(self).wf(),
            old(self).announced().contains(key),
            !posted_keys(old(self).posted()).contains(key),
        ensures
            final(self).wf(),
            final(self).posted() == old(self).posted().push((key, target_v(to))),
            final(self).announced() == old(self).announced(),
            final(self).wants() == old(self).wants(),
    {
        let ghost before = self.ringing_out@;
        self.ringing_out.push((key, to));
        assert(posted_v(self.ringing_out@) =~= posted_v(before).push((key, target_v(to))));
        assert(posted_keys(posted_v(self.ringing_out@)) =~= posted_keys(posted_v(before)).push(key));
        proof {
            let ks = posted_keys(posted_v(before));
            let ks2 = posted_keys(posted_v(self.ringing_out@));
            assert forall|a: int, b: int| 0 <= a < ks2.len() && 0 <= b < ks2.len() && a != b implies ks2[a] != ks2[b] by {
                if a == ks.len() {
                    assert(ks2[b] == ks[b]);
                    assert(ks.contains(ks[b]));
                } else if b == ks.len() {
                    assert(ks2[a] == ks[a]);
                    assert(ks.contains(ks[a]));
                } else {
                    assert(ks2[a] == ks[a]);
                    assert(ks2[b] == ks[b]);
                }
            }
            assert forall|q: int| 0 <= q < self.ringing_out@.len() implies self.announced@.contains(
                #[trigger] self.ringing_out@[q].0,
            ) by {
                if q < before.len() {
                    assert(self.ringing_out@[q] == before[q]);
                } else {
                    assert(self.announced@.to_set().contains(key));
                }
            }
        }
    }

    /// Every posted ring no longer in `live` taken down: what to take down,
    /// in the order posted.
    fn withdraw_gone(&mut self, live: &[(Key, u64)]) -> (gone: Vec<Target>)
        requires
            old(self).wf(),
        ensures
            final(self).wf(),
            final(self).posted() == old(self).posted().filter(still_ringing(live@)),
            gone@.map_values(|t: Target| target_v(t)) == old(self).posted().filter(stopped(live@)).map_values(
                |e: ((Key, u64), TargetV)| e.1,
            ),
            final(self).announced() == old(self).announced(),
            final(self).wants() == old(self).wants(),
    {
        let ghost p = self.posted();
        let mut kept: Vec<((Key, u64), Target)> = Vec::new();
        let mut gone: Vec<Target> = Vec::new();
        let mut i: usize = 0;
        while i < self.ringing_out.len()
            invariant
                self.wf(),
                p == self.posted(),
                i <= p.len(),
                posted_v(kept@) == p.take(i as int).filter(still_ringing(live@)),
                gone@.map_values(|t: Target| target_v(t)) == p.take(i as int).filter(stopped(live@)).map_values(
                    |e: ((Key, u64), TargetV)| e.1,
                ),
            decreases p.len() - i,
        {
            proof {
                reveal_with_fuel(Seq::filter, 1);
                assert(p.take(i + 1).drop_last() =~= p.take(i as int));
                assert(p.take(i + 1).last() == p[i as int]);
            }
            let e = &self.ringing_out[i];
            let ghost kv = posted_v(kept@);
            let ghost gv = gone@.map_values(|t: Target| target_v(t));
            if is_live(live, &e.0) {
                kept.push((e.0, copy_target(&e.1)));
                assert(posted_v(kept@) =~= kv.push(p[i as int]));
            } else {
                gone.push(copy_target(&e.1));
                assert(gone@.map_values(|t: Target| target_v(t)) =~= gv.push(p[i as int].1));
                assert(p.take(i + 1).filter(stopped(live@)).map_values(
                    |e: ((Key, u64), TargetV)| e.1,
                ) =~= p.take(i as int).filter(stopped(live@)).map_values(
                    |e: ((Key, u64), TargetV)| e.1,
                ).push(p[i as int].1));
            }
            i = i + 1;
        }
        assert(p.take(p.len() as int) =~= p);
        proof {
            lemma_filter_keeps(p, still_ringing(live@));
            assert(posted_keys(posted_v(kept@)).no_duplicates()) by {
                lemma_filter_no_dup(p, still_ringing(live@));
            }
            assert forall|q: int| 0 <= q < kept@.len() implies self.announced@.contains(
                #[trigger] kept@[q].0,
            ) by {
                let e = posted_v(kept@)[q];
                assert(p.contains(e));
                let w = choose|w: int| 0 <= w < p.len() && p[w] == e;
                assert(self.announced@.contains(self.ringing_out@[w].0));
            }
        }
        self.ringing_out = kept;
        gone
    }
}

/// What a filter keeps was there to begin with.
proof fn lemma_filter_keeps<A>(s: Seq<A>, f: spec_fn(A) -> bool)
    ensures
        forall|i: int| 0 <= i < s.filter(f).len() ==> s.contains(#[trigger] s.filter(f)[i]),
    decreases s.len(),
{
    reveal_with_fuel(Seq::filter, 1);
    if s.len() > 0 {
        let rest = s.drop_last();
        lemma_filter_keeps(rest, f);
        assert forall|i: int| 0 <= i < s.filter(f).len() implies s.contains(#[trigger] s.filter(f)[i]) by {
            if i < rest.filter(f).len() {
                assert(s.filter(f)[i] == rest.filter(f)[i]);
                let w = choose|w: int| 0 <= w < rest.len() && rest[w] == rest.filter(f)[i];
                assert(s[w] == rest[w]);
            } else {
                assert(s.filter(f)[i] == s.last());
                assert(s[s.len() - 1] == s.last());
            }
        }
    }
}

/// Filtering posted rings keeps their keys unrepeated.
proof fn lemma_filter_no_dup(s: Seq<((Key, u64), TargetV)>, f: spec_fn(((Key, u64), TargetV)) -> bool)
    requires
        posted_keys(s).no_duplicates(),
    ensures
        posted_keys(s.filter(f)).no_duplicates(),
    decreases s.len(),
{
    reveal_with_fuel(Seq::filter, 1);
    if s.len() > 0 {
        let rest = s.drop_last();
        assert(posted_keys(rest).no_duplicates()) by {
            assert forall|a: int, b: int| 0 <= a < rest.len() && 0 <= b < rest.len() && a != b implies posted_keys(rest)[a] != posted_keys(rest)[b] by {
                assert(posted_keys(rest)[a] == posted_keys(s)[a]);
                assert(posted_keys(rest)[b] == posted_keys(s)[b]);
            }
        }
        lemma_filter_no_dup(rest, f);
        if f(s.last()) {
            let fr = rest.filter(f);
            lemma_filter_keeps(rest, f);
            assert forall|a: int, b: int| 0 <= a < s.filter(f).len() && 0 <= b < s.filter(f).len() && a != b implies posted_keys(s.filter(f))[a] != posted_keys(s.filter(f))[b] by {
                if a == fr.len() || b == fr.len() {
                    let o = if a == fr.len() { b } else { a };
                    assert(rest.contains(fr[o]));
                    let w = choose|w: int| 0 <= w < rest.len() && rest[w] == fr[o];
                    assert(posted_keys(s)[w] == fr[o].0);
                    assert(posted_keys(s)[s.len() - 1] == s.last().0);
                } else {
                    assert(posted_keys(s.filter(f))[a] == posted_keys(fr)[a]);
                    assert(posted_keys(s.filter(f))[b] == posted_keys(fr)[b]);
                }
            }
        }
    }
}


/// Whether an arrival is in conversation `c`.
pub open spec fn on_channel(c: Key) -> spec_fn(Arrival) -> bool {
    |a: Arrival| a.channel == c
}

/// Whether an arrival is in a conversation other than `c`.
pub open spec fn off_channel(c: Key) -> spec_fn(Arrival) -> bool {
    |a: Arrival| a.channel != c
}

/// The conversation of `s` that comes first in the byte order of keys.
pub open spec fn first_channel(s: Seq<Arrival>) -> Key
    decreases s.len(),
{
    if s.len() <= 1 {
        s[0].channel
    } else {
        let m = first_channel(s.drop_last());
        if key_before(s.last().channel, m) {
            s.last().channel
        } else {
            m
        }
    }
}

/// The first conversation is one of them.
pub proof fn lemma_first_channel_in(s: Seq<Arrival>) -> (i: int)
    requires
        s.len() > 0,
    ensures
        0 <= i < s.len(),
        s[i].channel == first_channel(s),
    decreases s.len(),
{
    if s.len() == 1 {
        0
    } else {
        let j = lemma_first_channel_in(s.drop_last());
        if key_before(s.last().channel, first_channel(s.drop_last())) {
            s.len() - 1
        } else {
            j
        }
    }
}

/// Leaving out what `f` refuses of an element that is there shortens.
pub proof fn lemma_filter_shorter<A>(s: Seq<A>, f: spec_fn(A) -> bool, i: int)
    requires
        0 <= i < s.len(),
        !f(s[i]),
    ensures
        s.filter(f).len() < s.len(),
    decreases s.len(),
{
    reveal_with_fuel(Seq::filter, 1);
    s.drop_last().lemma_filter_len(f);
    if i < s.len() - 1 {
        lemma_filter_shorter(s.drop_last(), f, i);
    }
}

/// The messages of `s` grouped by conversation, the conversations in the
/// byte order of their keys, each group in the order its messages came.
pub open spec fn by_channel(s: Seq<Arrival>) -> Seq<Seq<Arrival>>
    decreases s.len(),
{
    if s.len() == 0 {
        Seq::empty()
    } else {
        let c = first_channel(s);
        proof {
            let i = lemma_first_channel_in(s);
            lemma_filter_shorter(s, off_channel(c), i);
        }
        seq![s.filter(on_channel(c))] + by_channel(s.filter(off_channel(c)))
    }
}

/// What walking one message found does: a mention, said with its own words
/// before this, or a message already considered, does nothing; any other
/// is considered, and kept for saying when nobody is looking and its
/// conversation is not silenced.
pub open spec fn arrival_step(
    st: (Set<(Key, u64)>, Seq<Arrival>),
    f: ArrivalSeen,
    unfocused: bool,
) -> (Set<(Key, u64)>, Seq<Arrival>) {
    let a = f.arrival;
    let k = (a.channel, a.seq);
    if a.mentions_me || st.0.contains(k) {
        st
    } else if unfocused && !f.silenced {
        (st.0.insert(k), st.1.push(a))
    } else {
        (st.0.insert(k), st.1)
    }
}

/// Walking `found`, in order.
pub open spec fn arrivals_walk(
    st: (Set<(Key, u64)>, Seq<Arrival>),
    found: Seq<ArrivalSeen>,
    unfocused: bool,
) -> (Set<(Key, u64)>, Seq<Arrival>)
    decreases found.len(),
{
    if found.len() == 0 {
        st
    } else {
        arrival_step(arrivals_walk(st, found.drop_last(), unfocused), found.last(), unfocused)
    }
}

/// The notification for messages that came together in one conversation of
/// the identity `at`, called `me` there.
pub open spec fn group_notice(at: At, me: Seq<char>, held: nat, g: Seq<Arrival>) -> NoticeV {
    (
        arrivals_summary(g, me, held),
        arrivals_body(g),
        Some(lead_v(at, g[0].channel)),
        Sound::Default,
    )
}

/// The notifications for the messages `kept` of one session: one per
/// conversation.
pub open spec fn session_notices(at: At, me: Seq<char>, held: nat, kept: Seq<Arrival>) -> Seq<NoticeV> {
    by_channel(kept).map_values(|g: Seq<Arrival>| group_notice(at, me, held, g))
}

/// Walking the sessions `found`, in order: what has been considered, and
/// the notifications so far.
pub open spec fn arrivals_fold(
    st: (Set<(Key, u64)>, Seq<NoticeV>),
    found: Seq<SessionArrivals>,
    unfocused: bool,
    held: nat,
) -> (Set<(Key, u64)>, Seq<NoticeV>)
    decreases found.len(),
{
    if found.len() == 0 {
        st
    } else {
        let p = arrivals_fold(st, found.drop_last(), unfocused, held);
        let s = found.last();
        let w = arrivals_walk((p.0, Seq::empty()), s.arrivals@, unfocused);
        (w.0, p.1 + session_notices(s.at, s.me@, held, w.1))
    }
}

/// The same message, again.
fn copy_arrival(a: &Arrival) -> (r: Arrival)
    ensures
        r == *a,
{
    Arrival {
        channel: a.channel,
        seq: a.seq,
        from: a.from,
        direct: a.direct,
        mentions_me: a.mentions_me,
        from_label: a.from_label.clone(),
        conversation: a.conversation.clone(),
        public: a.public,
        said: a.said.clone(),
        in_open: a.in_open,
    }
}

/// The conversation of `s` that comes first.
fn first_channel_of(s: &Vec<Arrival>) -> (c: Key)
    requires
        s@.len() > 0,
    ensures
        c == first_channel(s@),
{
    let mut m: Key = s[0].channel;
    let mut i: usize = 1;
    while i < s.len()
        invariant
            1 <= i <= s@.len(),
            m == first_channel(s@.take(i as int)),
        decreases s@.len() - i,
    {
        assert(s@.take(i + 1).drop_last() =~= s@.take(i as int));
        if key_less(&s[i].channel, &m) {
            m = s[i].channel;
        }
        i = i + 1;
    }
    assert(s@.take(s@.len() as int) =~= s@);
    m
}

/// `s` split into the messages in conversation `c` and the rest, each in
/// the order they came.
fn split_channel(s: &Vec<Arrival>, c: Key) -> (r: (Vec<Arrival>, Vec<Arrival>))
    ensures
        r.0@ == s@.filter(on_channel(c)),
        r.1@ == s@.filter(off_channel(c)),
{
    let mut on: Vec<Arrival> = Vec::new();
    let mut off: Vec<Arrival> = Vec::new();
    let mut i: usize = 0;
    while i < s.len()
        invariant
            i <= s@.len(),
            on@ == s@.take(i as int).filter(on_channel(c)),
            off@ == s@.take(i as int).filter(off_channel(c)),
        decreases s@.len() - i,
    {
        proof {
            reveal_with_fuel(Seq::filter, 1);
            assert(s@.take(i + 1).drop_last() =~= s@.take(i as int));
            assert(s@.take(i + 1).last() == s@[i as int]);
        }
        if same_key(&s[i].channel, &c) {
            on.push(copy_arrival(&s[i]));
        } else {
            off.push(copy_arrival(&s[i]));
        }
        i = i + 1;
    }
    assert(s@.take(s@.len() as int) =~= s@);
    (on, off)
}

/// The notifications for the messages `kept` of the identity `at`, called
/// `me` there: one per conversation, in the byte order of their keys.
fn say_grouped(at: &At, me: &str, held: usize, kept: Vec<Arrival>, out: &mut Vec<Notice>)
    ensures
        final(out)@.map_values(|n: Notice| notice_v(n)) == old(out)@.map_values(|n: Notice| notice_v(n))
            + session_notices(*at, me@, held as nat, kept@),
{
    let ghost start = old(out)@.map_values(|n: Notice| notice_v(n));
    let ghost whole = kept@;
    let mut rest = kept;
    while rest.len() > 0
        invariant
            start + session_notices(*at, me@, held as nat, whole) == out@.map_values(
                |n: Notice| notice_v(n),
            ) + session_notices(*at, me@, held as nat, rest@),
        decreases rest@.len(),
    {
        let c = first_channel_of(&rest);
        let ghost r = rest@;
        let (group, others) = split_channel(&rest, c);
        proof {
            let w = lemma_first_channel_in(r);
            lemma_filter_shorter(r, off_channel(c), w);
            r.lemma_filter_contains(on_channel(c), w);
            r.lemma_filter_pred(on_channel(c), 0);
            assert(by_channel(r) == seq![group@] + by_channel(others@));
            assert(session_notices(*at, me@, held as nat, r) =~= seq![
                group_notice(*at, me@, held as nat, group@),
            ] + session_notices(*at, me@, held as nat, others@));
        }
        let ghost before = out@.map_values(|n: Notice| notice_v(n));
        let (summary, body) = arrivals_said(group.as_slice(), me, held);
        let to = target(at, c);
        out.push(Notice { summary, body, target: Some(to), sound: Sound::Default });
        assert(out@.map_values(|n: Notice| notice_v(n)) =~= before.push(
            group_notice(*at, me@, held as nat, group@),
        ));
        rest = others;
    }
    assert(session_notices(*at, me@, held as nat, rest@) =~= Seq::<NoticeV>::empty());
}

impl Herald {
    /// The messages of one session walked: each considered once, and those
    /// to say kept.
    fn fresh_arrivals(&mut self, found: &[ArrivalSeen], unfocused: bool) -> (kept: Vec<Arrival>)
        requires
            old(self).wf(),
        ensures
            final(self).wf(),
            (final(self).announced(), kept@) == arrivals_walk(
                (old(self).announced(), Seq::empty()),
                found@,
                unfocused,
            ),
            final(self).posted() == old(self).posted(),
            final(self).wants() == old(self).wants(),
    {
        let ghost start = (self.announced(), Seq::<Arrival>::empty());
        let mut kept: Vec<Arrival> = Vec::new();
        let mut i: usize = 0;
        while i < found.len()
            invariant
                self.wf(),
                i <= found@.len(),
                self.posted() == old(self).posted(),
                self.wants() == old(self).wants(),
                start == (old(self).announced(), Seq::<Arrival>::empty()),
                (self.announced(), kept@) == arrivals_walk(start, found@.take(i as int), unfocused),
            decreases found@.len() - i,
        {
            assert(found@.take(i + 1).drop_last() =~= found@.take(i as int));
            assert(found@.take(i + 1).last() == found@[i as int]);
            let f = &found[i];
            let a = &f.arrival;
            if !a.mentions_me {
                if self.consider((a.channel, a.seq)) {
                    if unfocused && !f.silenced {
                        kept.push(copy_arrival(a));
                    }
                }
            }
            i = i + 1;
        }
        assert(found@.take(found@.len() as int) =~= found@);
        kept
    }

    /// Say out loud that messages arrived, when nobody is looking: after
    /// the mentions, which have their own words and are not said twice.
    /// Each message is considered once, whether or not it is said -- one
    /// read on screen as it arrived is not owed a notification later.
    /// Several arriving together in one conversation are one notification.
    pub fn arrivals(&mut self, found: &[SessionArrivals], unfocused: bool, held: usize) -> (notices: Vec<Notice>)
        requires
            old(self).wf(),
        ensures
            final(self).wf(),
            (final(self).announced(), notices@.map_values(|n: Notice| notice_v(n))) == arrivals_fold(
                (old(self).announced(), Seq::empty()),
                found@,
                unfocused,
                held as nat,
            ),
            final(self).posted() == old(self).posted(),
            final(self).wants() == old(self).wants(),
    {
        let ghost start = (self.announced(), Seq::<NoticeV>::empty());
        let mut notices: Vec<Notice> = Vec::new();
        let mut i: usize = 0;
        while i < found.len()
            invariant
                self.wf(),
                i <= found@.len(),
                self.posted() == old(self).posted(),
                self.wants() == old(self).wants(),
                start == (old(self).announced(), Seq::<NoticeV>::empty()),
                (self.announced(), notices@.map_values(|n: Notice| notice_v(n))) == arrivals_fold(
                    start,
                    found@.take(i as int),
                    unfocused,
                    held as nat,
                ),
            decreases found@.len() - i,
        {
            assert(found@.take(i + 1).drop_last() =~= found@.take(i as int));
            assert(found@.take(i + 1).last() == found@[i as int]);
            let s = &found[i];
            let kept = self.fresh_arrivals(s.arrivals.as_slice(), unfocused);
            say_grouped(&s.at, s.me.as_str(), held, kept, &mut notices);
            i = i + 1;
        }
        assert(found@.take(found@.len() as int) =~= found@);
        notices
    }
}

/// The key a mention is considered under.
pub open spec fn mention_key(f: MentionSeen) -> (Key, u64) {
    (f.mention.channel, f.mention.seq)
}

/// The key a message is considered under.
pub open spec fn arrival_key(f: ArrivalSeen) -> (Key, u64) {
    (f.arrival.channel, f.arrival.seq)
}

/// Considering mentions only adds to what has been considered, and
/// considers every one of them.
pub proof fn lemma_mentions_considered(
    st: (Set<(Key, u64)>, Seq<Want>, Seq<NoticeV>),
    found: Seq<MentionSeen>,
    unfocused: bool,
    held: nat,
)
    ensures
        st.0.subset_of(mentions_fold(st, found, unfocused, held).0),
        forall|i: int|
            0 <= i < found.len() ==> mentions_fold(st, found, unfocused, held).0.contains(
                #[trigger] mention_key(found[i]),
            ),
    decreases found.len(),
{
    if found.len() > 0 {
        lemma_mentions_considered(st, found.drop_last(), unfocused, held);
        assert forall|i: int| 0 <= i < found.len() implies mentions_fold(
            st,
            found,
            unfocused,
            held,
        ).0.contains(#[trigger] mention_key(found[i])) by {
            if i < found.len() - 1 {
                assert(found.drop_last()[i] == found[i]);
            }
        }
    }
}

/// Mentions that have all been considered change nothing and say nothing.
pub proof fn lemma_mentions_already(
    st: (Set<(Key, u64)>, Seq<Want>, Seq<NoticeV>),
    found: Seq<MentionSeen>,
    unfocused: bool,
    held: nat,
)
    requires
        forall|i: int| 0 <= i < found.len() ==> st.0.contains(#[trigger] mention_key(found[i])),
    ensures
        mentions_fold(st, found, unfocused, held) == st,
    decreases found.len(),
{
    if found.len() > 0 {
        assert forall|i: int| 0 <= i < found.drop_last().len() implies st.0.contains(
            #[trigger] mention_key(found.drop_last()[i]),
        ) by {
            assert(found.drop_last()[i] == found[i]);
        }
        lemma_mentions_already(st, found.drop_last(), unfocused, held);
        assert(st.0.contains(mention_key(found[found.len() - 1])));
    }
}

/// **A mention is told once.** Whatever a pass over the mentions said, a
/// second pass over the same mentions says nothing more and asks for
/// nothing more -- also of one that the first pass left unsaid because it
/// was read on screen or its conversation was muted.
pub proof fn law_mention_told_once(
    announced: Set<(Key, u64)>,
    wants: Seq<Want>,
    found: Seq<MentionSeen>,
    unfocused: bool,
    again_unfocused: bool,
    held: nat,
)
    ensures
        ({
            let first = mentions_fold((announced, wants, Seq::empty()), found, unfocused, held);
            mentions_fold((first.0, first.1, Seq::empty()), found, again_unfocused, held) == (
                first.0,
                first.1,
                Seq::<NoticeV>::empty(),
            )
        }),
{
    let first = mentions_fold((announced, wants, Seq::empty()), found, unfocused, held);
    lemma_mentions_considered((announced, wants, Seq::empty()), found, unfocused, held);
    lemma_mentions_already((first.0, first.1, Seq::empty()), found, again_unfocused, held);
}

/// Whether the mention at `i` of `found` is new to a pass: considered
/// neither before it (`announced`) nor earlier in it.
pub open spec fn fresh_mention(announced: Set<(Key, u64)>, found: Seq<MentionSeen>, i: int) -> bool {
    &&& !announced.contains(mention_key(found[i]))
    &&& forall|j: int| 0 <= j < i ==> mention_key(#[trigger] found[j]) != mention_key(found[i])
}

/// The notice a mention is said with.
pub open spec fn mention_notice(f: MentionSeen, held: nat) -> NoticeV {
    (
        mention_summary(f.mention, f.me@, held),
        mention_body(f.mention, f.who@),
        Some(lead_v(f.at, f.mention.channel)),
        Sound::Default,
    )
}

/// What a pass over `found` says, in order: each mention new to it and not
/// silenced, when nobody is looking or it is not on screen.
pub open spec fn told_of(
    announced: Set<(Key, u64)>,
    found: Seq<MentionSeen>,
    unfocused: bool,
    held: nat,
) -> Seq<NoticeV>
    decreases found.len(),
{
    if found.len() == 0 {
        Seq::empty()
    } else {
        let i = found.len() - 1;
        let rest = told_of(announced, found.drop_last(), unfocused, held);
        if fresh_mention(announced, found, i) && !found[i].silenced && (unfocused
            || !found[i].mention.in_open) {
            rest.push(mention_notice(found[i], held))
        } else {
            rest
        }
    }
}

/// What a pass over `found` asks the shell for, in order: attention, once
/// for each mention new to it and not silenced, when nobody is looking.
pub open spec fn attention_of(
    announced: Set<(Key, u64)>,
    found: Seq<MentionSeen>,
    unfocused: bool,
) -> Seq<Want>
    decreases found.len(),
{
    if found.len() == 0 {
        Seq::empty()
    } else {
        let i = found.len() - 1;
        let rest = attention_of(announced, found.drop_last(), unfocused);
        if fresh_mention(announced, found, i) && !found[i].silenced && unfocused {
            rest.push(Want::Attention(Urgency::Informational))
        } else {
            rest
        }
    }
}

/// **Each mention, in order, once.** A pass of [`Herald::mentions`] over
/// `found` -- whose contract is [`mentions_fold`] -- considers every one of
/// them; one that was considered neither before the pass nor
/// earlier in it, and whose conversation is not silenced, is said -- once
/// -- exactly when nobody is looking or it is not on screen, and asks for
/// attention exactly when nobody is looking; nothing else is said or asked.
pub proof fn law_each_mention_once(
    announced: Set<(Key, u64)>,
    wants: Seq<Want>,
    found: Seq<MentionSeen>,
    unfocused: bool,
    held: nat,
)
    ensures
        mentions_fold((announced, wants, Seq::empty()), found, unfocused, held) == (
            announced.union(found.map_values(|f: MentionSeen| mention_key(f)).to_set()),
            wants + attention_of(announced, found, unfocused),
            told_of(announced, found, unfocused, held),
        ),
    decreases found.len(),
{
    let keys = found.map_values(|f: MentionSeen| mention_key(f));
    if found.len() == 0 {
        assert(keys.to_set() =~= Set::<(Key, u64)>::empty());
        assert(announced.union(keys.to_set()) =~= announced);
        assert(wants + Seq::<Want>::empty() =~= wants);
    } else {
        let i = found.len() - 1;
        let d = found.drop_last();
        law_each_mention_once(announced, wants, d, unfocused, held);
        let dk = d.map_values(|f: MentionSeen| mention_key(f));
        assert(keys =~= dk.push(mention_key(found[i])));
        assert(keys.to_set() =~= dk.to_set().insert(mention_key(found[i]))) by {
            assert forall|k: (Key, u64)| keys.to_set().contains(k) <==> dk.to_set().insert(
                mention_key(found[i]),
            ).contains(k) by {
                if keys.to_set().contains(k) {
                    let j = choose|j: int| 0 <= j < keys.len() && keys[j] == k;
                    if j < i {
                        assert(dk[j] == k);
                    }
                }
                if dk.to_set().contains(k) {
                    let j = choose|j: int| 0 <= j < dk.len() && dk[j] == k;
                    assert(keys[j] == k);
                }
                if k == mention_key(found[i]) {
                    assert(keys[i] == k);
                }
            }
        }
        let st = mentions_fold((announced, wants, Seq::empty()), d, unfocused, held);
        let k = mention_key(found[i]);
        assert(st.0.contains(k) <==> !fresh_mention(announced, found, i)) by {
            if st.0.contains(k) && !announced.contains(k) {
                assert(dk.to_set().contains(k));
                let j = choose|j: int| 0 <= j < dk.len() && dk[j] == k;
                assert(found[j] == d[j]);
                assert(mention_key(found[j]) == k);
            }
            if !fresh_mention(announced, found, i) && !announced.contains(k) {
                let j = choose|j: int| 0 <= j < i && mention_key(#[trigger] found[j]) == k;
                assert(dk[j] == k);
                assert(dk.to_set().contains(k));
            }
        }
        assert(found.last() == found[i]);
        assert(announced.union(dk.to_set()).insert(k) =~= announced.union(keys.to_set()));
        if st.0.contains(k) {
            assert(st.0.insert(k) =~= st.0);
        }
        assert((wants + attention_of(announced, d, unfocused)).push(
            Want::Attention(Urgency::Informational),
        ) =~= wants + attention_of(announced, d, unfocused).push(
            Want::Attention(Urgency::Informational),
        ));
    }
}

/// Walking rings only adds to what has been considered, and considers
/// every one not ours.
pub proof fn lemma_rings_considered(
    st: (Set<(Key, u64)>, Seq<((Key, u64), TargetV)>, Seq<FreshRing>),
    found: Seq<RingSeen>,
)
    ensures
        st.0.subset_of(rings_walk(st, found).0),
        forall|i: int|
            0 <= i < found.len() && !found[i].mine ==> rings_walk(st, found).0.contains(
                #[trigger] found[i].key,
            ),
    decreases found.len(),
{
    if found.len() > 0 {
        lemma_rings_considered(st, found.drop_last());
        assert forall|i: int| 0 <= i < found.len() && !found[i].mine implies rings_walk(
            st,
            found,
        ).0.contains(#[trigger] found[i].key) by {
            if i < found.len() - 1 {
                assert(found.drop_last()[i] == found[i]);
            }
        }
    }
}

/// Rings that have all been considered change nothing and note nothing.
pub proof fn lemma_rings_already(
    st: (Set<(Key, u64)>, Seq<((Key, u64), TargetV)>, Seq<FreshRing>),
    found: Seq<RingSeen>,
)
    requires
        forall|i: int| 0 <= i < found.len() && !found[i].mine ==> st.0.contains(#[trigger] found[i].key),
    ensures
        rings_walk(st, found) == st,
    decreases found.len(),
{
    if found.len() > 0 {
        assert forall|i: int| 0 <= i < found.drop_last().len() && !found.drop_last()[i].mine implies st.0.contains(
            #[trigger] found.drop_last()[i].key,
        ) by {
            assert(found.drop_last()[i] == found[i]);
        }
        lemma_rings_already(st, found.drop_last());
        assert(found.last() == found[found.len() - 1]);
    }
}

/// **A ring is said once.** After a walk over the rings, a second walk over
/// the same rings considers nothing new, posts nothing new and notes
/// nothing to say -- also of a ring the first walk did not say out loud
/// because its conversation was muted.
pub proof fn law_ring_said_once(
    announced: Set<(Key, u64)>,
    posted: Seq<((Key, u64), TargetV)>,
    found: Seq<RingSeen>,
    live: Seq<(Key, u64)>,
)
    ensures
        ({
            let first = rings_walk((announced, posted, Seq::empty()), found);
            let kept = first.1.filter(still_ringing(live));
            rings_walk((first.0, kept, Seq::empty()), found) == (first.0, kept, Seq::<FreshRing>::empty())
        }),
{
    let first = rings_walk((announced, posted, Seq::empty()), found);
    let kept = first.1.filter(still_ringing(live));
    lemma_rings_considered((announced, posted, Seq::empty()), found);
    lemma_rings_already((first.0, kept, Seq::empty()), found);
}

/// **A ring that stopped is taken down, once.** What stays posted after a
/// pass is still ringing somewhere, what is taken down has stopped, and a
/// second pass with the same rings ringing takes nothing down.
pub proof fn law_stopped_rings_withdrawn(posted: Seq<((Key, u64), TargetV)>, live: Seq<(Key, u64)>)
    ensures
        posted.filter(still_ringing(live)).filter(stopped(live)).len() == 0,
        forall|i: int|
            0 <= i < posted.filter(still_ringing(live)).len() ==> live.contains(
                (#[trigger] posted.filter(still_ringing(live))[i]).0,
            ),
        forall|i: int|
            0 <= i < posted.filter(stopped(live)).len() ==> !live.contains(
                (#[trigger] posted.filter(stopped(live))[i]).0,
            ),
{
    assert forall|i: int| 0 <= i < posted.filter(still_ringing(live)).len() implies live.contains(
        (#[trigger] posted.filter(still_ringing(live))[i]).0,
    ) by {
        posted.lemma_filter_pred(still_ringing(live), i);
    }
    assert forall|i: int| 0 <= i < posted.filter(stopped(live)).len() implies !live.contains(
        (#[trigger] posted.filter(stopped(live))[i]).0,
    ) by {
        posted.lemma_filter_pred(stopped(live), i);
    }
    let kept = posted.filter(still_ringing(live));
    assert forall|i: int| 0 <= i < kept.len() implies !stopped(live)(#[trigger] kept[i]) by {
        posted.lemma_filter_pred(still_ringing(live), i);
    }
    kept.lemma_all_neg_filter_empty(stopped(live));
}

/// Walking messages only adds to what has been considered, and considers
/// every one that does not mention us.
pub proof fn lemma_arrivals_considered(
    st: (Set<(Key, u64)>, Seq<Arrival>),
    found: Seq<ArrivalSeen>,
    unfocused: bool,
)
    ensures
        st.0.subset_of(arrivals_walk(st, found, unfocused).0),
        forall|i: int|
            0 <= i < found.len() && !found[i].arrival.mentions_me ==> arrivals_walk(
                st,
                found,
                unfocused,
            ).0.contains(#[trigger] arrival_key(found[i])),
    decreases found.len(),
{
    if found.len() > 0 {
        lemma_arrivals_considered(st, found.drop_last(), unfocused);
        assert forall|i: int| 0 <= i < found.len() && !found[i].arrival.mentions_me implies arrivals_walk(
            st,
            found,
            unfocused,
        ).0.contains(#[trigger] arrival_key(found[i])) by {
            if i < found.len() - 1 {
                assert(found.drop_last()[i] == found[i]);
            }
        }
    }
}

/// Messages that have all been considered change nothing and keep nothing.
pub proof fn lemma_arrivals_already(
    st: (Set<(Key, u64)>, Seq<Arrival>),
    found: Seq<ArrivalSeen>,
    unfocused: bool,
)
    requires
        forall|i: int|
            0 <= i < found.len() && !found[i].arrival.mentions_me ==> st.0.contains(
                #[trigger] arrival_key(found[i]),
            ),
    ensures
        arrivals_walk(st, found, unfocused) == st,
    decreases found.len(),
{
    if found.len() > 0 {
        assert forall|i: int|
            0 <= i < found.drop_last().len() && !found.drop_last()[i].arrival.mentions_me implies st.0.contains(
            #[trigger] arrival_key(found.drop_last()[i]),
        ) by {
            assert(found.drop_last()[i] == found[i]);
        }
        lemma_arrivals_already(st, found.drop_last(), unfocused);
        assert(found.last() == found[found.len() - 1]);
        assert(!found.last().arrival.mentions_me ==> st.0.contains(arrival_key(found[found.len() - 1])));
    }
}

/// Walking sessions only adds to what has been considered, and considers
/// every message in them that does not mention us.
pub proof fn lemma_sessions_considered(
    st: (Set<(Key, u64)>, Seq<NoticeV>),
    found: Seq<SessionArrivals>,
    unfocused: bool,
    held: nat,
)
    ensures
        st.0.subset_of(arrivals_fold(st, found, unfocused, held).0),
        forall|i: int, j: int|
            0 <= i < found.len() && 0 <= j < found[i].arrivals@.len()
                && !found[i].arrivals@[j].arrival.mentions_me ==> arrivals_fold(
                st,
                found,
                unfocused,
                held,
            ).0.contains(#[trigger] arrival_key(found[i].arrivals@[j])),
    decreases found.len(),
{
    if found.len() > 0 {
        let p = arrivals_fold(st, found.drop_last(), unfocused, held);
        lemma_sessions_considered(st, found.drop_last(), unfocused, held);
        lemma_arrivals_considered((p.0, Seq::empty()), found.last().arrivals@, unfocused);
        assert forall|i: int, j: int|
            0 <= i < found.len() && 0 <= j < found[i].arrivals@.len()
                && !found[i].arrivals@[j].arrival.mentions_me implies arrivals_fold(
            st,
            found,
            unfocused,
            held,
        ).0.contains(#[trigger] arrival_key(found[i].arrivals@[j])) by {
            if i < found.len() - 1 {
                assert(found.drop_last()[i] == found[i]);
            }
        }
    }
}

/// Sessions whose messages have all been considered change nothing and say
/// nothing.
pub proof fn lemma_sessions_already(
    st: (Set<(Key, u64)>, Seq<NoticeV>),
    found: Seq<SessionArrivals>,
    unfocused: bool,
    held: nat,
)
    requires
        forall|i: int, j: int|
            0 <= i < found.len() && 0 <= j < found[i].arrivals@.len()
                && !found[i].arrivals@[j].arrival.mentions_me ==> st.0.contains(
                #[trigger] arrival_key(found[i].arrivals@[j]),
            ),
    ensures
        arrivals_fold(st, found, unfocused, held) == st,
    decreases found.len(),
{
    if found.len() > 0 {
        assert forall|i: int, j: int|
            0 <= i < found.drop_last().len() && 0 <= j < found.drop_last()[i].arrivals@.len()
                && !found.drop_last()[i].arrivals@[j].arrival.mentions_me implies st.0.contains(
            #[trigger] arrival_key(found.drop_last()[i].arrivals@[j]),
        ) by {
            assert(found.drop_last()[i] == found[i]);
        }
        lemma_sessions_already(st, found.drop_last(), unfocused, held);
        let s = found.last();
        assert forall|j: int| 0 <= j < s.arrivals@.len() && !s.arrivals@[j].arrival.mentions_me implies st.0.contains(
            #[trigger] arrival_key(s.arrivals@[j]),
        ) by {
            assert(s == found[found.len() - 1]);
        }
        lemma_arrivals_already((st.0, Seq::empty()), s.arrivals@, unfocused);
        assert(by_channel(Seq::<Arrival>::empty()) =~= Seq::<Seq<Arrival>>::empty());
        assert(session_notices(s.at, s.me@, held, Seq::empty()) =~= Seq::<NoticeV>::empty());
        assert(st.1 + Seq::<NoticeV>::empty() =~= st.1);
    }
}

/// **A message is told once.** Whatever a pass over what arrived said, a
/// second pass over the same sessions says nothing more -- also of a
/// message the first pass left unsaid because somebody was looking or its
/// conversation was muted.
pub proof fn law_arrival_told_once(
    announced: Set<(Key, u64)>,
    found: Seq<SessionArrivals>,
    unfocused: bool,
    again_unfocused: bool,
    held: nat,
)
    ensures
        ({
            let first = arrivals_fold((announced, Seq::empty()), found, unfocused, held);
            arrivals_fold((first.0, Seq::empty()), found, again_unfocused, held) == (
                first.0,
                Seq::<NoticeV>::empty(),
            )
        }),
{
    let first = arrivals_fold((announced, Seq::empty()), found, unfocused, held);
    lemma_sessions_considered((announced, Seq::empty()), found, unfocused, held);
    lemma_sessions_already((first.0, Seq::empty()), found, again_unfocused, held);
}

} // verus!

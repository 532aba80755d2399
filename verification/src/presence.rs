//! Whether the people you talk to are there: their beacons, read.
//!
//! An identity beats; the exchange remembers when it last did and the
//! interval it promised; anyone asks. Whether that means *there* is the
//! reader's judgement, and the beacon rule says how to make it: three declared
//! intervals missed is absent, one is not. The beat also says whether
//! anybody is at the keyboard (the *away* bit), which nothing about timing
//! could.

use vstd::prelude::*;

use crate::key::{Key, has_key, same_key};

verus! {

/// How often this client beats. Short enough that a peer sees us go
/// within a minute and a half -- three of these -- and long enough not to
/// be a heartbeat on every tick.
pub const BEAT_SECS: u32 = 30;

/// How often each person is asked about. The same as the beat, since an
/// answer cannot change faster than the beats that feed it.
pub const READ_SECS: u64 = 30;

/// How many people are asked about at most.
pub const MOST_READ: usize = 64;

/// How many are asked about on one tick, so the reads are spread over the
/// interval rather than fired together.
pub const READS_PER_TICK: usize = 4;

/// Missed beats before absence: a small multiple of the interval, and
/// three is a reasonable one.
pub const MISSED_BEATS: u64 = 3;

/// Whether somebody is there.
#[derive(Debug, Clone, Copy, PartialEq, Eq, Structural)]
pub enum Seen {
    /// Beating, and at the keyboard.
    Active,
    /// Beating, and not.
    Away,
    /// Not beating for long enough to say, or never.
    Offline,
}

impl Default for Seen {
    fn default() -> (r: Seen)
        ensures
            r == Seen::Offline,
    {
        Seen::Offline
    }
}

/// What is known of one person.
#[derive(Debug, Clone, Copy, PartialEq, Eq, Structural)]
pub struct Presence {
    pub seen: Seen,
    /// When the exchange last saw them, on its clock; nought is never.
    pub last_seen: u64,
    /// The exchange's clock when this was read, so `last_seen` can be
    /// said in words against the right clock.
    pub read_at: u64,
}

impl Default for Presence {
    fn default() -> (r: Presence)
        ensures
            r == (Presence { seen: Seen::Offline, last_seen: 0, read_at: 0 }),
    {
        Presence { seen: Seen::Offline, last_seen: 0, read_at: 0 }
    }
}

/// An exchange's answer about one identity's beacon.
#[derive(Debug, Clone, Copy, PartialEq, Eq, Structural)]
pub struct Reply {
    /// Whether the exchange has a beacon for them at all.
    pub found: bool,
    /// When it last beat, on the exchange's clock.
    pub last_seen: u64,
    /// The interval it promised, in seconds.
    pub interval_secs: u32,
    /// The exchange's clock when it answered.
    pub now: u64,
    /// The away bit of the last beat.
    pub away: bool,
}

impl Reply {
    /// How long ago the last beat was, on the exchange's clock.
    pub open spec fn staleness_of(self) -> nat {
        if self.now >= self.last_seen {
            (self.now - self.last_seen) as nat
        } else {
            0
        }
    }

    /// The answer for an identity the exchange has no beacon for.
    pub fn not_found(now: u64) -> (r: Reply)
        ensures
            r == (Reply { found: false, last_seen: 0, interval_secs: 0, now, away: false }),
    {
        Reply { found: false, last_seen: 0, interval_secs: 0, now, away: false }
    }

    /// How long ago the last beat was; nought for a beat the exchange's
    /// clock puts in the future.
    pub fn staleness(&self) -> (r: u64)
        ensures
            r == self.staleness_of(),
    {
        self.now.saturating_sub(self.last_seen)
    }
}

/// What the beacon rule says an answer means.
pub open spec fn seen_of(reply: Reply) -> Seen {
    if !reply.found {
        Seen::Offline
    } else if reply.staleness_of() > reply.interval_secs * MISSED_BEATS {
        Seen::Offline
    } else if reply.away {
        Seen::Away
    } else {
        Seen::Active
    }
}

impl Presence {
    /// What an exchange's answer means, by the beacon rule: not found, or
    /// more than three declared intervals since the last beat, is offline;
    /// otherwise away or active by the away bit. When they were last seen,
    /// and when this was read, are kept as the exchange gave them.
    pub fn of(reply: &Reply) -> (p: Presence)
        ensures
            p.seen == seen_of(*reply),
            p.last_seen == reply.last_seen,
            p.read_at == reply.now,
    {
        let seen = if !reply.found {
            Seen::Offline
        } else {
            let allowed = reply.interval_secs as u64 * MISSED_BEATS;
            if reply.staleness() > allowed {
                Seen::Offline
            } else if reply.away {
                Seen::Away
            } else {
                Seen::Active
            }
        };
        Presence { seen, last_seen: reply.last_seen, read_at: reply.now }
    }
}

/// Who to ask about among `s`, in order: each once, never `me`, and no
/// more than [`MOST_READ`].
pub open spec fn wanted_of(me: Option<Key>, s: Seq<Key>) -> Seq<Key>
    decreases s.len(),
{
    if s.len() == 0 {
        Seq::empty()
    } else {
        let prev = wanted_of(me, s.drop_last());
        let k = s.last();
        if prev.len() >= MOST_READ || me == Some(k) || prev.contains(k) {
            prev
        } else {
            prev.push(k)
        }
    }
}

/// Who to ask about: the other party of every direct message, and every
/// member of the open conversation, but never ourselves -- and no more
/// than [`MOST_READ`], the open conversation's people first, since those
/// are the ones on screen.
pub fn wanted(me: Option<Key>, dm_peers: &[Key], open_members: &[Key]) -> (r: Vec<Key>)
    ensures
        r@ == wanted_of(me, open_members@ + dm_peers@),
{
    let ghost all = open_members@ + dm_peers@;
    let mut out: Vec<Key> = Vec::new();
    let mut i: usize = 0;
    while i < open_members.len()
        invariant
            all == open_members@ + dm_peers@,
            i <= open_members@.len(),
            out@ == wanted_of(me, all.take(i as int)),
        decreases open_members@.len() - i,
    {
        let k = open_members[i];
        assert(k == all[i as int]);
        assert(all.take(i + 1).drop_last() =~= all.take(i as int));
        consider(me, &mut out, &k);
        i = i + 1;
    }
    let mut j: usize = 0;
    while j < dm_peers.len()
        invariant
            all == open_members@ + dm_peers@,
            j <= dm_peers@.len(),
            out@ == wanted_of(me, all.take(open_members@.len() + j)),
        decreases dm_peers@.len() - j,
    {
        let k = dm_peers[j];
        assert(k == all[open_members@.len() + j]);
        assert(all.take(open_members@.len() + j + 1).drop_last() =~= all.take(
            open_members@.len() + j,
        ));
        consider(me, &mut out, &k);
        j = j + 1;
    }
    assert(all.take(all.len() as int) =~= all);
    out
}

/// One more person considered for asking about.
fn consider(me: Option<Key>, out: &mut Vec<Key>, k: &Key)
    ensures
        final(out)@ == (if old(out)@.len() >= MOST_READ || me == Some(*k) || old(out)@.contains(
            *k,
        ) {
            old(out)@
        } else {
            old(out)@.push(*k)
        }),
{
    let mine = match me {
        Some(m) => same_key(&m, k),
        None => false,
    };
    if !(out.len() >= MOST_READ || mine || has_key(out, k)) {
        out.push(*k);
    }
}

/// When `k` was last asked about, by the first record of it in `asked`.
pub open spec fn asked_of(asked: Seq<(Key, u64)>, k: Key) -> Option<u64>
    decreases asked.len(),
{
    if asked.len() == 0 {
        None
    } else if asked[0].0 == k {
        Some(asked[0].1)
    } else {
        asked_of(asked.drop_first(), k)
    }
}

/// Whether somebody asked about at `at` may be asked again at `now`: never
/// asked, or [`READ_SECS`] whole seconds ago or more. Times are in
/// milliseconds on one monotonic clock; one in the future is no time ago.
pub open spec fn may_ask(at: Option<u64>, now: u64) -> bool {
    match at {
        None => true,
        Some(t) => (if now >= t {
            (now - t) as nat
        } else {
            0
        }) / 1000 >= READ_SECS,
    }
}

/// The people of `wanted` who may be asked about now, with when each was
/// last asked, in `wanted`'s order.
pub open spec fn askable(wanted: Seq<Key>, asked: Seq<(Key, u64)>, now: u64) -> Seq<(Option<u64>, Key)> {
    wanted.map_values(|k: Key| (asked_of(asked, k), k)).filter(
        |c: (Option<u64>, Key)| may_ask(c.0, now),
    )
}

/// Never asked before asked, and longer ago before more recently.
pub open spec fn sooner(a: Option<u64>, b: Option<u64>) -> bool {
    match (a, b) {
        (None, Some(_)) => true,
        (Some(x), Some(y)) => x < y,
        _ => false,
    }
}

/// Whether the `i`th of `c` is to be asked before the `j`th: by
/// [`sooner`], and in order where that does not decide.
pub open spec fn first_of(c: Seq<(Option<u64>, Key)>, i: int, j: int) -> bool {
    sooner(c[i].0, c[j].0) || (c[i].0 == c[j].0 && i < j)
}

/// `idx` picks, in order, the first `idx.len()` of `c` by [`first_of`].
pub open spec fn picks_first(c: Seq<(Option<u64>, Key)>, idx: Seq<int>) -> bool {
    &&& forall|k: int| 0 <= k < idx.len() ==> 0 <= #[trigger] idx[k] < c.len()
    &&& forall|a: int, b: int| 0 <= a < b < idx.len() ==> first_of(c, idx[a], idx[b])
    &&& forall|j: int, k: int|
        0 <= j < c.len() && 0 <= k < idx.len() && !idx.contains(j) ==> first_of(c, idx[k], j)
}

/// [`first_of`] is a strict order that decides every pair.
proof fn lemma_first_of(c: Seq<(Option<u64>, Key)>, i: int, j: int, k: int)
    ensures
        !first_of(c, i, i),
        first_of(c, i, j) ==> !first_of(c, j, i),
        first_of(c, i, j) && first_of(c, j, k) ==> first_of(c, i, k),
        i != j ==> first_of(c, i, j) || first_of(c, j, i),
{
}

/// The index in `c` that comes first by [`first_of`] among those not
/// `taken`.
fn first_left(c: &Vec<(Option<u64>, Key)>, taken: &Vec<bool>) -> (b: usize)
    requires
        taken@.len() == c@.len(),
        exists|j: int| 0 <= j < c@.len() && !taken@[j],
    ensures
        b < c@.len(),
        !taken@[b as int],
        forall|j: int| 0 <= j < c@.len() && !taken@[j] && j != b ==> first_of(c@, b as int, j),
{
    let mut best: Option<usize> = None;
    let mut i: usize = 0;
    while i < c.len()
        invariant
            taken@.len() == c@.len(),
            i <= c@.len(),
            exists|j: int| 0 <= j < c@.len() && !taken@[j],
            match best {
                Some(b) => b < i && !taken@[b as int] && forall|j: int|
                    0 <= j < i && !taken@[j] && j != b ==> first_of(c@, b as int, j),
                None => forall|j: int| 0 <= j < i ==> taken@[j],
            },
        decreases c@.len() - i,
    {
        if !taken[i] {
            match best {
                None => {
                    best = Some(i);
                },
                Some(b) => {
                    let earlier = match (c[i].0, c[b].0) {
                        (None, Some(_)) => true,
                        (Some(x), Some(y)) => x < y,
                        _ => false,
                    };
                    if earlier {
                        proof {
                            assert forall|j: int|
                                0 <= j < i + 1 && !taken@[j] && j != i implies first_of(
                                c@,
                                i as int,
                                j,
                            ) by {
                                lemma_first_of(c@, i as int, b as int, j);
                            }
                        }
                        best = Some(i);
                    }
                },
            }
        }
        i = i + 1;
    }
    match best {
        Some(b) => b,
        None => 0,
    }
}

/// Which of `wanted` to ask about now: the ones never asked, then the ones
/// asked longest ago, at most [`READS_PER_TICK`], and none that was asked
/// inside [`READ_SECS`]. `asked_at` is when each was last asked, in
/// milliseconds on one monotonic clock, as is `now`.
pub fn due(wanted: &[Key], asked_at: &[(Key, u64)], now: u64) -> (r: Vec<Key>)
    ensures
        ({
            let c = askable(wanted@, asked_at@, now);
            &&& r@.len() == (if c.len() < READS_PER_TICK {
                c.len()
            } else {
                READS_PER_TICK as nat
            })
            &&& exists|idx: Seq<int>|
                #[trigger] picks_first(c, idx) && idx.len() == r@.len() && forall|k: int|
                    0 <= k < idx.len() ==> r@[k] == c[idx[k]].1
        }),
{
    let ghost c = askable(wanted@, asked_at@, now);
    let mut cand: Vec<(Option<u64>, Key)> = Vec::new();
    let mut i: usize = 0;
    while i < wanted.len()
        invariant
            i <= wanted@.len(),
            cand@ == askable(wanted@.take(i as int), asked_at@, now),
        decreases wanted@.len() - i,
    {
        let k = wanted[i];
        let at = lookup(asked_at, &k);
        let ok = match at {
            None => true,
            Some(t) => now.saturating_sub(t) / 1000 >= READ_SECS,
        };
        proof {
            reveal_with_fuel(Seq::filter, 1);
            let f = |k: Key| (asked_of(asked_at@, k), k);
            assert(wanted@.take(i + 1).map_values(f).drop_last() =~= wanted@.take(
                i as int,
            ).map_values(f));
        }
        if ok {
            cand.push((at, k));
        }
        i = i + 1;
    }
    assert(wanted@.take(wanted@.len() as int) =~= wanted@);
    let mut taken: Vec<bool> = Vec::new();
    let mut j: usize = 0;
    while j < cand.len()
        invariant
            j <= cand@.len(),
            taken@.len() == j,
            forall|q: int| 0 <= q < j ==> !taken@[q],
        decreases cand@.len() - j,
    {
        taken.push(false);
        j = j + 1;
    }
    let mut out: Vec<Key> = Vec::new();
    let ghost mut idx: Seq<int> = Seq::empty();
    while out.len() < READS_PER_TICK && out.len() < cand.len()
        invariant
            cand@ == c,
            taken@.len() == c.len(),
            out@.len() == idx.len(),
            out@.len() <= READS_PER_TICK,
            out@.len() <= c.len(),
            picks_first(c, idx),
            forall|q: int| 0 <= q < c.len() ==> (taken@[q] <==> idx.contains(q)),
            forall|a: int, b: int| 0 <= a < b < idx.len() ==> idx[a] != idx[b],
            forall|k: int| 0 <= k < idx.len() ==> out@[k] == c[idx[k]].1,
        decreases c.len() - out@.len(),
    {
        proof {
            if forall|q: int| 0 <= q < c.len() ==> taken@[q] {
                lemma_all_taken(c.len(), idx);
            }
        }
        let b = first_left(&cand, &taken);
        let ghost oidx = idx;
        proof {
            let nidx = idx.push(b as int);
            assert forall|a: int, e: int| 0 <= a < e < nidx.len() implies first_of(
                c,
                nidx[a],
                nidx[e],
            ) by {
                if e == nidx.len() - 1 {
                    assert(!idx.contains(b as int));
                }
            }
            assert forall|q: int, k: int|
                0 <= q < c.len() && 0 <= k < nidx.len() && !nidx.contains(q) implies first_of(
                c,
                nidx[k],
                q,
            ) by {
                if idx.contains(q) {
                    let w = choose|w: int| 0 <= w < idx.len() && idx[w] == q;
                    assert(nidx[w] == q);
                }
                assert(nidx[nidx.len() - 1] == b);
                if k == nidx.len() - 1 {
                    assert(!taken@[q]);
                    assert(q != b);
                }
            }
            assert forall|a: int, e: int| 0 <= a < e < nidx.len() implies nidx[a] != nidx[e] by {
                if e == nidx.len() - 1 {
                    assert(!idx.contains(b as int));
                    assert(idx.contains(nidx[a]));
                }
            }
            idx = nidx;
        }
        let ghost before = taken@;
        let ghost pidx = oidx;
        assert(idx == oidx.push(b as int));
        assert(forall|q: int| 0 <= q < c.len() ==> (before[q] <==> pidx.contains(q)));
        taken.set(b, true);
        out.push(cand[b].1);
        proof {
            assert forall|q: int| 0 <= q < c.len() implies (taken@[q] <==> idx.contains(q)) by {
                if q == b {
                    assert(idx[idx.len() - 1] == q);
                } else {
                    assert(taken@[q] == before[q]);
                    if idx.contains(q) {
                        let k = choose|k: int| 0 <= k < idx.len() && idx[k] == q;
                        assert(k < idx.len() - 1);
                        assert(pidx[k] == q);
                    }
                    if pidx.contains(q) {
                        let k = choose|k: int| 0 <= k < pidx.len() && pidx[k] == q;
                        assert(idx[k] == q);
                    }
                }
            }
        }
    }
    out
}

/// When every candidate has been taken, all of them have been picked.
pub proof fn lemma_all_taken(n: nat, idx: Seq<int>)
    requires
        forall|q: int| 0 <= q < n ==> idx.contains(q),
        forall|a: int, b: int| 0 <= a < b < idx.len() ==> idx[a] != idx[b],
    ensures
        idx.len() >= n,
{
    let f = |q: int| choose|k: int| 0 <= k < idx.len() && idx[k] == q;
    let s = vstd::set_lib::set_int_range(0, n as int);
    let t = vstd::set_lib::set_int_range(0, idx.len() as int);
    vstd::set_lib::lemma_int_range(0, n as int);
    vstd::set_lib::lemma_int_range(0, idx.len() as int);
    assert forall|q1: int, q2: int| s.contains(q1) && s.contains(q2) && f(q1) == f(q2) implies q1
        == q2 by {
        assert(idx.contains(q1));
        assert(idx.contains(q2));
    }
    assert(vstd::relations::injective_on(f, s));
    assert forall|k: int| s.map(f).contains(k) implies t.contains(k) by {
        let q = choose|q: int| s.contains(q) && f(q) == k;
        assert(idx.contains(q));
    }
    vstd::set_lib::lemma_map_size(s, s.map(f), f);
    vstd::set_lib::lemma_len_subset(s.map(f), t);
}

/// When `k` was last asked about.
fn lookup(asked: &[(Key, u64)], k: &Key) -> (r: Option<u64>)
    ensures
        r == asked_of(asked@, *k),
{
    let mut i: usize = 0;
    assert(asked@.skip(0) =~= asked@);
    while i < asked.len()
        invariant
            i <= asked@.len(),
            asked_of(asked@, *k) == asked_of(asked@.skip(i as int), *k),
        decreases asked@.len() - i,
    {
        assert(asked@.skip(i as int).drop_first() =~= asked@.skip(i + 1));
        if same_key(&asked[i].0, k) {
            return Some(asked[i].1);
        }
        i = i + 1;
    }
    None
}

/// **Who is asked about.** Each at most once, never ourselves, no more
/// than [`MOST_READ`], only people who were offered, and everybody offered
/// who is not ourselves unless the list is already full.
pub proof fn law_wanted(me: Option<Key>, s: Seq<Key>)
    ensures
        wanted_of(me, s).no_duplicates(),
        wanted_of(me, s).len() <= MOST_READ,
        me matches Some(m) ==> !wanted_of(me, s).contains(m),
        forall|k: Key| #[trigger] wanted_of(me, s).contains(k) ==> s.contains(k),
        forall|k: Key|
            #[trigger] s.contains(k) && me != Some(k) ==> wanted_of(me, s).contains(k)
                || wanted_of(me, s).len() == MOST_READ,
    decreases s.len(),
{
    if s.len() > 0 {
        let prev = wanted_of(me, s.drop_last());
        law_wanted(me, s.drop_last());
        let w = wanted_of(me, s);
        assert forall|k: Key| #[trigger] w.contains(k) implies s.contains(k) by {
            if prev.contains(k) {
                assert(s.drop_last().contains(k));
                let j = choose|j: int| 0 <= j < s.drop_last().len() && s.drop_last()[j] == k;
                assert(s[j] == k);
            } else {
                assert(k == s.last());
                assert(s[s.len() - 1] == k);
            }
        }
        assert forall|k: Key| #[trigger] s.contains(k) && me != Some(k) implies w.contains(k)
            || w.len() == MOST_READ by {
            let j = choose|j: int| 0 <= j < s.len() && s[j] == k;
            if j < s.len() - 1 {
                assert(s.drop_last()[j] == k);
                assert(s.drop_last().contains(k));
                if prev.contains(k) {
                    let q = choose|q: int| 0 <= q < prev.len() && prev[q] == k;
                    if w != prev {
                        assert(w[q] == prev[q]);
                    }
                }
            } else {
                if w != prev {
                    assert(w[w.len() - 1] == k);
                } else if !prev.contains(k) {
                    assert(prev.len() >= MOST_READ);
                }
            }
        }
        if w != prev {
            assert forall|a: int, b: int| 0 <= a < w.len() && 0 <= b < w.len() && a != b implies w[a]
                != w[b] by {
                if a == prev.len() {
                    assert(prev.contains(w[b]));
                } else if b == prev.len() {
                    assert(prev.contains(w[a]));
                }
            }
            if let Some(m) = me {
                if w.contains(m) {
                    let q = choose|q: int| 0 <= q < w.len() && w[q] == m;
                    if q < prev.len() {
                        assert(prev.contains(m));
                    }
                }
            }
        }
    }
}

/// **The open conversation's people first.** Who is asked about among
/// `a`, then `b`, starts with who would be asked about among `a` alone.
pub proof fn law_wanted_first(me: Option<Key>, a: Seq<Key>, b: Seq<Key>)
    ensures
        wanted_of(me, a).is_prefix_of(wanted_of(me, a + b)),
    decreases b.len(),
{
    if b.len() == 0 {
        assert(a + b =~= a);
    } else {
        law_wanted_first(me, a, b.drop_last());
        assert((a + b).drop_last() =~= a + b.drop_last());
    }
}

/// **Nobody asked about too soon.** Whoever may be asked about now was
/// wanted, and was never asked or asked at least [`READ_SECS`] ago.
pub proof fn law_askable(wanted: Seq<Key>, asked: Seq<(Key, u64)>, now: u64)
    ensures
        forall|i: int|
            0 <= i < askable(wanted, asked, now).len() ==> {
                let c = #[trigger] askable(wanted, asked, now)[i];
                &&& may_ask(c.0, now)
                &&& c.0 == asked_of(asked, c.1)
                &&& wanted.contains(c.1)
            },
{
    let m = wanted.map_values(|k: Key| (asked_of(asked, k), k));
    let f = |c: (Option<u64>, Key)| may_ask(c.0, now);
    assert forall|i: int| 0 <= i < askable(wanted, asked, now).len() implies {
        let c = #[trigger] askable(wanted, asked, now)[i];
        &&& may_ask(c.0, now)
        &&& c.0 == asked_of(asked, c.1)
        &&& wanted.contains(c.1)
    } by {
        m.lemma_filter_pred(f, i);
        m.lemma_filter_contains_rev(f, m.filter(f)[i]);
        let j = choose|j: int| 0 <= j < m.len() && m[j] == m.filter(f)[i];
        assert(wanted[j] == m[j].1);
    }
}


/// **Three declared intervals missed is absent.** An answer means offline
/// exactly when the exchange has no beacon, or the last beat is more than
/// three times the interval that peer itself declared ago; otherwise away
/// or at the keyboard by the away bit of its last beat. The interval is
/// the peer's, not this client's own beat: a peer beating every minute,
/// last seen two minutes ago, is still there.
pub proof fn law_declared_intervals(r: Reply)
    ensures
        seen_of(r) is Offline <==> (!r.found || (r.now > r.last_seen && r.now - r.last_seen > 3
            * r.interval_secs)),
        seen_of(r) is Away <==> (r.found && r.away && !(r.now > r.last_seen && r.now - r.last_seen
            > 3 * r.interval_secs)),
        seen_of(r) is Active <==> (r.found && !r.away && !(r.now > r.last_seen && r.now
            - r.last_seen > 3 * r.interval_secs)),
{
}

/// **A slower beat is given longer.** Of two answers alike but for the
/// interval declared, the one that declared the longer interval is offline
/// only if the other is too.
pub proof fn law_longer_interval_longer_grace(r: Reply, longer: u32)
    requires
        longer >= r.interval_secs,
    ensures
        seen_of(Reply { interval_secs: longer, ..r }) is Offline ==> seen_of(r) is Offline,
{
}

} // verus!

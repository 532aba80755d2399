//! How pictures land on the window's frames: the repaint and picture
//! times a player's trace collects, and what is said of them every few
//! seconds -- the window is the only honest instrument for stutter, and
//! this is how it is read. The host keeps the clock and prints.
//!
//! Differences are taken as a release build of the player takes them:
//! wrapping, and read as signed.

use vstd::prelude::*;

verus! {

/// `x` put in its place in the ascending `l`: after everything not above it.
pub open spec fn insert_sorted(l: Seq<i64>, x: i64) -> Seq<i64>
    decreases l.len(),
{
    if l.len() == 0 {
        seq![x]
    } else if x < l[0] {
        seq![x] + l
    } else {
        seq![l[0]] + insert_sorted(l.drop_first(), x)
    }
}

/// `s` sorted ascending.
pub open spec fn sorted_seq(s: Seq<i64>) -> Seq<i64>
    decreases s.len(),
{
    if s.len() == 0 {
        Seq::empty()
    } else {
        insert_sorted(sorted_seq(s.drop_last()), s.last())
    }
}

/// Whether `l` goes up, or stays.
pub open spec fn ascending(l: Seq<i64>) -> bool {
    forall|i: int, j: int| 0 <= i <= j < l.len() ==> l[i] <= l[j]
}

/// The time between each repaint and the next.
pub open spec fn gaps_of(r: Seq<u64>) -> Seq<i64> {
    Seq::new(
        (if r.len() == 0 {
            0
        } else {
            r.len() - 1
        }) as nat,
        |i: int| r[i + 1].wrapping_sub(r[i]) as i64,
    )
}

/// The wall time between each picture landing and the next.
pub open spec fn between_of(l: Seq<(u64, u64, u64)>) -> Seq<i64> {
    Seq::new(
        (if l.len() == 0 {
            0
        } else {
            l.len() - 1
        }) as nat,
        |i: int| l[i + 1].0.wrapping_sub(l[i].0) as i64,
    )
}

/// How late each picture landed: where the player was, less the picture's
/// own time.
pub open spec fn late_of(l: Seq<(u64, u64, u64)>) -> Seq<i64> {
    l.map_values(|e: (u64, u64, u64)| (e.1 as i64).wrapping_sub(e.2 as i64))
}

/// How many times one picture followed another by more than 40 ms of
/// picture time: pictures skipped.
pub open spec fn skipped_of(l: Seq<(u64, u64, u64)>) -> nat
    decreases l.len(),
{
    if l.len() < 2 {
        0
    } else {
        skipped_of(l.drop_last()) + (if l.last().2.wrapping_sub(l[l.len() - 2].2) > 40 {
            1nat
        } else {
            0nat
        })
    }
}

/// The entry at `i` of `s`, or nought past its end.
pub open spec fn at_or_nought(s: Seq<i64>, i: int) -> i64 {
    if 0 <= i < s.len() {
        s[i]
    } else {
        0
    }
}

/// What a report says.
#[derive(Debug, Clone, Copy, PartialEq, Eq)]
pub struct VideoStats {
    pub repaints: usize,
    pub gap_median: i64,
    pub gap_p90: i64,
    pub gap_p99: i64,
    pub gap_max: i64,
    pub pictures: usize,
    pub skipped: usize,
    pub late_median: i64,
    pub late_max: i64,
    pub between_min: i64,
    pub between_median: i64,
    pub between_p90: i64,
    pub between_p99: i64,
    pub between_max: i64,
}

/// What a report says of repaints `r` and pictures `l`; nothing when
/// fewer than two repaints were seen.
pub open spec fn stats_of(r: Seq<u64>, l: Seq<(u64, u64, u64)>) -> Option<VideoStats> {
    let gaps = sorted_seq(gaps_of(r));
    let n = gaps.len() as int;
    let between = sorted_seq(between_of(l));
    let late = sorted_seq(late_of(l));
    let m = if between.len() > 1 {
        between.len() as int
    } else {
        1
    };
    if n == 0 {
        None
    } else {
        Some(
            VideoStats {
                repaints: (n + 1) as usize,
                gap_median: gaps[n / 2],
                gap_p90: gaps[n * 9 / 10],
                gap_p99: gaps[n * 99 / 100],
                gap_max: gaps[n - 1],
                pictures: late.len() as usize,
                skipped: skipped_of(l) as usize,
                late_median: at_or_nought(late, late.len() as int / 2),
                late_max: at_or_nought(late, late.len() - 1),
                between_min: at_or_nought(between, 0),
                between_median: at_or_nought(between, m / 2),
                between_p90: at_or_nought(between, m * 9 / 10),
                between_p99: at_or_nought(between, m * 99 / 100),
                between_max: at_or_nought(between, between.len() - 1),
            },
        )
    }
}

/// The most entries a trace holds: enough that a percentile's index is
/// computed without overflow.
pub const MOST_KEPT: usize = 40_000_000;

/// A player's trace: whether it is on, the repaints and pictures since the
/// last report, and when that report was.
pub struct VideoTrace {
    on: bool,
    repaints: Vec<u64>,
    /// (wall ms, position ms, picture ms) at each change of picture.
    landed: Vec<(u64, u64, u64)>,
    reported: u64,
}

impl VideoTrace {
    /// Whether it is on.
    pub closed spec fn is_on(&self) -> bool {
        self.on
    }

    /// The repaints since the last report, by wall time.
    pub closed spec fn repaints(&self) -> Seq<u64> {
        self.repaints@
    }

    /// The pictures since the last report.
    pub closed spec fn landings(&self) -> Seq<(u64, u64, u64)> {
        self.landed@
    }

    /// When the last report was, by wall time.
    pub closed spec fn reported_at(&self) -> u64 {
        self.reported
    }

    /// A trace, on or off.
    pub fn new(on: bool) -> (t: VideoTrace)
        ensures
            t.is_on() == on,
            t.repaints() == Seq::<u64>::empty(),
            t.landings() == Seq::<(u64, u64, u64)>::empty(),
            t.reported_at() == 0,
    {
        VideoTrace { on, repaints: Vec::new(), landed: Vec::new(), reported: 0 }
    }

    /// Whether it is on.
    pub fn on(&self) -> (r: bool)
        ensures
            r == self.is_on(),
    {
        self.on
    }

    /// Whether there is room to note more before a report.
    pub fn has_room(&self) -> (r: bool)
        ensures
            r == (self.repaints().len() < MOST_KEPT && self.landings().len() < MOST_KEPT),
    {
        self.repaints.len() < MOST_KEPT && self.landed.len() < MOST_KEPT
    }

    /// When the last report was.
    pub fn reported_ms(&self) -> (r: u64)
        ensures
            r == self.reported_at(),
    {
        self.reported
    }

    /// A repaint at `wall`: noted, and every five seconds of wall time the
    /// report of what was noted, which starts the noting again.
    pub fn repaint(&mut self, wall: u64) -> (r: Option<VideoStats>)
        requires
            old(self).repaints().len() < MOST_KEPT,
            old(self).landings().len() < MOST_KEPT,
            old(self).reported_at() + 5000 <= u64::MAX,
        ensures
            final(self).is_on() == old(self).is_on(),
            !old(self).is_on() ==> r is None && *final(self) == *old(self),
            old(self).is_on() ==> ({
                let noted = old(self).repaints().push(wall);
                if wall >= old(self).reported_at() + 5000 {
                    &&& final(self).reported_at() == wall
                    &&& r == stats_of(noted, old(self).landings())
                    &&& r is Some ==> final(self).repaints() == Seq::<u64>::empty()
                        && final(self).landings() == Seq::<(u64, u64, u64)>::empty()
                    &&& r is None ==> final(self).repaints() == noted && final(self).landings()
                        == old(self).landings()
                } else {
                    &&& r is None
                    &&& final(self).reported_at() == old(self).reported_at()
                    &&& final(self).repaints() == noted
                    &&& final(self).landings() == old(self).landings()
                }
            }),
    {
        if !self.on {
            return None;
        }
        self.repaints.push(wall);
        if wall >= self.reported + 5000 {
            self.reported = wall;
            return self.report();
        }
        None
    }

    /// A new picture landed at `wall`, the player at `position` and the
    /// picture's own time `at`.
    pub fn landed(&mut self, position: u64, at: u64, wall: u64)
        ensures
            final(self).is_on() == old(self).is_on(),
            final(self).repaints() == old(self).repaints(),
            final(self).reported_at() == old(self).reported_at(),
            final(self).landings() == if old(self).is_on() {
                old(self).landings().push((wall, position, at))
            } else {
                old(self).landings()
            },
    {
        if !self.on {
            return;
        }
        self.landed.push((wall, position, at));
    }

    /// What was noted, said: `None` when fewer than two repaints were,
    /// which keeps them; otherwise the report, and the noting starts again.
    fn report(&mut self) -> (r: Option<VideoStats>)
        requires
            old(self).repaints().len() <= MOST_KEPT,
            old(self).landings().len() <= MOST_KEPT,
        ensures
            r == stats_of(old(self).repaints(), old(self).landings()),
            final(self).is_on() == old(self).is_on(),
            final(self).reported_at() == old(self).reported_at(),
            r is Some ==> final(self).repaints() == Seq::<u64>::empty() && final(self).landings()
                == Seq::<(u64, u64, u64)>::empty(),
            r is None ==> final(self).repaints() == old(self).repaints() && final(self).landings()
                == old(self).landings(),
    {
        let s = stats(&self.repaints, &self.landed);
        if s.is_some() {
            self.repaints = Vec::new();
            self.landed = Vec::new();
        }
        s
    }
}

/// What a report says of repaints `r` and pictures `l`.
fn stats(r: &Vec<u64>, l: &Vec<(u64, u64, u64)>) -> (s: Option<VideoStats>)
    requires
        r@.len() <= MOST_KEPT,
        l@.len() <= MOST_KEPT,
    ensures
        s == stats_of(r@, l@),
{
    let mut gaps: Vec<i64> = Vec::new();
    let mut i: usize = 1;
    while i < r.len()
        invariant
            1 <= i <= r@.len() || (r@.len() == 0 && i == 1),
            gaps@ == gaps_of(r@).take(i - 1),
        decreases r@.len() - i,
    {
        gaps.push(r[i].wrapping_sub(r[i - 1]) as i64);
        assert(gaps@ =~= gaps_of(r@).take(i as int));
        i = i + 1;
    }
    assert(gaps@ =~= gaps_of(r@));
    let gaps = sorted(&gaps);
    if gaps.len() == 0 {
        return None;
    }
    let n = gaps.len();
    let mut between: Vec<i64> = Vec::new();
    let mut late: Vec<i64> = Vec::new();
    let mut skipped: usize = 0;
    let mut j: usize = 0;
    while j < l.len()
        invariant
            j <= l@.len() <= MOST_KEPT,
            late@ == late_of(l@).take(j as int),
            j > 0 ==> between@ == between_of(l@).take(j - 1),
            j == 0 ==> between@.len() == 0,
            skipped == skipped_of(l@.take(j as int)),
            skipped <= j,
        decreases l@.len() - j,
    {
        let e = l[j];
        late.push((e.1 as i64).wrapping_sub(e.2 as i64));
        assert(late@ =~= late_of(l@).take(j + 1));
        assert(l@.take(j + 1).drop_last() =~= l@.take(j as int));
        if j > 0 {
            let p = l[j - 1];
            between.push(e.0.wrapping_sub(p.0) as i64);
            assert(between@ =~= between_of(l@).take(j as int));
            assert(l@.take(j + 1)[j - 1] == p);
            if e.2.wrapping_sub(p.2) > 40 {
                skipped = skipped + 1;
            }
        } else {
            assert(between@ =~= between_of(l@).take(0));
        }
        j = j + 1;
    }
    assert(late@ =~= late_of(l@));
    assert(l@.take(l@.len() as int) =~= l@);
    if l.len() > 0 {
        assert(between@ =~= between_of(l@));
    } else {
        assert(between@ =~= between_of(l@));
    }
    let between = sorted(&between);
    let late = sorted(&late);
    let m = if between.len() > 1 {
        between.len()
    } else {
        1
    };
    proof {
        law_sorted(gaps_of(r@));
        law_sorted(between_of(l@));
        law_sorted(late_of(l@));
    }
    Some(
        VideoStats {
            repaints: n + 1,
            gap_median: gaps[n / 2],
            gap_p90: gaps[n * 9 / 10],
            gap_p99: gaps[n * 99 / 100],
            gap_max: gaps[n - 1],
            pictures: late.len(),
            skipped,
            late_median: get_or_nought(&late, late.len() / 2),
            late_max: if late.len() > 0 {
                late[late.len() - 1]
            } else {
                0
            },
            between_min: get_or_nought(&between, 0),
            between_median: get_or_nought(&between, m / 2),
            between_p90: get_or_nought(&between, m * 9 / 10),
            between_p99: get_or_nought(&between, m * 99 / 100),
            between_max: if between.len() > 0 {
                between[between.len() - 1]
            } else {
                0
            },
        },
    )
}

/// The entry at `i`, or nought past the end.
fn get_or_nought(s: &Vec<i64>, i: usize) -> (r: i64)
    ensures
        r == at_or_nought(s@, i as int),
{
    if i < s.len() {
        s[i]
    } else {
        0
    }
}

/// `s`, sorted ascending.
fn sorted(s: &Vec<i64>) -> (r: Vec<i64>)
    ensures
        r@ == sorted_seq(s@),
{
    let mut out: Vec<i64> = Vec::new();
    let mut i: usize = 0;
    while i < s.len()
        invariant
            i <= s@.len(),
            out@ == sorted_seq(s@.take(i as int)),
            ascending(out@),
        decreases s@.len() - i,
    {
        assert(s@.take(i + 1).drop_last() =~= s@.take(i as int));
        assert(s@.take(i + 1).last() == s@[i as int]);
        let x = s[i];
        let mut j: usize = 0;
        while j < out.len() && out[j] <= x
            invariant
                j <= out@.len(),
                forall|q: int| 0 <= q < j ==> out@[q] <= x,
            decreases out@.len() - j,
        {
            j = j + 1;
        }
        proof {
            lemma_insert_sorted(out@, x, j as int);
        }
        out.insert(j, x);
        i = i + 1;
    }
    assert(s@.take(s@.len() as int) =~= s@);
    out
}

/// Putting `x` in its place in the ascending `l`, after the `i` entries
/// not above it, is inserting it there, and keeps `l` ascending with the
/// same entries and `x`.
proof fn lemma_insert_sorted(l: Seq<i64>, x: i64, i: int)
    requires
        ascending(l),
        0 <= i <= l.len(),
        forall|q: int| 0 <= q < i ==> l[q] <= x,
        i < l.len() ==> x < l[i],
    ensures
        insert_sorted(l, x) == l.insert(i, x),
        ascending(insert_sorted(l, x)),
        insert_sorted(l, x).to_multiset() == l.to_multiset().insert(x),
    decreases l.len(),
{
    broadcast use vstd::multiset::group_multiset_axioms;
    broadcast use vstd::seq_lib::group_to_multiset_ensures;

    if l.len() == 0 {
        assert(l.insert(0, x) =~= seq![x]);
        assert(seq![x] =~= Seq::<i64>::empty().push(x));
        assert(l =~= Seq::<i64>::empty());
    } else if x < l[0] {
        assert(i == 0);
        assert(l.insert(0, x) =~= seq![x] + l);
        assert(seq![x] + l =~= l.insert(0, x));
        l.to_multiset_ensures();
    } else {
        let t = l.drop_first();
        assert(ascending(t)) by {
            assert forall|a: int, b: int| 0 <= a <= b < t.len() implies t[a] <= t[b] by {
                assert(t[a] == l[a + 1] && t[b] == l[b + 1]);
            }
        }
        assert(i >= 1);
        assert forall|q: int| 0 <= q < i - 1 implies t[q] <= x by {
            assert(t[q] == l[q + 1]);
        }
        lemma_insert_sorted(t, x, i - 1);
        assert(seq![l[0]] + t.insert(i - 1, x) =~= l.insert(i, x));
        let r = l.insert(i, x);
        assert(ascending(r)) by {
            assert forall|a: int, b: int| 0 <= a <= b < r.len() implies r[a] <= r[b] by {
                if a < i && b < i {
                } else if a < i && b == i {
                } else if a < i && b > i {
                    assert(r[b] == l[b - 1]);
                } else if a == i && b > i {
                    assert(r[b] == l[b - 1]);
                    assert(x < l[i]);
                } else if a > i {
                    assert(r[a] == l[a - 1] && r[b] == l[b - 1]);
                }
            }
        }
        assert(l =~= seq![l[0]] + t);
        vstd::seq_lib::lemma_multiset_commutative(seq![l[0]], t);
        vstd::seq_lib::lemma_multiset_commutative(seq![l[0]], t.insert(i - 1, x));
        assert(seq![l[0]].to_multiset() =~= vstd::multiset::Multiset::<i64>::empty().insert(l[0])) by {
            assert(seq![l[0]] =~= Seq::<i64>::empty().push(l[0]));
            Seq::<i64>::empty().to_multiset_ensures();
        }
        assert(l.to_multiset().insert(x) =~= seq![l[0]].to_multiset().add(t.to_multiset().insert(x)));
    }
}

/// **What a report reads is the same times, in order.** Sorting keeps
/// every entry, as often as it came, and puts them in ascending order.
pub proof fn law_sorted(s: Seq<i64>)
    ensures
        ascending(sorted_seq(s)),
        sorted_seq(s).to_multiset() == s.to_multiset(),
        sorted_seq(s).len() == s.len(),
    decreases s.len(),
{
    broadcast use vstd::seq_lib::group_to_multiset_ensures;

    if s.len() == 0 {
        assert(s =~= Seq::<i64>::empty());
    } else {
        law_sorted(s.drop_last());
        let l = sorted_seq(s.drop_last());
        let i = first_above(l, s.last(), 0);
        lemma_first_above(l, s.last(), 0);
        lemma_insert_sorted(l, s.last(), i);
        assert(s =~= s.drop_last().push(s.last()));
        s.drop_last().to_multiset_ensures();
        assert(sorted_seq(s).len() == l.len() + 1) by {
            assert(sorted_seq(s) == l.insert(i, s.last()));
        }
    }
}

/// Where the first entry of `l`, from `k` on, above `x` is; `l.len()` when
/// none is.
pub open spec fn first_above(l: Seq<i64>, x: i64, k: int) -> int
    decreases l.len() - k,
{
    if k >= l.len() {
        l.len() as int
    } else if x < l[k] {
        k
    } else {
        first_above(l, x, k + 1)
    }
}

proof fn lemma_first_above(l: Seq<i64>, x: i64, k: int)
    requires
        0 <= k <= l.len(),
        forall|q: int| 0 <= q < k ==> l[q] <= x,
    ensures
        k <= first_above(l, x, k) <= l.len(),
        forall|q: int| 0 <= q < first_above(l, x, k) ==> l[q] <= x,
        first_above(l, x, k) < l.len() ==> x < l[first_above(l, x, k)],
    decreases l.len() - k,
{
    if k < l.len() && l[k] <= x {
        lemma_first_above(l, x, k + 1);
    }
}

} // verus!

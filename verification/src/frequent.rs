//! The emoji this person sends most, remembered on this machine.
//!
//! The picker's "Frequently used" row. A count per emoji string, kept as
//! text -- one line each, `count<TAB>emoji` -- because it is a habit of the
//! person at the keyboard and not a fact about any identity or exchange.
//!
//! Read tolerantly: a line that is not a count and an emoji is skipped, so
//! a lost or corrupt file is an empty row, which is where everyone starts.
//! Where the text is kept, and reading and writing it, is the host's.

use vstd::prelude::*;

use crate::order::{lemma_text_strict, lemma_text_total, lemma_text_transitive, text_before, text_less};
use crate::text::{chars_of, copy_str, decimal, digit, is_ws, push_char, push_decimal, push_str, string_of, trim, trim_range};

verus! {

broadcast use vstd::string::group_string_axioms;

/// Counts of emoji sent.
#[derive(Debug)]
pub struct Frequent {
    /// Each emoji once, with its count.
    counts: Vec<(String, u32)>,
}

/// The emoji of `entries`, in order.
pub open spec fn keys_of(entries: Seq<(Seq<char>, u32)>) -> Seq<Seq<char>> {
    entries.map_values(|e: (Seq<char>, u32)| e.0)
}

/// The counts `entries` hold, as a map.
pub open spec fn map_of(entries: Seq<(Seq<char>, u32)>) -> Map<Seq<char>, u32> {
    Map::new(
        |k: Seq<char>| keys_of(entries).contains(k),
        |k: Seq<char>| entries[keys_of(entries).index_of(k)].1,
    )
}

/// Whether `a` is shown before `b` when the counts are `m`: sent more,
/// or as often and first as text.
pub open spec fn ranks_before(m: Map<Seq<char>, u32>, a: Seq<char>, b: Seq<char>) -> bool {
    m[a] > m[b] || (m[a] == m[b] && text_before(a, b))
}

/// `r` is the first `r.len()` emoji of `m`, most sent first.
pub open spec fn leads(m: Map<Seq<char>, u32>, r: Seq<Seq<char>>) -> bool {
    &&& forall|i: int| 0 <= i < r.len() ==> m.dom().contains(#[trigger] r[i])
    &&& forall|i: int, j: int| 0 <= i < j < r.len() ==> ranks_before(m, r[i], r[j])
    &&& forall|k: Seq<char>, i: int|
        m.dom().contains(k) && !r.contains(k) && 0 <= i < r.len() ==> ranks_before(m, r[i], k)
}

/// In a sequence with no repeats, each element is found where it is.
pub proof fn lemma_index_of_unique<A>(s: Seq<A>, x: int)
    requires
        s.no_duplicates(),
        0 <= x < s.len(),
    ensures
        s.index_of(s[x]) == x,
{
    assert(s.contains(s[x]));
    let c = s.index_of(s[x]);
    assert(s[c] == s[x]);
}

impl Frequent {
    /// What is held, as emoji and count, in the order kept.
    pub closed spec fn entries(&self) -> Seq<(Seq<char>, u32)> {
        self.counts@.map_values(|e: (String, u32)| (e.0@, e.1))
    }

    /// Each emoji is held once.
    #[verifier::type_invariant]
    closed spec fn each_once(&self) -> bool {
        keys_of(self.entries()).no_duplicates()
    }

    /// How many of each emoji have been sent.
    pub closed spec fn view(&self) -> Map<Seq<char>, u32> {
        map_of(self.entries())
    }

    /// The emoji held are finitely many, as many as there are entries.
    proof fn lemma_finite(&self)
        requires
            keys_of(self.entries()).no_duplicates(),
        ensures
            self.view().dom().finite(),
            self.view().dom().len() == self.entries().len(),
    {
        let ks = keys_of(self.entries());
        assert(self.view().dom() =~= ks.to_set());
        ks.unique_seq_to_set();
        vstd::seq_lib::seq_to_set_is_finite(ks);
    }

    /// Counts kept nowhere, and none yet.
    pub fn in_memory() -> (f: Frequent)
        ensures
            f.view() == Map::<Seq<char>, u32>::empty(),
    {
        let f = Frequent { counts: Vec::new() };
        assert(f.view() =~= Map::<Seq<char>, u32>::empty());
        f
    }

    /// Where `e` is held, if it is.
    fn find(&self, e: &Vec<char>) -> (r: Option<usize>)
        ensures
            match r {
                Some(i) => i < self.entries().len() && self.entries()[i as int].0 == e@
                    && keys_of(self.entries()).index_of(e@) == i,
                None => !keys_of(self.entries()).contains(e@),
            },
    {
        proof {
            use_type_invariant(self);
        }
        let mut i: usize = 0;
        while i < self.counts.len()
            invariant
                i <= self.entries().len(),
                keys_of(self.entries()).no_duplicates(),
                forall|j: int| 0 <= j < i ==> keys_of(self.entries())[j] != e@,
            decreases self.entries().len() - i,
        {
            let k = chars_of(self.counts[i].0.as_str());
            let same = !text_less(&k, e) && !text_less(e, &k);
            proof {
                lemma_text_total(k@, e@);
                lemma_text_strict(k@, e@);
            }
            if same {
                assert(keys_of(self.entries())[i as int] == e@);
                proof {
                    let ks = keys_of(self.entries());
                    assert(ks.contains(e@));
                    let x = ks.index_of(e@);
                    assert(ks[x] == e@);
                    assert(x == i);
                }
                return Some(i);
            }
            i = i + 1;
        }
        None
    }

    /// One more of `emoji` sent. Nothing, for the empty string.
    pub fn bump(&mut self, emoji: &str)
        requires
            old(self).view().dom().contains(emoji@) ==> old(self).view()[emoji@] < u32::MAX,
        ensures
            emoji@.len() == 0 ==> final(self).view() == old(self).view(),
            emoji@.len() > 0 ==> final(self).view() == old(self).view().insert(
                emoji@,
                if old(self).view().dom().contains(emoji@) {
                    (old(self).view()[emoji@] + 1) as u32
                } else {
                    1
                },
            ),
    {
        if emoji.is_empty() {
            return;
        }
        let e = chars_of(emoji);
        match self.find(&e) {
            Some(i) => {
                let n = self.counts[i].1;
                assert(n == self.entries()[i as int].1);
                assert(keys_of(self.entries())[i as int] == emoji@);
                assert(self.view().dom().contains(emoji@));
                self.set_at(i, n + 1);
            },
            None => {
                self.append(copy_str(emoji), 1);
            },
        }
    }

    /// The count at `i` made `n`.
    fn set_at(&mut self, i: usize, n: u32)
        requires
            i < old(self).entries().len(),
        ensures
            final(self).view() == old(self).view().insert(old(self).entries()[i as int].0, n),
    {
        proof {
            use_type_invariant(&*self);
        }
        let ghost before = self.entries();
        let k = copy_str(self.counts[i].0.as_str());
        let mut counts: Vec<(String, u32)> = Vec::new();
        std::mem::swap(&mut counts, &mut self.counts);
        counts.set(i, (k, n));
        let ghost after = counts@.map_values(|e: (String, u32)| (e.0@, e.1));
        assert(after =~= before.update(i as int, (before[i as int].0, n)));
        assert(keys_of(after) =~= keys_of(before));
        self.counts = counts;
        proof {
            let ks = keys_of(before);
            lemma_index_of_unique(ks, i as int);
            assert forall|k: Seq<char>| #[trigger] ks.contains(k) && k != before[i as int].0 implies ks.index_of(k) != i by {
                let x = ks.index_of(k);
                assert(ks[x] == k);
            }
            assert(map_of(after) =~= map_of(before).insert(before[i as int].0, n));
        }
    }

    /// A new emoji `e`, with count `n`.
    fn append(&mut self, e: String, n: u32)
        requires
            !keys_of(old(self).entries()).contains(e@),
        ensures
            final(self).view() == old(self).view().insert(e@, n),
    {
        proof {
            use_type_invariant(&*self);
        }
        let ghost before = self.entries();
        let ghost ee = e@;
        let mut counts: Vec<(String, u32)> = Vec::new();
        std::mem::swap(&mut counts, &mut self.counts);
        counts.push((e, n));
        let ghost after = counts@.map_values(|e: (String, u32)| (e.0@, e.1));
        assert(after =~= before.push((ee, n)));
        assert(keys_of(after) =~= keys_of(before).push(ee));
        proof {
            let ks = keys_of(before);
            let ks2 = keys_of(after);
            assert forall|a: int, b: int| 0 <= a < ks2.len() && 0 <= b < ks2.len() && a != b implies ks2[a] != ks2[b] by {
                if a == ks.len() {
                    assert(ks2[b] == ks[b]);
                    assert(ks.contains(ks[b]));
                } else if b == ks.len() {
                    assert(ks2[a] == ks[a]);
                } else {
                    assert(ks2[a] == ks[a]);
                    assert(ks2[b] == ks[b]);
                }
            }
        }
        self.counts = counts;
        proof {
            let ks = keys_of(before);
            let ks2 = keys_of(after);
            assert forall|k: Seq<char>| #[trigger] ks.contains(k) implies ks2.index_of(k)
                == ks.index_of(k) by {
                let x = ks.index_of(k);
                assert(ks[x] == k);
                assert(ks2[x] == k);
                lemma_index_of_unique(ks2, x);
            }
            assert(ks2.index_of(ee) == before.len()) by {
                assert(ks2[before.len() as int] == ee);
                lemma_index_of_unique(ks2, before.len() as int);
            }
            assert forall|k: Seq<char>| #[trigger] ks2.contains(k) == (ks.contains(k) || k == ee) by {
                if ks2.contains(k) {
                    let x = choose|x: int| 0 <= x < ks2.len() && ks2[x] == k;
                    if x < ks.len() {
                        assert(ks[x] == k);
                    }
                }
                if ks.contains(k) {
                    let x = choose|x: int| 0 <= x < ks.len() && ks[x] == k;
                    assert(ks2[x] == k);
                }
                if k == ee {
                    assert(ks2[ks.len() as int] == k);
                }
            }
            assert forall|k: Seq<char>| #[trigger] ks.contains(k) implies after[ks2.index_of(k)].1
                == before[ks.index_of(k)].1 by {
                let x = ks.index_of(k);
                assert(ks[x] == k);
            }
            assert(map_of(after) =~= map_of(before).insert(ee, n));
        }
    }
}

/// Whether entry `i` of `es` is shown before entry `j`.
pub open spec fn entry_before(es: Seq<(Seq<char>, u32)>, i: int, j: int) -> bool {
    es[i].1 > es[j].1 || (es[i].1 == es[j].1 && text_before(es[i].0, es[j].0))
}

/// [`entry_before`] is a strict order deciding every pair of entries with
/// different emoji.
proof fn lemma_entry_order(es: Seq<(Seq<char>, u32)>, i: int, j: int, k: int)
    ensures
        !entry_before(es, i, i),
        entry_before(es, i, j) ==> !entry_before(es, j, i),
        entry_before(es, i, j) && entry_before(es, j, k) ==> entry_before(es, i, k),
        es[i].0 != es[j].0 ==> entry_before(es, i, j) || entry_before(es, j, i),
{
    lemma_text_strict(es[i].0, es[j].0);
    lemma_text_strict(es[i].0, es[i].0);
    lemma_text_total(es[i].0, es[j].0);
    if es[i].1 == es[j].1 && es[j].1 == es[k].1 && text_before(es[i].0, es[j].0) && text_before(
        es[j].0,
        es[k].0,
    ) {
        lemma_text_transitive(es[i].0, es[j].0, es[k].0);
    }
}

/// The entry not yet `taken` that is shown first.
fn first_left(counts: &Vec<(String, u32)>, taken: &Vec<bool>) -> (b: usize)
    requires
        taken@.len() == counts@.len(),
        exists|j: int| 0 <= j < counts@.len() && !taken@[j],
        keys_of(counts@.map_values(|e: (String, u32)| (e.0@, e.1))).no_duplicates(),
    ensures
        b < counts@.len(),
        !taken@[b as int],
        forall|j: int|
            0 <= j < counts@.len() && !taken@[j] && j != b ==> entry_before(
                counts@.map_values(|e: (String, u32)| (e.0@, e.1)),
                b as int,
                j,
            ),
{
    let ghost es = counts@.map_values(|e: (String, u32)| (e.0@, e.1));
    let mut best: Option<usize> = None;
    let mut best_text: Vec<char> = Vec::new();
    let mut i: usize = 0;
    while i < counts.len()
        invariant
            es == counts@.map_values(|e: (String, u32)| (e.0@, e.1)),
            keys_of(es).no_duplicates(),
            taken@.len() == counts@.len(),
            i <= counts@.len(),
            exists|j: int| 0 <= j < counts@.len() && !taken@[j],
            match best {
                Some(b) => b < i && !taken@[b as int] && best_text@ == es[b as int].0 && forall|
                    j: int,
                |
                    0 <= j < i && !taken@[j] && j != b ==> entry_before(es, b as int, j),
                None => forall|j: int| 0 <= j < i ==> taken@[j],
            },
        decreases counts@.len() - i,
    {
        if !taken[i] {
            let here = chars_of(counts[i].0.as_str());
            match best {
                None => {
                    best = Some(i);
                    best_text = here;
                },
                Some(b) => {
                    let earlier = counts[i].1 > counts[b].1 || (counts[i].1 == counts[b].1
                        && text_less(&here, &best_text));
                    if earlier {
                        proof {
                            assert(entry_before(es, i as int, b as int));
                            assert forall|j: int|
                                0 <= j < i + 1 && !taken@[j] && j != i implies entry_before(
                                es,
                                i as int,
                                j,
                            ) by {
                                lemma_entry_order(es, i as int, b as int, j);
                            }
                        }
                        best = Some(i);
                        best_text = here;
                    } else {
                        proof {
                            assert(keys_of(es)[i as int] != keys_of(es)[b as int]);
                            lemma_entry_order(es, b as int, i as int, b as int);
                        }
                    }
                },
            }
        }
        i = i + 1;
    }
    match best {
        Some(b) => b,
        None => 0,
    }
}

impl Frequent {
    /// The `n` most sent, most first; ties by the emoji string so the order
    /// is the same from one frame to the next.
    pub fn top(&self, n: usize) -> (r: Vec<String>)
        ensures
            r@.len() == (if n < self.view().dom().len() {
                n as nat
            } else {
                self.view().dom().len()
            }),
            leads(self.view(), r@.map_values(|s: String| s@)),
    {
        proof {
            use_type_invariant(self);
            self.lemma_finite();
        }
        let ghost es = self.entries();
        let ghost m = self.view();
        let mut taken: Vec<bool> = Vec::new();
        let mut j: usize = 0;
        while j < self.counts.len()
            invariant
                j <= self.counts@.len(),
                taken@.len() == j,
                forall|q: int| 0 <= q < j ==> !taken@[q],
            decreases self.counts@.len() - j,
        {
            taken.push(false);
            j = j + 1;
        }
        let mut out: Vec<String> = Vec::new();
        let ghost mut idx: Seq<int> = Seq::empty();
        while out.len() < n && out.len() < self.counts.len()
            invariant
                es == self.entries(),
                es == self.counts@.map_values(|e: (String, u32)| (e.0@, e.1)),
                keys_of(es).no_duplicates(),
                taken@.len() == es.len(),
                out@.len() == idx.len(),
                out@.len() <= n,
                out@.len() <= es.len(),
                forall|k: int| 0 <= k < idx.len() ==> 0 <= #[trigger] idx[k] < es.len(),
                forall|a: int, b: int| 0 <= a < b < idx.len() ==> entry_before(es, idx[a], idx[b]),
                forall|q: int, k: int|
                    0 <= q < es.len() && 0 <= k < idx.len() && !idx.contains(q) ==> entry_before(
                        es,
                        idx[k],
                        q,
                    ),
                forall|q: int| 0 <= q < es.len() ==> (taken@[q] <==> idx.contains(q)),
                forall|a: int, b: int| 0 <= a < b < idx.len() ==> idx[a] != idx[b],
                forall|k: int| 0 <= k < idx.len() ==> out@[k]@ == es[idx[k]].0,
            decreases es.len() - out@.len(),
        {
            proof {
                if forall|q: int| 0 <= q < es.len() ==> taken@[q] {
                    crate::presence::lemma_all_taken(es.len(), idx);
                }
            }
            let b = first_left(&self.counts, &taken);
            let ghost oidx = idx;
            proof {
                let nidx = idx.push(b as int);
                assert forall|a: int, e: int| 0 <= a < e < nidx.len() implies entry_before(
                    es,
                    nidx[a],
                    nidx[e],
                ) by {
                    if e == nidx.len() - 1 {
                        assert(!idx.contains(b as int));
                    }
                }
                assert forall|q: int, k: int|
                    0 <= q < es.len() && 0 <= k < nidx.len() && !nidx.contains(q) implies entry_before(
                    es,
                    nidx[k],
                    q,
                ) by {
                    if idx.contains(q) {
                        let w = choose|w: int| 0 <= w < idx.len() && idx[w] == q;
                        assert(nidx[w] == q);
                    }
                    assert(nidx[nidx.len() - 1] == b);
                    if k == nidx.len() - 1 {
                        assert(!taken@[q]);
                        assert(q != b);
                    }
                }
                assert forall|a: int, e: int| 0 <= a < e < nidx.len() implies nidx[a] != nidx[e] by {
                    if e == nidx.len() - 1 {
                        assert(!idx.contains(b as int));
                        assert(idx.contains(nidx[a]));
                    }
                }
                idx = nidx;
            }
            let ghost before = taken@;
            assert(idx == oidx.push(b as int));
            taken.set(b, true);
            out.push(copy_str(self.counts[b].0.as_str()));
            proof {
                assert forall|q: int| 0 <= q < es.len() implies (taken@[q] <==> idx.contains(q)) by {
                    if q == b {
                        assert(idx[idx.len() - 1] == q);
                    } else {
                        assert(taken@[q] == before[q]);
                        if idx.contains(q) {
                            let k = choose|k: int| 0 <= k < idx.len() && idx[k] == q;
                            assert(k < idx.len() - 1);
                            assert(oidx[k] == q);
                        }
                        if oidx.contains(q) {
                            let k = choose|k: int| 0 <= k < oidx.len() && oidx[k] == q;
                            assert(idx[k] == q);
                        }
                    }
                }
            }
        }
        proof {
            let rv = out@.map_values(|s: String| s@);
            let ks = keys_of(es);
            assert forall|k: int| 0 <= k < idx.len() implies m[es[idx[k]].0] == es[idx[k]].1 by {
                lemma_index_of_unique(ks, idx[k]);
            }
            assert forall|i: int| 0 <= i < rv.len() implies m.dom().contains(#[trigger] rv[i]) by {
                assert(ks[idx[i]] == rv[i]);
            }
            assert forall|a: int, b: int| 0 <= a < b < rv.len() implies ranks_before(m, rv[a], rv[b]) by {
                assert(rv[a] == es[idx[a]].0);
                assert(rv[b] == es[idx[b]].0);
                lemma_index_of_unique(ks, idx[a]);
                lemma_index_of_unique(ks, idx[b]);
                assert(entry_before(es, idx[a], idx[b]));
            }
            assert forall|k: Seq<char>, i: int|
                m.dom().contains(k) && !rv.contains(k) && 0 <= i < rv.len() implies ranks_before(m, rv[i], k) by {
                let q = ks.index_of(k);
                assert(ks[q] == k);
                lemma_index_of_unique(ks, q);
                if idx.contains(q) {
                    let w = choose|w: int| 0 <= w < idx.len() && idx[w] == q;
                    assert(rv[w] == k);
                }
                assert(entry_before(es, idx[i], q));
                assert(rv[i] == es[idx[i]].0);
                lemma_index_of_unique(ks, idx[i]);
            }
            if out@.len() < n && out@.len() >= es.len() {
                assert(out@.len() == es.len());
            }
        }
        out
    }
}

/// Where the first `c` in `s` is; its length when there is none.
pub open spec fn find_char(s: Seq<char>, c: char) -> int
    decreases s.len(),
{
    if s.len() == 0 {
        0
    } else if s[0] == c {
        0
    } else {
        1 + find_char(s.drop_first(), c)
    }
}

/// [`find_char`] is a position in `s`, or its length.
pub proof fn lemma_find_char(s: Seq<char>, c: char)
    ensures
        0 <= find_char(s, c) <= s.len(),
        find_char(s, c) < s.len() ==> s[find_char(s, c)] == c,
        forall|i: int| 0 <= i < find_char(s, c) ==> s[i] != c,
    decreases s.len(),
{
    if s.len() > 0 && s[0] != c {
        lemma_find_char(s.drop_first(), c);
        assert forall|i: int| 0 <= i < find_char(s, c) implies s[i] != c by {
            if i > 0 {
                assert(s[i] == s.drop_first()[i - 1]);
            }
        }
        if find_char(s, c) < s.len() {
            assert(s[find_char(s, c)] == s.drop_first()[find_char(s, c) - 1]);
        }
    }
}

/// Whether every character of `d` is an ASCII digit.
pub open spec fn all_digits(d: Seq<char>) -> bool {
    forall|i: int| 0 <= i < d.len() ==> '0' <= #[trigger] d[i] <= '9'
}

/// The number the ASCII digits `d` write, most significant first.
pub open spec fn digits_value(d: Seq<char>) -> nat
    decreases d.len(),
{
    if d.len() == 0 {
        0
    } else {
        digits_value(d.drop_last()) * 10 + ((d.last() as int - 48) as nat)
    }
}

/// What `u32`'s `from_str` makes of `s`: an optional `+`, then one digit
/// or more, of a value that fits.
pub open spec fn u32_of(s: Seq<char>) -> Option<u32> {
    let d = if s.len() > 0 && s[0] == '+' {
        s.drop_first()
    } else {
        s
    };
    if d.len() > 0 && all_digits(d) && digits_value(d) <= u32::MAX {
        Some(digits_value(d) as u32)
    } else {
        None
    }
}

/// What one line says: `count<TAB>emoji`, each trimmed, the emoji not
/// empty. `None` for a line that is not that.
pub open spec fn line_entry(l: Seq<char>) -> Option<(Seq<char>, u32)> {
    let j = find_char(l, '\t');
    if j >= l.len() {
        None
    } else {
        let e = trim(l.skip(j + 1));
        match u32_of(trim(l.take(j))) {
            Some(v) => if e.len() > 0 {
                Some((e, v))
            } else {
                None
            },
            None => None,
        }
    }
}

/// The counts `m`, with what the lines of `t` say written over them, one
/// line at a time: a later line for the same emoji wins.
pub open spec fn absorb(m: Map<Seq<char>, u32>, t: Seq<char>) -> Map<Seq<char>, u32>
    decreases t.len(),
{
    let j = find_char(t, '\n');
    let m2 = match line_entry(t.take(j)) {
        Some(e) => m.insert(e.0, e.1),
        None => m,
    };
    if j >= t.len() {
        m2
    } else {
        proof {
            lemma_find_char(t, '\n');
        }
        absorb(m2, t.skip(j + 1))
    }
}

/// What `v[lo..hi]` is as a `u32`.
fn parse_u32(v: &Vec<char>, lo: usize, hi: usize) -> (r: Option<u32>)
    requires
        lo <= hi <= v@.len(),
    ensures
        r == u32_of(v@.subrange(lo as int, hi as int)),
{
    let ghost s = v@.subrange(lo as int, hi as int);
    let mut start = lo;
    if lo < hi && v[lo] == '+' {
        start = lo + 1;
    }
    let ghost d = v@.subrange(start as int, hi as int);
    assert(d == (if s.len() > 0 && s[0] == '+' {
        s.drop_first()
    } else {
        s
    }));
    if start == hi {
        return None;
    }
    let mut acc: u64 = 0;
    let mut i = start;
    while i < hi
        invariant
            lo <= start <= i <= hi <= v@.len(),
            d == v@.subrange(start as int, hi as int),
            s == v@.subrange(lo as int, hi as int),
            d == (if s.len() > 0 && s[0] == '+' {
                s.drop_first()
            } else {
                s
            }),
            all_digits(v@.subrange(start as int, i as int)),
            acc == (if digits_value(v@.subrange(start as int, i as int)) <= u32::MAX {
                digits_value(v@.subrange(start as int, i as int))
            } else {
                u32::MAX as nat + 1
            }),
        decreases hi - i,
    {
        let c = v[i];
        if !('0' <= c && c <= '9') {
            assert(d[i - start] == c);
            assert(!all_digits(d));
            return None;
        }
        let dg = (c as u64) - 48;
        let ghost pre = v@.subrange(start as int, i as int);
        let ghost next = v@.subrange(start as int, i + 1);
        assert(next.drop_last() =~= pre);
        assert(digits_value(next) == digits_value(pre) * 10 + dg);
        if acc > u32::MAX as u64 {
            assert(digits_value(next) >= digits_value(pre)) by (nonlinear_arith)
                requires
                    digits_value(next) == digits_value(pre) * 10 + dg,
            ;
        } else {
            let grown = acc * 10 + dg;
            if grown > u32::MAX as u64 {
                acc = u32::MAX as u64 + 1;
            } else {
                acc = grown;
            }
        }
        assert(all_digits(next)) by {
            assert forall|k: int| 0 <= k < next.len() implies '0' <= #[trigger] next[k] <= '9' by {
                if k < pre.len() {
                    assert(next[k] == pre[k]);
                }
            }
        }
        i = i + 1;
    }
    if acc > u32::MAX as u64 {
        None
    } else {
        Some(acc as u32)
    }
}

impl Frequent {
    /// What a line `v[lo..hi]` says, written over the counts.
    fn absorb_line(&mut self, v: &Vec<char>, lo: usize, hi: usize)
        requires
            lo <= hi <= v@.len(),
        ensures
            final(self).view() == match line_entry(v@.subrange(lo as int, hi as int)) {
                Some(e) => old(self).view().insert(e.0, e.1),
                None => old(self).view(),
            },
    {
        let ghost l = v@.subrange(lo as int, hi as int);
        let mut j = lo;
        while j < hi && v[j] != '\t'
            invariant
                lo <= j <= hi <= v@.len(),
                forall|k: int| lo <= k < j ==> v@[k] != '\t',
            decreases hi - j,
        {
            j = j + 1;
        }
        proof {
            lemma_find_char(l, '\t');
            if find_char(l, '\t') < j - lo {
                assert(l[find_char(l, '\t')] == v@[lo + find_char(l, '\t')]);
            }
            if j < hi {
                assert(l[j - lo] == '\t');
            }
            assert(find_char(l, '\t') == j - lo);
        }
        if j == hi {
            return;
        }
        let (a, b) = trim_range(v, lo, j);
        let (c, d) = trim_range(v, j + 1, hi);
        assert(l.take(j - lo) =~= v@.subrange(lo as int, j as int));
        assert(l.skip(j - lo + 1) =~= v@.subrange(j + 1, hi as int));
        match parse_u32(v, a, b) {
            Some(n) => {
                if c < d {
                    let e = string_of(v, c, d);
                    let ev = chars_of(e.as_str());
                    proof {
                        use_type_invariant(&*self);
                    }
                    match self.find(&ev) {
                        Some(i) => {
                            assert(keys_of(self.entries())[i as int] == e@);
                            self.set_at(i, n);
                        },
                        None => {
                            self.append(e, n);
                        },
                    }
                }
            },
            None => {},
        }
    }

    /// The counts a text of `count<TAB>emoji` lines says; a line that is
    /// not that is skipped, and a later line for the same emoji wins.
    pub fn from_text(text: &str) -> (f: Frequent)
        ensures
            f.view() == absorb(Map::empty(), text@),
    {
        let v = chars_of(text);
        let mut f = Frequent::in_memory();
        let mut lo: usize = 0;
        assert(v@.skip(0) =~= v@);
        loop
            invariant
                lo <= v@.len(),
                v@ == text@,
                absorb(Map::empty(), text@) == absorb(f.view(), v@.skip(lo as int)),
            decreases v@.len() - lo,
        {
            let ghost rest = v@.skip(lo as int);
            let mut j = lo;
            while j < v.len() && v[j] != '\n'
                invariant
                    lo <= j <= v@.len(),
                    forall|k: int| lo <= k < j ==> v@[k] != '\n',
                decreases v@.len() - j,
            {
                j = j + 1;
            }
            proof {
                lemma_find_char(rest, '\n');
                if find_char(rest, '\n') < j - lo {
                    assert(rest[find_char(rest, '\n')] == v@[lo + find_char(rest, '\n')]);
                }
                if j < v@.len() {
                    assert(rest[j - lo] == '\n');
                }
                assert(find_char(rest, '\n') == j - lo);
                assert(rest.take(j - lo) =~= v@.subrange(lo as int, j as int));
            }
            f.absorb_line(&v, lo, j);
            if j == v.len() {
                return f;
            }
            assert(rest.skip(j - lo + 1) =~= v@.skip(j + 1));
            lo = j + 1;
        }
    }
}

/// One line of the text: the count, a tab, the emoji, a newline.
pub open spec fn line_of(m: Map<Seq<char>, u32>, k: Seq<char>) -> Seq<char> {
    decimal(m[k] as nat) + seq!['\t'] + k + seq!['\n']
}

/// The lines for `ks`, in order.
pub open spec fn text_of(m: Map<Seq<char>, u32>, ks: Seq<Seq<char>>) -> Seq<char>
    decreases ks.len(),
{
    if ks.len() == 0 {
        Seq::empty()
    } else {
        text_of(m, ks.drop_last()) + line_of(m, ks.last())
    }
}

impl Frequent {
    /// The counts as text: `count<TAB>emoji` per line, the most sent first
    /// and ties by the emoji, as [`Frequent::top`] orders them.
    pub fn to_text(&self) -> (t: String)
        ensures
            exists|r: Seq<Seq<char>>|
                #[trigger] leads(self.view(), r) && r.len() == self.view().dom().len() && t@
                    == text_of(self.view(), r),
    {
        let all = self.top(self.counts.len());
        proof {
            use_type_invariant(self);
            self.lemma_finite();
        }
        let ghost m = self.view();
        let ghost r = all@.map_values(|s: String| s@);
        let mut t = String::new();
        let mut i: usize = 0;
        while i < all.len()
            invariant
                i <= all@.len(),
                r == all@.map_values(|s: String| s@),
                leads(m, r),
                m == self.view(),
                t@ == text_of(m, r.take(i as int)),
            decreases all@.len() - i,
        {
            assert(r.take(i + 1).drop_last() =~= r.take(i as int));
            assert(r.take(i + 1).last() == all@[i as int]@);
            assert(m.dom().contains(r[i as int]));
            let k = &all[i];
            let n = self.count_of(k.as_str());
            push_decimal(&mut t, n as u64);
            push_char(&mut t, '\t');
            push_str(&mut t, k.as_str());
            push_char(&mut t, '\n');
            assert(t@ =~= text_of(m, r.take(i as int)) + line_of(m, all@[i as int]@));
            i = i + 1;
        }
        assert(r.take(all@.len() as int) =~= r);
        t
    }

    /// How many of `e` have been sent; nought when none.
    pub fn count_of(&self, e: &str) -> (n: u32)
        ensures
            self.view().dom().contains(e@) ==> n == self.view()[e@],
            !self.view().dom().contains(e@) ==> n == 0,
    {
        let ev = chars_of(e);
        match self.find(&ev) {
            Some(i) => {
                assert(keys_of(self.entries())[i as int] == e@);
                self.counts[i].1
            },
            None => {
                assert(!self.view().dom().contains(e@));
                0
            },
        }
    }
}

/// An emoji that survives being written out and read back: not empty, no
/// line break in it, and nothing at either end that a trim would take.
pub open spec fn clean(k: Seq<char>) -> bool {
    k.len() > 0 && trim(k) == k && !k.contains('\n')
}

/// What writing `m`'s counts for `r` over `acc` gives, the first first.
pub open spec fn inserts(acc: Map<Seq<char>, u32>, m: Map<Seq<char>, u32>, r: Seq<Seq<char>>) -> Map<Seq<char>, u32>
    decreases r.len(),
{
    if r.len() == 0 {
        acc
    } else {
        inserts(acc.insert(r[0], m[r[0]]), m, r.drop_first())
    }
}

/// A character missing from `a` is found in `a + b` where it is in `b`.
proof fn lemma_find_past(a: Seq<char>, b: Seq<char>, c: char)
    requires
        !a.contains(c),
    ensures
        find_char(a + b, c) == a.len() + find_char(b, c),
    decreases a.len(),
{
    if a.len() > 0 {
        assert((a + b).drop_first() =~= a.drop_first() + b);
        assert(!a.drop_first().contains(c)) by {
            if a.drop_first().contains(c) {
                let i = choose|i: int| 0 <= i < a.drop_first().len() && a.drop_first()[i] == c;
                assert(a[i + 1] == c);
            }
        }
        assert(a[0] != c);
        lemma_find_past(a.drop_first(), b, c);
    } else {
        assert(a + b =~= b);
    }
}

/// The decimal digits of `n` are digits, at least one, and say `n`.
proof fn lemma_decimal(n: nat)
    ensures
        decimal(n).len() > 0,
        all_digits(decimal(n)),
        digits_value(decimal(n)) == n,
    decreases n,
{
    let dg = digit(n % 10);
    assert(dg as int - 48 == n % 10);
    if n < 10 {
        assert(decimal(n).drop_last() =~= Seq::<char>::empty());
        assert(decimal(n).last() == dg);
        assert(digits_value(decimal(n)) == digits_value(Seq::<char>::empty()) * 10 + ((dg as int
            - 48) as nat));
    }
    if n >= 10 {
        lemma_decimal(n / 10);
        assert(decimal(n).drop_last() =~= decimal(n / 10));
        assert(decimal(n).last() == dg);
        assert(n == (n / 10) * 10 + n % 10);
        assert(digits_value(decimal(n)) == digits_value(decimal(n / 10)) * 10 + ((dg as int
            - 48) as nat));
        assert forall|i: int| 0 <= i < decimal(n).len() implies '0' <= #[trigger] decimal(n)[i] <= '9' by {
            if i < decimal(n / 10).len() {
                assert(decimal(n)[i] == decimal(n / 10)[i]);
            }
        }
    }
}

/// Digits hold no whitespace, tab or line break, so trimming keeps them.
proof fn lemma_digits_plain(d: Seq<char>)
    requires
        d.len() > 0,
        all_digits(d),
    ensures
        trim(d) == d,
        !d.contains('\t'),
        !d.contains('\n'),
        d[0] != '+',
{
    assert('0' <= d[0] <= '9');
    assert('0' <= d.last() <= '9');
    assert(crate::text::trim_start(d) == d);
    assert(crate::text::trim_end(d) == d);
    assert(!d.contains('\t')) by {
        if d.contains('\t') {
            let i = choose|i: int| 0 <= i < d.len() && d[i] == '\t';
            assert('0' <= d[i] <= '9');
        }
    }
    assert(!d.contains('\n')) by {
        if d.contains('\n') {
            let i = choose|i: int| 0 <= i < d.len() && d[i] == '\n';
            assert('0' <= d[i] <= '9');
        }
    }
}

/// Reading one line written for a clean emoji writes its count, and goes
/// on with what follows.
proof fn lemma_read_line(acc: Map<Seq<char>, u32>, m: Map<Seq<char>, u32>, k: Seq<char>, x: Seq<char>)
    requires
        clean(k),
    ensures
        absorb(acc, line_of(m, k) + x) == absorb(acc.insert(k, m[k]), x),
{
    let d = decimal(m[k] as nat);
    lemma_decimal(m[k] as nat);
    lemma_digits_plain(d);
    let l = d + seq!['\t'] + k;
    let t = line_of(m, k) + x;
    assert(t =~= l + (seq!['\n'] + x));
    assert(!l.contains('\n')) by {
        if l.contains('\n') {
            let i = choose|i: int| 0 <= i < l.len() && l[i] == '\n';
            if i < d.len() {
                assert(d[i] == '\n');
            } else if i > d.len() {
                assert(k[i - d.len() - 1] == '\n');
            }
        }
    }
    lemma_find_past(l, seq!['\n'] + x, '\n');
    assert(find_char(t, '\n') == l.len());
    assert(t.take(l.len() as int) =~= l);
    assert(t.skip(l.len() as int + 1) =~= x);
    assert(l =~= d + (seq!['\t'] + k));
    lemma_find_past(d, seq!['\t'] + k, '\t');
    assert(find_char(l, '\t') == d.len());
    assert(l.take(d.len() as int) =~= d);
    assert(l.skip(d.len() as int + 1) =~= k);
    assert(u32_of(d) == Some(m[k]));
    assert(line_entry(l) == Some((k, m[k])));
}

/// Reading the text written for clean `r` writes each of their counts, in
/// order.
proof fn lemma_read_all(acc: Map<Seq<char>, u32>, m: Map<Seq<char>, u32>, r: Seq<Seq<char>>)
    requires
        forall|i: int| 0 <= i < r.len() ==> clean(#[trigger] r[i]),
    ensures
        absorb(acc, text_of(m, r)) == inserts(acc, m, r),
    decreases r.len(),
{
    if r.len() == 0 {
        assert(find_char(Seq::<char>::empty(), '\n') == 0);
        assert(Seq::<char>::empty().take(0) =~= Seq::<char>::empty());
        assert(find_char(Seq::<char>::empty(), '\t') == 0);
    } else {
        lemma_text_front(m, r);
        lemma_read_line(acc, m, r[0], text_of(m, r.drop_first()));
        lemma_read_all(acc.insert(r[0], m[r[0]]), m, r.drop_first());
    }
}

/// The text for `r` is the line for its first, then the rest.
proof fn lemma_text_front(m: Map<Seq<char>, u32>, r: Seq<Seq<char>>)
    requires
        r.len() > 0,
    ensures
        text_of(m, r) == line_of(m, r[0]) + text_of(m, r.drop_first()),
    decreases r.len(),
{
    if r.len() == 1 {
        assert(r.drop_last().len() == 0);
        assert(r.drop_first().len() == 0);
        assert(text_of(m, r.drop_last()) == Seq::<char>::empty());
        assert(text_of(m, r.drop_first()) == Seq::<char>::empty());
        assert(r.last() == r[0]);
        assert(text_of(m, r) =~= line_of(m, r[0]));
    } else {
        lemma_text_front(m, r.drop_last());
        assert(r.drop_last().drop_first() =~= r.drop_first().drop_last());
        assert(r.drop_last()[0] == r[0]);
        assert(r.drop_first().last() == r.last());
    }
}

/// What [`inserts`] gives: the counts of `m` for the emoji of `r`, the
/// rest as `acc` had them.
proof fn lemma_inserts(acc: Map<Seq<char>, u32>, m: Map<Seq<char>, u32>, r: Seq<Seq<char>>)
    ensures
        forall|k: Seq<char>| #[trigger] inserts(acc, m, r).dom().contains(k) == (acc.dom().contains(k) || r.contains(k)),
        forall|k: Seq<char>| r.contains(k) ==> #[trigger] inserts(acc, m, r)[k] == m[k],
        forall|k: Seq<char>| !r.contains(k) && acc.dom().contains(k) ==> #[trigger] inserts(acc, m, r)[k] == acc[k],
    decreases r.len(),
{
    if r.len() > 0 {
        let rest = r.drop_first();
        let acc2 = acc.insert(r[0], m[r[0]]);
        lemma_inserts(acc2, m, rest);
        assert(inserts(acc, m, r) == inserts(acc2, m, rest));
        assert forall|k: Seq<char>| r.contains(k) == (k == r[0] || rest.contains(k)) by {
            if r.contains(k) {
                let i = choose|i: int| 0 <= i < r.len() && r[i] == k;
                if i > 0 {
                    assert(rest[i - 1] == k);
                }
            }
            if rest.contains(k) {
                let i = choose|i: int| 0 <= i < rest.len() && rest[i] == k;
                assert(r[i + 1] == k);
            }
        }
    }
}

/// **What is written is what is read back.** The counts written out as
/// text, in any order that lists each emoji once, read back as the same
/// counts -- for emoji that are not empty, hold no line break and have
/// nothing at either end that a trim would take.
pub proof fn law_counts_round_trip(m: Map<Seq<char>, u32>, r: Seq<Seq<char>>)
    requires
        r.no_duplicates(),
        r.to_set() == m.dom(),
        forall|k: Seq<char>| m.dom().contains(k) ==> clean(k),
    ensures
        absorb(Map::empty(), text_of(m, r)) == m,
{
    assert forall|i: int| 0 <= i < r.len() implies clean(#[trigger] r[i]) by {
        assert(r.to_set().contains(r[i]));
    }
    lemma_read_all(Map::empty(), m, r);
    lemma_inserts(Map::empty(), m, r);
    assert(inserts(Map::empty(), m, r) =~= m) by {
        assert forall|k: Seq<char>| #[trigger] m.dom().contains(k) == r.contains(k) by {
            assert(r.to_set().contains(k) == r.contains(k));
        }
    }
}


/// No emoji ranks before itself, and of two, at most one ranks first.
proof fn lemma_ranks_strict(m: Map<Seq<char>, u32>, a: Seq<char>, b: Seq<char>)
    ensures
        !ranks_before(m, a, a),
        !(ranks_before(m, a, b) && ranks_before(m, b, a)),
{
    lemma_text_strict(a, b);
    lemma_text_strict(a, a);
}

/// **The most sent are one list.** However the counts were come by -- kept
/// here, or read back from the file they were written to -- the same counts
/// give the same `k` most sent, in the same order: two lists that each
/// [`leads`] the counts, as long as each other, are the same list.
pub proof fn law_top_is_the_counts(m: Map<Seq<char>, u32>, r1: Seq<Seq<char>>, r2: Seq<Seq<char>>)
    requires
        leads(m, r1),
        leads(m, r2),
        r1.len() == r2.len(),
    ensures
        r1 == r2,
{
    assert forall|i: int| 0 <= i < r1.len() implies r1[i] == r2[i] by {
        lemma_leads_agree(m, r1, r2, i);
    }
    assert(r1 =~= r2);
}

/// Two lists that lead the same counts agree up to and at `i`.
proof fn lemma_leads_agree(m: Map<Seq<char>, u32>, r1: Seq<Seq<char>>, r2: Seq<Seq<char>>, i: int)
    requires
        leads(m, r1),
        leads(m, r2),
        r1.len() == r2.len(),
        0 <= i < r1.len(),
    ensures
        forall|k: int| 0 <= k <= i ==> r1[k] == r2[k],
    decreases i,
{
    if i > 0 {
        lemma_leads_agree(m, r1, r2, i - 1);
    }
    let a = r1[i];
    let b = r2[i];
    if a != b {
        // `a` stands in `r2` only after `i`, or not at all; either way `b`
        // ranks before it. And the other way round.
        assert(ranks_before(m, b, a)) by {
            if r2.contains(a) {
                let j = choose|j: int| 0 <= j < r2.len() && r2[j] == a;
                if j < i {
                    assert(r1[j] == r2[j]);
                    lemma_ranks_strict(m, a, a);
                    assert(ranks_before(m, r1[j], r1[i]));
                } else {
                    assert(j != i);
                }
            }
        }
        assert(ranks_before(m, a, b)) by {
            if r1.contains(b) {
                let j = choose|j: int| 0 <= j < r1.len() && r1[j] == b;
                if j < i {
                    assert(r1[j] == r2[j]);
                    lemma_ranks_strict(m, b, b);
                    assert(ranks_before(m, r2[j], r2[i]));
                } else {
                    assert(j != i);
                }
            }
        }
        lemma_ranks_strict(m, a, b);
    }
}


/// **The counts survive the file.** What [`Frequent::to_text`] writes of
/// counts -- every emoji, most sent first -- reads back by
/// [`Frequent::from_text`] as the same counts, for emoji that are not
/// empty, hold no line break and have nothing at either end that a trim
/// would take; so the most sent read back are the most sent written, by
/// [`law_top_is_the_counts`].
pub proof fn law_written_counts_read_back(m: Map<Seq<char>, u32>, r: Seq<Seq<char>>)
    requires
        m.dom().finite(),
        leads(m, r),
        r.len() == m.dom().len(),
        forall|k: Seq<char>| m.dom().contains(k) ==> clean(k),
    ensures
        absorb(Map::empty(), text_of(m, r)) == m,
{
    assert(r.no_duplicates()) by {
        assert forall|i: int, j: int| 0 <= i < r.len() && 0 <= j < r.len() && i != j implies r[i]
            != r[j] by {
            lemma_ranks_strict(m, r[i], r[j]);
        }
    }
    r.unique_seq_to_set();
    assert(r.to_set().subset_of(m.dom()));
    vstd::set_lib::lemma_subset_equality(r.to_set(), m.dom());
    law_counts_round_trip(m, r);
}

} // verus!

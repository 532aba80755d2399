//! The composer's half of a mention: what `@` means while typing, who it
//! could mean, and which of the names in the box still stand when it is
//! sent.
//!
//! **The text carries names; the message carries keys.** Choosing somebody
//! puts `@Their-Name ` into the box as ordinary text, readable by every
//! client, and remembers the key beside the label. At send time each label
//! still present in the text becomes a mention with its key -- and one that
//! was deleted from the box is not sent, because the box is what the person
//! sees.

use vstd::prelude::*;

use crate::key::{Key, has_key, key_before, key_less, lemma_key_order, same_key};
use crate::order::{lemma_text_strict, lemma_text_total, lemma_text_transitive, text_before, text_less};
use crate::text::{
    char_is_alphanumeric, char_is_ws, chars_of, find_ws, has_ws, is_ws, lemma_first_ws, lower,
    lowercase, push_char, push_range, push_str, string_of, word_char,
};

verus! {

broadcast use vstd::string::group_string_axioms;

/// How many mentions one message may carry on the wire.
pub const MAX_MENTIONS: usize = 32;

/// Where the last `@` of `t` is; `-1` when there is none.
pub open spec fn last_at(t: Seq<char>) -> int
    decreases t.len(),
{
    if t.len() == 0 {
        -1
    } else if t.last() == '@' {
        t.len() - 1
    } else {
        last_at(t.drop_last())
    }
}

/// The `@` being typed in `t`, if it ends in one: what follows the last
/// `@`, when that `@` starts a word and nothing after it is whitespace.
pub open spec fn mention_query_of(t: Seq<char>) -> Option<Seq<char>> {
    let p = last_at(t);
    if p < 0 {
        None
    } else if !(p == 0 || is_ws(t[p - 1])) {
        None
    } else if has_ws(t.skip(p + 1)) {
        None
    } else {
        Some(t.skip(p + 1))
    }
}

/// The last `@` of `v`, as [`last_at`] finds it.
pub(crate) fn rfind_at(v: &Vec<char>) -> (r: Option<usize>)
    ensures
        match r {
            Some(p) => p == last_at(v@) && p < v@.len(),
            None => last_at(v@) == -1,
        },
{
    let mut k = v.len();
    assert(v@.take(k as int) =~= v@);
    while k > 0
        invariant
            k <= v@.len(),
            last_at(v@) == last_at(v@.take(k as int)),
        decreases k,
    {
        if v[k - 1] == '@' {
            return Some(k - 1);
        }
        assert(v@.take(k as int).drop_last() =~= v@.take(k - 1));
        k = k - 1;
    }
    None
}

/// The `@` being typed, if the text ends in one: the characters after it.
/// `"hi @Ad"` is `Some("Ad")`, `"@"` is `Some("")`, `"a@b.c"` is `None` --
/// an `@` inside a word is an address, not a mention.
pub fn mention_query(text: &str) -> (r: Option<String>)
    ensures
        r matches Some(q) ==> mention_query_of(text@) == Some(q@),
        r is None ==> mention_query_of(text@) is None,
{
    let v = chars_of(text);
    let p = match rfind_at(&v) {
        Some(p) => p,
        None => return None,
    };
    if !(p == 0 || char_is_ws(v[p - 1])) {
        return None;
    }
    let j = find_ws(&v, p + 1, v.len());
    proof {
        lemma_first_ws(v@.subrange(p + 1, v@.len() as int));
        assert(v@.subrange(p + 1, v@.len() as int) =~= v@.skip(p + 1));
    }
    if j < v.len() {
        return None;
    }
    Some(string_of(&v, p + 1, v.len()))
}

/// What completing a mention of `label` makes of `t`.
pub open spec fn completed(t: Seq<char>, label: Seq<char>) -> Seq<char> {
    let kept = if last_at(t) >= 0 {
        t.take(last_at(t))
    } else {
        t
    };
    kept.push('@') + label + seq![' ']
}

/// Put `@label ` in place of the `@query` being typed.
pub fn complete_mention(text: &mut String, label: &str)
    ensures
        final(text)@ == completed(old(text)@, label@),
{
    let v = chars_of(text.as_str());
    let end = match rfind_at(&v) {
        Some(p) => p,
        None => v.len(),
    };
    assert(v@.take(v@.len() as int) =~= v@);
    let mut out = string_of(&v, 0, end);
    assert(v@.subrange(0, end as int) =~= v@.take(end as int));
    push_char(&mut out, '@');
    push_str(&mut out, label);
    push_char(&mut out, ' ');
    *text = out;
}

/// Whether `label`, after an `@`, stands in `t` at `p` as a whole word:
/// at the start or after whitespace, and not followed by a letter or digit.
pub open spec fn stands_at(t: Seq<char>, label: Seq<char>, p: int) -> bool {
    let tok = seq!['@'] + label;
    &&& 0 <= p
    &&& p + tok.len() <= t.len()
    &&& t.subrange(p, p + tok.len()) == tok
    &&& p == 0 || is_ws(t[p - 1])
    &&& p + tok.len() == t.len() || !word_char(t[p + tok.len()])
}

/// Whether `@label` stands anywhere in `t` as a whole word.
pub open spec fn stands(t: Seq<char>, label: Seq<char>) -> bool {
    exists|p: int| stands_at(t, label, p)
}

/// Whether `tok` is in `t` at `p`.
fn occurs_at(t: &Vec<char>, tok: &Vec<char>, p: usize) -> (r: bool)
    requires
        p + tok@.len() <= t@.len(),
    ensures
        r == (t@.subrange(p as int, p + tok@.len()) == tok@),
{
    let n = t.len();
    let mut i: usize = 0;
    while i < tok.len()
        invariant
            n == t@.len(),
            p + tok@.len() <= t@.len(),
            i <= tok@.len(),
            forall|j: int| 0 <= j < i ==> t@[p + j] == tok@[j],
        decreases tok@.len() - i,
    {
        if t[p + i] != tok[i] {
            assert(t@.subrange(p as int, p + tok@.len())[i as int] != tok@[i as int]);
            return false;
        }
        i = i + 1;
    }
    assert(t@.subrange(p as int, p + tok@.len()) =~= tok@);
    true
}

/// Whether `@label` stands in the text `t` as a whole word.
fn stands_in(t: &Vec<char>, label: &str) -> (r: bool)
    ensures
        r == stands(t@, label@),
{
    let mut tok: Vec<char> = Vec::new();
    tok.push('@');
    let lv = chars_of(label);
    let mut i: usize = 0;
    while i < lv.len()
        invariant
            i <= lv@.len(),
            tok@ == seq!['@'] + lv@.take(i as int),
        decreases lv@.len() - i,
    {
        tok.push(lv[i]);
        assert(lv@.take(i + 1) =~= lv@.take(i as int).push(lv@[i as int]));
        i = i + 1;
    }
    assert(lv@.take(lv@.len() as int) =~= lv@);
    if tok.len() > t.len() {
        assert forall|p: int| !stands_at(t@, label@, p) by {}
        return false;
    }
    let n = t.len();
    let last = n - tok.len();
    let mut p: usize = 0;
    while p <= last
        invariant
            n == t@.len(),
            tok@ == seq!['@'] + label@,
            last + tok@.len() == t@.len(),
            p <= last + 1,
            forall|q: int| 0 <= q < p ==> !stands_at(t@, label@, q),
        decreases last + 1 - p,
    {
        if occurs_at(t, &tok, p) {
            let end = p + tok.len();
            let before_ok = p == 0 || char_is_ws(t[p - 1]);
            let after_ok = end == t.len() || !char_is_alphanumeric(t[end]);
            if before_ok && after_ok {
                assert(stands_at(t@, label@, p as int));
                return true;
            }
        }
        p = p + 1;
    }
    assert forall|q: int| !stands_at(t@, label@, q) by {
        if 0 <= q && q + tok@.len() <= t@.len() {
            assert(q < p);
        }
    }
    false
}

/// The keys whose labels stand in `t`, each once, in the order recorded.
pub open spec fn kept(t: Seq<char>, rec: Seq<(Seq<char>, Key)>) -> Seq<Key>
    decreases rec.len(),
{
    if rec.len() == 0 {
        Seq::empty()
    } else {
        let prev = kept(t, rec.drop_last());
        let e = rec.last();
        if !prev.contains(e.1) && stands(t, e.0) {
            prev.push(e.1)
        } else {
            prev
        }
    }
}

/// The recorded mentions as texts and keys.
pub open spec fn recorded_view(rec: Seq<(String, Key)>) -> Seq<(Seq<char>, Key)> {
    rec.map_values(|e: (String, Key)| (e.0@, e.1))
}

/// What is sent of `kept`: no more than the wire allows.
pub open spec fn capped(s: Seq<Key>) -> Seq<Key> {
    if s.len() > MAX_MENTIONS {
        s.take(MAX_MENTIONS as int)
    } else {
        s
    }
}

/// Which of the recorded mentions still stand: those whose `@label` is in
/// the text as a whole word. Each key once, and no more than the wire
/// allows -- the rest are text like any other.
pub fn mentions_in(text: &str, recorded: &[(String, Key)]) -> (r: Vec<Key>)
    ensures
        r@ == capped(kept(text@, recorded_view(recorded@))),
{
    let t = chars_of(text);
    let mut out: Vec<Key> = Vec::new();
    let mut i: usize = 0;
    while i < recorded.len()
        invariant
            i <= recorded@.len(),
            t@ == text@,
            out@ == kept(text@, recorded_view(recorded@).take(i as int)),
        decreases recorded@.len() - i,
    {
        let ghost rv = recorded_view(recorded@);
        assert(rv.take(i + 1).drop_last() =~= rv.take(i as int));
        assert(rv.take(i + 1).last() == (recorded@[i as int].0@, recorded@[i as int].1));
        let key = recorded[i].1;
        if !has_key(&out, &key) {
            if stands_in(&t, recorded[i].0.as_str()) {
                out.push(key);
            }
        }
        i = i + 1;
    }
    assert(recorded_view(recorded@).take(recorded@.len() as int) =~= recorded_view(recorded@));
    if out.len() > MAX_MENTIONS {
        out.truncate(MAX_MENTIONS);
    }
    out
}

/// Every key sent is a recorded one whose label stands in the text, and
/// none is sent twice: what is sent is what the box shows.
pub proof fn lemma_kept_stand(t: Seq<char>, rec: Seq<(Seq<char>, Key)>)
    ensures
        forall|i: int|
            0 <= i < kept(t, rec).len() ==> exists|j: int|
                0 <= j < rec.len() && rec[j].1 == #[trigger] kept(t, rec)[i] && stands(t, rec[j].0),
        forall|i: int, j: int|
            0 <= i < j < kept(t, rec).len() ==> kept(t, rec)[i] != kept(t, rec)[j],
    decreases rec.len(),
{
    if rec.len() > 0 {
        let prev = kept(t, rec.drop_last());
        lemma_kept_stand(t, rec.drop_last());
        assert forall|i: int|
            0 <= i < kept(t, rec).len() implies exists|j: int|
                0 <= j < rec.len() && rec[j].1 == #[trigger] kept(t, rec)[i] && stands(
                    t,
                    rec[j].0,
                ) by {
            if i < prev.len() {
                let j = choose|j: int|
                    0 <= j < rec.drop_last().len() && rec.drop_last()[j].1 == #[trigger] prev[i]
                        && stands(t, rec.drop_last()[j].0);
                assert(rec[j] == rec.drop_last()[j]);
            } else {
                assert(rec[rec.len() - 1] == rec.last());
            }
        }
    }
}

/// What is known of one member of the room, for offering them: the name
/// this client has for them (their name, else their handle, else their key
/// in short), their handle if they have one, and their key in short.
pub struct Known {
    pub account: Key,
    pub label: String,
    pub handle: Option<String>,
    pub short: String,
}

/// Whether `q` is somewhere in `s`.
pub open spec fn has_sub(s: Seq<char>, q: Seq<char>) -> bool {
    exists|i: int| 0 <= i && i + q.len() <= s.len() && #[trigger] s.subrange(i, i + q.len()) == q
}

/// Whether the member `k` could be what `q`, lowered, means: anything, when
/// nothing is typed yet; else their name, handle or short key holding it,
/// case aside.
pub open spec fn could_mean(k: Known, q: Seq<char>) -> bool {
    ||| q.len() == 0
    ||| has_sub(lowercase(k.label@), q)
    ||| (k.handle matches Some(h) && has_sub(lowercase(h@), q))
    ||| has_sub(lowercase(k.short@), q)
}

/// An offer: the label, lowered for ordering, and the label and key.
pub type Offer = (Seq<char>, Seq<char>, Key);

/// Whether offer `a` sorts before offer `b`: by the label lowered, then
/// by key.
pub open spec fn offer_before(a: Offer, b: Offer) -> bool {
    text_before(a.0, b.0) || (a.0 == b.0 && key_before(a.2, b.2))
}

/// `x` put after every offer in the sorted `l` that does not sort after it.
pub open spec fn offer_insert(l: Seq<Offer>, x: Offer) -> Seq<Offer>
    decreases l.len(),
{
    if l.len() == 0 {
        seq![x]
    } else if offer_before(x, l[0]) {
        seq![x] + l
    } else {
        seq![l[0]] + offer_insert(l.drop_first(), x)
    }
}

/// The members of `ms` that are not `me` and could be what `q` means, as
/// offers, in the room's order.
pub open spec fn matching(ms: Seq<Known>, me: Option<Key>, q: Seq<char>) -> Seq<Offer>
    decreases ms.len(),
{
    if ms.len() == 0 {
        Seq::empty()
    } else {
        let prev = matching(ms.drop_last(), me, q);
        let k = ms.last();
        if me != Some(k.account) && could_mean(k, q) {
            prev.push((lowercase(k.label@), k.label@, k.account))
        } else {
            prev
        }
    }
}

/// Offers sorted, stably.
pub open spec fn offers_sorted(s: Seq<Offer>) -> Seq<Offer>
    decreases s.len(),
{
    if s.len() == 0 {
        Seq::empty()
    } else {
        offer_insert(offers_sorted(s.drop_last()), s.last())
    }
}

/// Offers with a repeat of the one just before left out.
pub open spec fn deduped(s: Seq<Offer>) -> Seq<Offer>
    decreases s.len(),
{
    if s.len() == 0 {
        Seq::empty()
    } else {
        let prev = deduped(s.drop_last());
        if prev.len() > 0 && prev.last().1 == s.last().1 && prev.last().2 == s.last().2 {
            prev
        } else {
            prev.push(s.last())
        }
    }
}

/// What is offered for `query` among `members`: label and key, in order.
pub open spec fn offered(members: Seq<Known>, me: Option<Key>, query: Seq<char>) -> Seq<(Seq<char>, Key)> {
    deduped(offers_sorted(matching(members, me, lowercase(query)))).map_values(
        |o: Offer| (o.1, o.2),
    )
}

/// Whether `q` is in `s` from `i` on.
fn sub_from(s: &Vec<char>, q: &Vec<char>) -> (r: bool)
    ensures
        r == has_sub(s@, q@),
{
    if q.len() == 0 {
        assert(s@.subrange(0int, 0int + q@.len()) =~= q@);
        return true;
    }
    if q.len() > s.len() {
        return false;
    }
    let last = s.len() - q.len();
    let mut i: usize = 0;
    while i <= last
        invariant
            last + q@.len() == s@.len(),
            last + q@.len() <= usize::MAX,
            q@.len() > 0,
            i <= last + 1,
            forall|p: int| 0 <= p < i ==> #[trigger] s@.subrange(p, p + q@.len()) != q@,
        decreases last + 1 - i,
    {
        let mut j: usize = 0;
        let mut same = true;
        while j < q.len()
            invariant
                last + q@.len() == s@.len(),
                last + q@.len() <= usize::MAX,
                i <= last,
                j <= q@.len(),
                same == (forall|t: int| 0 <= t < j ==> s@[i + t] == q@[t]),
            decreases q@.len() - j,
        {
            assert(i + j < s@.len());
            if s[i + j] != q[j] {
                same = false;
            }
            j = j + 1;
        }
        if same {
            assert(s@.subrange(i as int, i + q@.len()) =~= q@);
            return true;
        }
        assert(s@.subrange(i as int, i + q@.len()) != q@) by {
            let t = choose|t: int| 0 <= t < q@.len() && s@[i + t] != q@[t];
            assert(s@.subrange(i as int, i + q@.len())[t] == s@[i + t]);
        }
        i = i + 1;
    }
    assert forall|p: int| 0 <= p && p + q@.len() <= s@.len() implies #[trigger] s@.subrange(p, p + q@.len()) != q@ by {
        assert(p < i);
    }
    false
}

/// Whether offer `a` sorts before offer `b`.
fn offer_less(a: &(Vec<char>, String, Key), b: &(Vec<char>, String, Key)) -> (r: bool)
    ensures
        r == offer_before((a.0@, a.1@, a.2), (b.0@, b.1@, b.2)),
{
    if text_less(&a.0, &b.0) {
        return true;
    }
    if text_less(&b.0, &a.0) {
        proof {
            lemma_text_strict(a.0@, b.0@);
        }
        return false;
    }
    proof {
        lemma_text_total(a.0@, b.0@);
    }
    key_less(&a.2, &b.2)
}

/// Offers as plain values.
pub open spec fn offer_views(v: Seq<(Vec<char>, String, Key)>) -> Seq<Offer> {
    v.map_values(|o: (Vec<char>, String, Key)| (o.0@, o.1@, o.2))
}

/// Who in the room `query` could mean: everybody but us whose name, handle
/// or short key holds it, case aside; by name, case aside, then by key; the
/// same name and key offered once.
pub fn candidates(query: &str, members: &[Known], me: Option<Key>) -> (r: Vec<(String, Key)>)
    ensures
        r@.map_values(|o: (String, Key)| (o.0@, o.1)) == offered(members@, me, query@),
{
    let q = lower(query);
    let qv = chars_of(q.as_str());
    let mut found: Vec<(Vec<char>, String, Key)> = Vec::new();
    let mut i: usize = 0;
    while i < members.len()
        invariant
            i <= members@.len(),
            qv@ == lowercase(query@),
            offer_views(found@) == matching(members@.take(i as int), me, qv@),
        decreases members@.len() - i,
    {
        assert(members@.take(i + 1).drop_last() =~= members@.take(i as int));
        assert(members@.take(i + 1).last() == members@[i as int]);
        let k = &members[i];
        let mine = match me {
            Some(m) => same_key(&m, &k.account),
            None => false,
        };
        if !mine {
            let ll = lower(k.label.as_str());
            let lv = chars_of(ll.as_str());
            let mut hit = qv.len() == 0 || sub_from(&lv, &qv);
            if !hit {
                if let Some(h) = &k.handle {
                    let hv = chars_of(lower(h.as_str()).as_str());
                    hit = sub_from(&hv, &qv);
                }
            }
            if !hit {
                let sv = chars_of(lower(k.short.as_str()).as_str());
                hit = sub_from(&sv, &qv);
            }
            if hit {
                let ghost fv = offer_views(found@);
                found.push((lv, k.label.clone(), k.account));
                assert(offer_views(found@) =~= fv.push((lowercase(k.label@), k.label@, k.account)));
            }
        }
        i = i + 1;
    }
    assert(members@.take(members@.len() as int) =~= members@);
    let ghost m = offer_views(found@);
    let mut sorted: Vec<(Vec<char>, String, Key)> = Vec::new();
    let mut j: usize = 0;
    while j < found.len()
        invariant
            j <= found@.len(),
            m == offer_views(found@),
            offer_views(sorted@) == offers_sorted(m.take(j as int)),
            offers_ordered(offer_views(sorted@)),
        decreases found@.len() - j,
    {
        assert(m.take(j + 1).drop_last() =~= m.take(j as int));
        assert(m.take(j + 1).last() == m[j as int]);
        let x = &found[j];
        let ghost sv = offer_views(sorted@);
        let mut p: usize = 0;
        assert(m[j as int] == (x.0@, x.1@, x.2));
        while p < sorted.len() && !offer_less(x, &sorted[p])
            invariant
                p <= sorted@.len(),
                sv == offer_views(sorted@),
                m[j as int] == (x.0@, x.1@, x.2),
                forall|t: int| 0 <= t < p ==> !offer_before(m[j as int], #[trigger] sv[t]),
            decreases sorted@.len() - p,
        {
            assert(sv[p as int] == (sorted@[p as int].0@, sorted@[p as int].1@, sorted@[p as int].2));
            p = p + 1;
        }
        if p < sorted.len() {
            assert(sv[p as int] == (sorted@[p as int].0@, sorted@[p as int].1@, sorted@[p as int].2));
        }
        proof {
            lemma_offer_insert(sv, m[j as int], p as int);
        }
        sorted.insert(p, (x.0.clone(), x.1.clone(), x.2));
        assert(offer_views(sorted@) =~= sv.insert(p as int, m[j as int]));
        j = j + 1;
    }
    assert(m.take(found@.len() as int) =~= m);
    let ghost so = offer_views(sorted@);
    let mut out: Vec<(String, Key)> = Vec::new();
    let ghost dd: Seq<Offer> = Seq::empty();
    let mut k: usize = 0;
    while k < sorted.len()
        invariant
            k <= sorted@.len(),
            so == offer_views(sorted@),
            dd == deduped(so.take(k as int)),
            out@.map_values(|o: (String, Key)| (o.0@, o.1)) == dd.map_values(|o: Offer| (o.1, o.2)),
        decreases sorted@.len() - k,
    {
        assert(so.take(k + 1).drop_last() =~= so.take(k as int));
        assert(so.take(k + 1).last() == so[k as int]);
        let e = &sorted[k];
        assert(so[k as int] == (e.0@, e.1@, e.2));
        let n = out.len();
        assert(dd.len() == n) by {
            assert(out@.map_values(|o: (String, Key)| (o.0@, o.1)).len() == n);
        }
        let mut repeat = false;
        if n > 0 {
            assert(out@.map_values(|o: (String, Key)| (o.0@, o.1))[n - 1] == (out@[n - 1].0@, out@[n - 1].1));
            assert(dd.map_values(|o: Offer| (o.1, o.2))[n - 1] == (dd[n - 1].1, dd[n - 1].2));
            assert(dd.last() == dd[n - 1]);
            if same_key(&out[n - 1].1, &e.2) {
                let a = chars_of(out[n - 1].0.as_str());
                let b = chars_of(e.1.as_str());
                proof {
                    lemma_text_total(a@, b@);
                    lemma_text_strict(a@, b@);
                }
                repeat = !text_less(&a, &b) && !text_less(&b, &a);
            }
        }
        assert(repeat == (dd.len() > 0 && dd.last().1 == so[k as int].1 && dd.last().2 == so[k as int].2));
        let ghost ov = out@.map_values(|o: (String, Key)| (o.0@, o.1));
        if !repeat {
            out.push((e.1.clone(), e.2));
            proof {
                dd = dd.push(so[k as int]);
            }
            assert(out@.map_values(|o: (String, Key)| (o.0@, o.1)) =~= ov.push((so[k as int].1, so[k as int].2)));
            assert(dd.map_values(|o: Offer| (o.1, o.2)) =~= ov.push((so[k as int].1, so[k as int].2)));
        }
        k = k + 1;
    }
    assert(so.take(sorted@.len() as int) =~= so);
    out
}

/// Whether the offers of `l` are in order: none sorts before one ahead of
/// it.
pub open spec fn offers_ordered(l: Seq<Offer>) -> bool {
    forall|a: int, b: int| 0 <= a < b < l.len() ==> !offer_before(#[trigger] l[b], #[trigger] l[a])
}

/// [`offer_before`] is a strict order: of two offers at most one sorts
/// first, it is transitive, and so is sorting no earlier.
proof fn lemma_offer_order(a: Offer, b: Offer, c: Offer)
    ensures
        !(offer_before(a, b) && offer_before(b, a)),
        offer_before(a, b) && offer_before(b, c) ==> offer_before(a, c),
        !offer_before(a, b) && !offer_before(b, c) ==> !offer_before(a, c),
{
    lemma_text_strict(a.0, b.0);
    lemma_key_order(a.2, b.2);
    lemma_text_total(a.0, b.0);
    lemma_text_total(b.0, c.0);
    lemma_text_total(a.0, c.0);
    lemma_key_order(b.2, c.2);
    lemma_key_order(a.2, c.2);
    if text_before(a.0, b.0) && text_before(b.0, c.0) {
        lemma_text_transitive(a.0, b.0, c.0);
    }
    if text_before(b.0, a.0) && text_before(a.0, c.0) {
        lemma_text_transitive(b.0, a.0, c.0);
    }
    if text_before(b.0, c.0) && text_before(c.0, a.0) {
        lemma_text_transitive(b.0, c.0, a.0);
    }
    if text_before(c.0, b.0) && text_before(b.0, a.0) {
        lemma_text_transitive(c.0, b.0, a.0);
    }
    if key_before(a.2, b.2) && key_before(b.2, c.2) {
        lemma_key_transitive(a.2, b.2, c.2);
    }
    if key_before(b.2, a.2) && key_before(a.2, c.2) {
        lemma_key_transitive(b.2, a.2, c.2);
    }
    if key_before(b.2, c.2) && key_before(c.2, a.2) {
        lemma_key_transitive(b.2, c.2, a.2);
    }
    if key_before(c.2, b.2) && key_before(b.2, a.2) {
        lemma_key_transitive(c.2, b.2, a.2);
    }
    lemma_text_strict(a.0, c.0);
    lemma_text_strict(b.0, c.0);
}

/// The byte order on keys is transitive.
proof fn lemma_key_transitive(a: Key, b: Key, c: Key)
    requires
        key_before(a, b),
        key_before(b, c),
    ensures
        key_before(a, c),
{
    let i = choose|i: int| 0 <= i < 32 && a[i] < b[i] && forall|j: int| 0 <= j < i ==> a[j] == b[j];
    let k = choose|k: int| 0 <= k < 32 && b[k] < c[k] && forall|j: int| 0 <= j < k ==> b[j] == c[j];
    let m = if i < k {
        i
    } else {
        k
    };
    assert(a[m] < c[m]);
    assert(forall|j: int| 0 <= j < m ==> a[j] == c[j]);
}

/// Putting an offer after every one that does not sort after it is
/// inserting it there, and keeps the order.
proof fn lemma_offer_insert(l: Seq<Offer>, x: Offer, i: int)
    requires
        offers_ordered(l),
        0 <= i <= l.len(),
        forall|t: int| 0 <= t < i ==> !offer_before(x, #[trigger] l[t]),
        i < l.len() ==> offer_before(x, l[i]),
    ensures
        offer_insert(l, x) == l.insert(i, x),
        offers_ordered(offer_insert(l, x)),
    decreases l.len(),
{
    if l.len() == 0 {
        assert(l.insert(0, x) =~= seq![x]);
    } else if offer_before(x, l[0]) {
        if i > 0 {
            assert(!offer_before(x, l[0]));
        }
        assert(l.insert(0, x) =~= seq![x] + l);
        let r = seq![x] + l;
        assert forall|a: int, b: int| 0 <= a < b < r.len() implies !offer_before(#[trigger] r[b], #[trigger] r[a]) by {
            if a == 0 {
                lemma_offer_order(l[b - 1], x, l[0]);
                if b - 1 > 0 {
                    lemma_offer_order(l[b - 1], l[0], x);
                    assert(!offer_before(l[b - 1], l[0]));
                    lemma_offer_order(x, l[0], l[b - 1]);
                }
            } else {
                assert(r[a] == l[a - 1] && r[b] == l[b - 1]);
            }
        }
    } else {
        let t = l.drop_first();
        assert(offers_ordered(t)) by {
            assert forall|a: int, b: int| 0 <= a < b < t.len() implies !offer_before(#[trigger] t[b], #[trigger] t[a]) by {
                assert(t[a] == l[a + 1] && t[b] == l[b + 1]);
            }
        }
        assert(i >= 1);
        assert forall|q: int| 0 <= q < i - 1 implies !offer_before(x, #[trigger] t[q]) by {
            assert(t[q] == l[q + 1]);
        }
        if i - 1 < t.len() {
            assert(t[i - 1] == l[i]);
        }
        lemma_offer_insert(t, x, i - 1);
        assert(seq![l[0]] + t.insert(i - 1, x) =~= l.insert(i, x));
        let r = l.insert(i, x);
        assert forall|a: int, b: int| 0 <= a < b < r.len() implies !offer_before(#[trigger] r[b], #[trigger] r[a]) by {
            if b < i {
                assert(r[a] == l[a] && r[b] == l[b]);
            } else if b == i {
                assert(r[a] == l[a]);
            } else if a < i {
                assert(r[a] == l[a] && r[b] == l[b - 1]);
            } else if a == i {
                assert(r[b] == l[b - 1]);
                if b - 1 > i {
                    lemma_offer_order(l[b - 1], l[i], x);
                    lemma_offer_order(x, l[i], l[b - 1]);
                } else {
                    lemma_offer_order(l[i], x, l[i]);
                }
            } else {
                assert(r[a] == l[a - 1] && r[b] == l[b - 1]);
            }
        }
    }
}

/// Whether the offer `o` is of a member of `ms` who is not `me`.
pub open spec fn of_somebody_else(ms: Seq<Known>, me: Option<Key>, o: Offer) -> bool {
    exists|j: int|
        0 <= j < ms.len() && #[trigger] ms[j].account == o.2 && ms[j].label@ == o.1 && me != Some(
            o.2,
        )
}

proof fn lemma_matching_from(ms: Seq<Known>, me: Option<Key>, q: Seq<char>)
    ensures
        forall|i: int|
            0 <= i < matching(ms, me, q).len() ==> of_somebody_else(ms, me, #[trigger] matching(ms, me, q)[i]),
    decreases ms.len(),
{
    if ms.len() > 0 {
        let rest = ms.drop_last();
        lemma_matching_from(rest, me, q);
        assert forall|i: int| 0 <= i < matching(ms, me, q).len() implies of_somebody_else(
            ms,
            me,
            #[trigger] matching(ms, me, q)[i],
        ) by {
            let o = matching(ms, me, q)[i];
            if i < matching(rest, me, q).len() {
                assert(o == matching(rest, me, q)[i]);
                let j = choose|j: int|
                    0 <= j < rest.len() && #[trigger] rest[j].account == o.2 && rest[j].label@ == o.1
                        && me != Some(o.2);
                assert(ms[j] == rest[j]);
            } else {
                assert(ms[ms.len() - 1] == ms.last());
            }
        }
    }
}

proof fn lemma_insert_from(l: Seq<Offer>, x: Offer)
    ensures
        forall|i: int|
            0 <= i < offer_insert(l, x).len() ==> (#[trigger] offer_insert(l, x)[i] == x || l.contains(
                offer_insert(l, x)[i],
            )),
    decreases l.len(),
{
    if l.len() > 0 && !offer_before(x, l[0]) {
        let t = l.drop_first();
        lemma_insert_from(t, x);
        assert forall|i: int| 0 <= i < offer_insert(l, x).len() implies (#[trigger] offer_insert(l, x)[i]
            == x || l.contains(offer_insert(l, x)[i])) by {
            if i == 0 {
                assert(l[0] == offer_insert(l, x)[0]);
            } else {
                let o = offer_insert(t, x)[i - 1];
                assert(offer_insert(l, x)[i] == o);
                if o != x {
                    let k = choose|k: int| 0 <= k < t.len() && t[k] == o;
                    assert(l[k + 1] == o);
                }
            }
        }
    } else if l.len() > 0 {
        assert forall|i: int| 0 <= i < offer_insert(l, x).len() implies (#[trigger] offer_insert(l, x)[i]
            == x || l.contains(offer_insert(l, x)[i])) by {
            if i > 0 {
                assert(offer_insert(l, x)[i] == l[i - 1]);
            }
        }
    }
}

proof fn lemma_sorted_from(s: Seq<Offer>)
    ensures
        forall|i: int| 0 <= i < offers_sorted(s).len() ==> s.contains(#[trigger] offers_sorted(s)[i]),
    decreases s.len(),
{
    if s.len() > 0 {
        let rest = s.drop_last();
        lemma_sorted_from(rest);
        lemma_insert_from(offers_sorted(rest), s.last());
        assert forall|i: int| 0 <= i < offers_sorted(s).len() implies s.contains(#[trigger] offers_sorted(s)[i]) by {
            let o = offers_sorted(s)[i];
            if o == s.last() {
                assert(s[s.len() - 1] == o);
            } else {
                let k = choose|k: int| 0 <= k < offers_sorted(rest).len() && offers_sorted(rest)[k] == o;
                let w = choose|w: int| 0 <= w < rest.len() && rest[w] == offers_sorted(rest)[k];
                assert(s[w] == rest[w]);
            }
        }
    }
}

proof fn lemma_deduped_from(s: Seq<Offer>)
    ensures
        forall|i: int| 0 <= i < deduped(s).len() ==> s.contains(#[trigger] deduped(s)[i]),
    decreases s.len(),
{
    if s.len() > 0 {
        let rest = s.drop_last();
        lemma_deduped_from(rest);
        assert forall|i: int| 0 <= i < deduped(s).len() implies s.contains(#[trigger] deduped(s)[i]) by {
            let d = deduped(rest);
            if i < d.len() {
                assert(deduped(s)[i] == d[i]);
                let w = choose|w: int| 0 <= w < rest.len() && rest[w] == d[i];
                assert(s[w] == rest[w]);
            } else {
                assert(s[s.len() - 1] == s.last());
            }
        }
    }
}

/// **Everybody but me.** Whoever is offered for a query is a member of the
/// room, by the name this client has for them, and not ourselves.
pub proof fn law_offered_are_others(members: Seq<Known>, me: Option<Key>, query: Seq<char>)
    ensures
        forall|i: int|
            #![trigger offered(members, me, query)[i]]
            0 <= i < offered(members, me, query).len() ==> exists|j: int|
                0 <= j < members.len() && #[trigger] members[j].account == offered(members, me, query)[i].1
                    && members[j].label@ == offered(members, me, query)[i].0 && me != Some(
                    offered(members, me, query)[i].1,
                ),
{
    let q = lowercase(query);
    let m = matching(members, me, q);
    lemma_matching_from(members, me, q);
    lemma_sorted_from(m);
    lemma_deduped_from(offers_sorted(m));
    assert forall|i: int|
        #![trigger offered(members, me, query)[i]]
        0 <= i < offered(members, me, query).len() implies exists|j: int|
        0 <= j < members.len() && #[trigger] members[j].account == offered(members, me, query)[i].1
            && members[j].label@ == offered(members, me, query)[i].0 && me != Some(
            offered(members, me, query)[i].1,
        ) by {
        let o = deduped(offers_sorted(m))[i];
        let a = choose|a: int| 0 <= a < offers_sorted(m).len() && offers_sorted(m)[a] == o;
        let b = choose|b: int| 0 <= b < m.len() && m[b] == offers_sorted(m)[a];
        assert(of_somebody_else(members, me, m[b]));
    }
}


proof fn lemma_matching_to(ms: Seq<Known>, me: Option<Key>, q: Seq<char>, j: int)
    requires
        0 <= j < ms.len(),
        me != Some(ms[j].account),
        could_mean(ms[j], q),
    ensures
        matching(ms, me, q).contains((lowercase(ms[j].label@), ms[j].label@, ms[j].account)),
    decreases ms.len(),
{
    let x = (lowercase(ms[j].label@), ms[j].label@, ms[j].account);
    let rest = ms.drop_last();
    if j < ms.len() - 1 {
        assert(rest[j] == ms[j]);
        lemma_matching_to(rest, me, q, j);
        let k = choose|k: int| 0 <= k < matching(rest, me, q).len() && matching(rest, me, q)[k] == x;
        assert(matching(ms, me, q)[k] == x);
    } else {
        assert(ms.last() == ms[j]);
        let m = matching(ms, me, q);
        assert(m[m.len() - 1] == x);
    }
}

proof fn lemma_insert_to(l: Seq<Offer>, x: Offer)
    ensures
        offer_insert(l, x).contains(x),
        forall|i: int| 0 <= i < l.len() ==> offer_insert(l, x).contains(#[trigger] l[i]),
    decreases l.len(),
{
    let r = offer_insert(l, x);
    if l.len() == 0 {
        assert(r[0] == x);
    } else if offer_before(x, l[0]) {
        assert(r[0] == x);
        assert forall|i: int| 0 <= i < l.len() implies r.contains(#[trigger] l[i]) by {
            assert(r[i + 1] == l[i]);
        }
    } else {
        let t = l.drop_first();
        lemma_insert_to(t, x);
        let k = choose|k: int| 0 <= k < offer_insert(t, x).len() && offer_insert(t, x)[k] == x;
        assert(r[k + 1] == x);
        assert forall|i: int| 0 <= i < l.len() implies r.contains(#[trigger] l[i]) by {
            if i == 0 {
                assert(r[0] == l[0]);
            } else {
                assert(t[i - 1] == l[i]);
                let c = choose|c: int| 0 <= c < offer_insert(t, x).len() && offer_insert(t, x)[c] == t[i - 1];
                assert(r[c + 1] == l[i]);
            }
        }
    }
}

proof fn lemma_sorted_to(s: Seq<Offer>)
    ensures
        forall|i: int| 0 <= i < s.len() ==> offers_sorted(s).contains(#[trigger] s[i]),
    decreases s.len(),
{
    if s.len() > 0 {
        let rest = s.drop_last();
        lemma_sorted_to(rest);
        lemma_insert_to(offers_sorted(rest), s.last());
        assert forall|i: int| 0 <= i < s.len() implies offers_sorted(s).contains(#[trigger] s[i]) by {
            if i < s.len() - 1 {
                assert(rest[i] == s[i]);
                let k = choose|k: int| 0 <= k < offers_sorted(rest).len() && offers_sorted(rest)[k] == rest[i];
                assert(offers_sorted(rest)[k] == s[i]);
                assert(offers_sorted(s).contains(offers_sorted(rest)[k]));
            } else {
                assert(s.last() == s[i]);
            }
        }
    }
}

proof fn lemma_deduped_to(s: Seq<Offer>)
    ensures
        forall|i: int|
            0 <= i < s.len() ==> exists|k: int|
                0 <= k < deduped(s).len() && (#[trigger] deduped(s)[k]).1 == (#[trigger] s[i]).1
                    && deduped(s)[k].2 == s[i].2,
    decreases s.len(),
{
    if s.len() > 0 {
        let rest = s.drop_last();
        lemma_deduped_to(rest);
        let d = deduped(rest);
        assert forall|i: int| 0 <= i < s.len() implies exists|k: int|
            0 <= k < deduped(s).len() && (#[trigger] deduped(s)[k]).1 == (#[trigger] s[i]).1
                && deduped(s)[k].2 == s[i].2 by {
            if i < s.len() - 1 {
                assert(rest[i] == s[i]);
                let k = choose|k: int|
                    0 <= k < d.len() && (#[trigger] d[k]).1 == (#[trigger] rest[i]).1 && d[k].2 == rest[i].2;
                assert(deduped(s)[k] == d[k]);
            } else {
                assert(s.last() == s[i]);
                if d.len() > 0 && d.last().1 == s.last().1 && d.last().2 == s.last().2 {
                    assert(deduped(s)[d.len() - 1] == d.last());
                } else {
                    assert(deduped(s)[d.len() as int] == s.last());
                }
            }
        }
    }
}

/// Whether `q` stands somewhere in `s`, written out.
pub open spec fn holds_text(s: Seq<char>, q: Seq<char>) -> bool {
    exists|p: int| 0 <= p && p + q.len() <= s.len() && #[trigger] s.subrange(p, p + q.len()) == q
}

/// **Nobody it could mean is left out.** Every member of the room who is
/// not ourselves is offered -- by their name and key -- when nothing is
/// typed yet, or when their name, their handle or their short key holds
/// what is typed, case aside.
pub proof fn law_everybody_it_could_mean(members: Seq<Known>, me: Option<Key>, query: Seq<char>, j: int)
    requires
        0 <= j < members.len(),
        me != Some(members[j].account),
        ({
            let q = lowercase(query);
            let k = members[j];
            ||| q.len() == 0
            ||| holds_text(lowercase(k.label@), q)
            ||| (k.handle matches Some(h) && holds_text(lowercase(h@), q))
            ||| holds_text(lowercase(k.short@), q)
        }),
    ensures
        offered(members, me, query).contains((members[j].label@, members[j].account)),
{
    let q = lowercase(query);
    let k = members[j];
    assert(could_mean(k, q));
    lemma_matching_to(members, me, q, j);
    let m = matching(members, me, q);
    let x = (lowercase(k.label@), k.label@, k.account);
    let a = choose|a: int| 0 <= a < m.len() && m[a] == x;
    lemma_sorted_to(m);
    let so = offers_sorted(m);
    let b = choose|b: int| 0 <= b < so.len() && so[b] == m[a];
    lemma_deduped_to(so);
    let d = deduped(so);
    let c = choose|c: int| 0 <= c < d.len() && (#[trigger] d[c]).1 == (#[trigger] so[b]).1 && d[c].2 == so[b].2;
    let o = offered(members, me, query);
    assert(o[c] == (k.label@, k.account));
}

} // verus!

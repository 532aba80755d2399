//! The `sqx-pair:` string, the little of it a pane needs: an owner (a
//! key, or a `name@domain`) and the domains after the `@` -- read out of
//! what somebody pasted, and written for this identity to show.

use vstd::prelude::*;

use crate::mention::{last_at, rfind_at};
use crate::order::{text_before, text_less, lemma_text_strict, lemma_text_total, lemma_text_transitive};
use crate::text::{
    ascii_lower, chars_of, copy_str, is_ws, push_char, push_range, push_str, starts_with, string_of,
    trim, trim_end, trim_range, trim_start, vec_starts_with,
};

verus! {

broadcast use vstd::string::group_string_axioms;

/// What goes before a pairing string's owner, when it is written whole.
pub open spec fn pair_prefix() -> Seq<char> {
    "sqx-pair:"@
}

/// What is left of a pasted string once trimmed and its prefix, if any,
/// taken off.
pub open spec fn pair_body(shown: Seq<char>) -> Seq<char> {
    let t = trim(shown);
    if starts_with(t, pair_prefix()) {
        trim(t.skip(pair_prefix().len() as int))
    } else {
        trim(t)
    }
}

/// A character a domain name may hold.
pub open spec fn domain_char(c: char) -> bool {
    ||| 'a' <= c <= 'z'
    ||| 'A' <= c <= 'Z'
    ||| '0' <= c <= '9'
    ||| c == '-'
    ||| c == '.'
}

/// Whether `d` reads as a domain name: a dot somewhere, and nothing but
/// letters, digits, hyphens and dots.
pub open spec fn domain_ok(d: Seq<char>) -> bool {
    d.contains('.') && forall|i: int| 0 <= i < d.len() ==> domain_char(#[trigger] d[i])
}

/// `s` with its ASCII capitals made small.
pub open spec fn ascii_lowered(s: Seq<char>) -> Seq<char> {
    s.map_values(|c: char| ascii_lower(c))
}

/// One comma-separated piece read: blank is skipped, a domain already had
/// is skipped, anything that is not a domain name is the mistake.
pub open spec fn piece_step(
    st: Result<Seq<Seq<char>>, Seq<char>>,
    piece: Seq<char>,
) -> Result<Seq<Seq<char>>, Seq<char>> {
    match st {
        Err(e) => Err(e),
        Ok(ds) => {
            let d = ascii_lowered(trim(piece));
            if d.len() == 0 {
                Ok(ds)
            } else if !domain_ok(d) {
                Err("`"@ + d + "` is not a domain name"@)
            } else if ds.contains(d) {
                Ok(ds)
            } else {
                Ok(ds.push(d))
            }
        },
    }
}

/// `s` read up to its end: the pieces before the last comma read, and the
/// piece after it so far.
pub open spec fn scan(s: Seq<char>) -> (Result<Seq<Seq<char>>, Seq<char>>, Seq<char>)
    decreases s.len(),
{
    if s.len() == 0 {
        (Ok(Seq::empty()), Seq::empty())
    } else {
        let (r, cur) = scan(s.drop_last());
        if s.last() == ',' {
            (piece_step(r, cur), Seq::empty())
        } else {
            (r, cur.push(s.last()))
        }
    }
}

/// The domains named by `s`, each once, small, in the order named.
pub open spec fn domains_of(s: Seq<char>) -> Result<Seq<Seq<char>>, Seq<char>> {
    piece_step(scan(s).0, scan(s).1)
}

/// What a pasted pairing string says: who it is for, as written, and the
/// domains; or the words for what is wrong with it.
pub open spec fn split_spec(shown: Seq<char>) -> Result<(Seq<char>, Seq<Seq<char>>), Seq<char>> {
    let t = trim(shown);
    if utf8_len(t) > 512 {
        Err("that is longer than any pairing string"@)
    } else {
        let body = pair_body(shown);
        let p = last_at(body);
        if p < 0 {
            Err("a pairing string is <account or name>@<domain>"@)
        } else {
            let who = trim(body.take(p));
            if who.len() == 0 {
                Err("nothing before the @"@)
            } else {
                match domains_of(body.skip(p + 1)) {
                    Err(e) => Err(e),
                    Ok(ds) => if ds.len() == 0 {
                        Err("a pairing string names at least one domain"@)
                    } else {
                        Ok((who, ds))
                    },
                }
            }
        }
    }
}

/// How many bytes `c` takes in UTF-8.
pub open spec fn utf8_width(c: char) -> nat {
    if (c as u32) < 0x80 {
        1
    } else if (c as u32) < 0x800 {
        2
    } else if (c as u32) < 0x10000 {
        3
    } else {
        4
    }
}

/// How many bytes `s` takes in UTF-8: what `str::len` counts.
pub open spec fn utf8_len(s: Seq<char>) -> nat
    decreases s.len(),
{
    if s.len() == 0 {
        0
    } else {
        utf8_len(s.drop_last()) + utf8_width(s.last())
    }
}

/// Whether `v[lo..hi]` takes more than `most` bytes in UTF-8.
fn longer_than(v: &Vec<char>, lo: usize, hi: usize, most: u64) -> (r: bool)
    requires
        lo <= hi <= v@.len(),
        most < u64::MAX - 4,
    ensures
        r == (utf8_len(v@.subrange(lo as int, hi as int)) > most),
{
    let mut n: u64 = 0;
    let mut i = lo;
    while i < hi
        invariant
            lo <= i <= hi <= v@.len(),
            most < u64::MAX - 4,
            n == utf8_len(v@.subrange(lo as int, i as int)),
            n <= most,
        decreases hi - i,
    {
        assert(v@.subrange(lo as int, i + 1).drop_last() =~= v@.subrange(lo as int, i as int));
        let c = v[i] as u32;
        let w: u64 = if c < 0x80 {
            1
        } else if c < 0x800 {
            2
        } else if c < 0x10000 {
            3
        } else {
            4
        };
        n = n + w;
        i = i + 1;
        if n > most {
            proof {
                lemma_utf8_grows(v@.subrange(lo as int, hi as int), (i - lo) as int);
                assert(v@.subrange(lo as int, hi as int).take((i - lo) as int) =~= v@.subrange(
                    lo as int,
                    i as int,
                ));
            }
            return true;
        }
    }
    false
}

/// A text is at least as long in UTF-8 as any start of it.
proof fn lemma_utf8_grows(s: Seq<char>, k: int)
    requires
        0 <= k <= s.len(),
    ensures
        utf8_len(s.take(k)) <= utf8_len(s),
    decreases s.len() - k,
{
    if k < s.len() {
        lemma_utf8_grows(s, k + 1);
        assert(s.take(k + 1).drop_last() =~= s.take(k));
    } else {
        assert(s.take(k) =~= s);
    }
}

/// The views of some texts.
pub open spec fn char_views(v: Seq<Vec<char>>) -> Seq<Seq<char>> {
    v.map_values(|x: Vec<char>| x@)
}

/// The views of some strings.
pub open spec fn string_views(v: Seq<String>) -> Seq<Seq<char>> {
    v.map_values(|x: String| x@)
}

/// Whether two texts hold the same characters.
fn chars_equal(a: &Vec<char>, b: &Vec<char>) -> (r: bool)
    ensures
        r == (a@ == b@),
{
    if a.len() != b.len() {
        return false;
    }
    let mut i: usize = 0;
    while i < a.len()
        invariant
            a@.len() == b@.len(),
            i <= a@.len(),
            forall|j: int| 0 <= j < i ==> a@[j] == b@[j],
        decreases a@.len() - i,
    {
        if a[i] != b[i] {
            return false;
        }
        i = i + 1;
    }
    assert(a@ =~= b@);
    true
}

/// Whether `d` is among `ds`.
fn has_text(ds: &Vec<Vec<char>>, d: &Vec<char>) -> (r: bool)
    ensures
        r == char_views(ds@).contains(d@),
{
    let mut i: usize = 0;
    while i < ds.len()
        invariant
            i <= ds@.len(),
            forall|j: int| 0 <= j < i ==> ds@[j]@ != d@,
        decreases ds@.len() - i,
    {
        if chars_equal(&ds[i], d) {
            assert(char_views(ds@)[i as int] == d@);
            return true;
        }
        i = i + 1;
    }
    assert forall|j: int| 0 <= j < char_views(ds@).len() implies char_views(ds@)[j] != d@ by {
        assert(char_views(ds@)[j] == ds@[j]@);
    }
    false
}

/// `v[lo..hi]` with its ASCII capitals made small.
fn lowered(v: &Vec<char>, lo: usize, hi: usize) -> (r: Vec<char>)
    requires
        lo <= hi <= v@.len(),
    ensures
        r@ == ascii_lowered(v@.subrange(lo as int, hi as int)),
{
    let mut r: Vec<char> = Vec::new();
    let mut i = lo;
    while i < hi
        invariant
            lo <= i <= hi <= v@.len(),
            r@ == ascii_lowered(v@.subrange(lo as int, i as int)),
        decreases hi - i,
    {
        let c = v[i];
        let l = if 'A' <= c && c <= 'Z' {
            let n: u8 = ((c as u32) + 32) as u8;
            assert(n == (c as u32) + 32);
            n as char
        } else {
            c
        };
        assert(l == ascii_lower(c));
        r.push(l);
        assert(ascii_lowered(v@.subrange(lo as int, i + 1)) =~= ascii_lowered(
            v@.subrange(lo as int, i as int),
        ).push(ascii_lower(c)));
        i = i + 1;
    }
    r
}

/// Whether `d` reads as a domain name.
fn is_domain(d: &Vec<char>) -> (r: bool)
    ensures
        r == domain_ok(d@),
{
    let mut dot = false;
    let mut i: usize = 0;
    while i < d.len()
        invariant
            i <= d@.len(),
            dot == d@.take(i as int).contains('.'),
            forall|j: int| 0 <= j < i ==> domain_char(#[trigger] d@[j]),
        decreases d@.len() - i,
    {
        let c = d[i];
        if !(('a' <= c && c <= 'z') || ('A' <= c && c <= 'Z') || ('0' <= c && c <= '9') || c == '-'
            || c == '.') {
            return false;
        }
        proof {
            if c == '.' {
                assert(d@.take(i + 1)[i as int] == '.');
            }
            if d@.take(i + 1).contains('.') && !d@.take(i as int).contains('.') {
                let k = choose|k: int| 0 <= k < i + 1 && #[trigger] d@.take(i + 1)[k] == '.';
                if k < i {
                    assert(d@.take(i as int)[k] == '.');
                }
            }
            if d@.take(i as int).contains('.') {
                let k = choose|k: int| 0 <= k < i && #[trigger] d@.take(i as int)[k] == '.';
                assert(d@.take(i + 1)[k] == '.');
            }
        }
        if c == '.' {
            dot = true;
        }
        i = i + 1;
    }
    assert(d@.take(d@.len() as int) =~= d@);
    dot
}

/// One piece read into `ds`: `None` when it was taken or skipped, the
/// words when it is not a domain name.
fn read_piece(ds: &mut Vec<Vec<char>>, cur: &Vec<char>) -> (r: Option<String>)
    ensures
        match piece_step(Ok(char_views(old(ds)@)), cur@) {
            Ok(x) => r is None && char_views(final(ds)@) == x,
            Err(e) => r matches Some(w) && w@ == e,
        },
{
    let (a, b) = trim_range(cur, 0, cur.len());
    assert(cur@.subrange(0, cur@.len() as int) =~= cur@);
    let d = lowered(cur, a, b);
    if d.len() == 0 {
        return None;
    }
    if !is_domain(&d) {
        let mut e = copy_str("`");
        push_range(&mut e, &d, 0, d.len());
        push_str(&mut e, "` is not a domain name");
        assert(d@.subrange(0, d@.len() as int) =~= d@);
        return Some(e);
    }
    if has_text(ds, &d) {
        return None;
    }
    let ghost before = char_views(ds@);
    ds.push(d);
    assert(char_views(ds@) =~= before.push(d@));
    None
}

/// What a pasted pairing string says: who it is for, as written, and the
/// domains it names -- each once, small, in the order named -- or the
/// words for what is wrong with it.
pub fn split_pairing(shown: &str) -> (r: Result<(String, Vec<String>), String>)
    ensures
        match (r, split_spec(shown@)) {
            (Ok((who, ds)), Ok((w, d))) => who@ == w && string_views(ds@) == d,
            (Err(e), Err(m)) => e@ == m,
            _ => false,
        },
{
    let v = chars_of(shown);
    let (a, b) = trim_range(&v, 0, v.len());
    assert(v@.subrange(0, v@.len() as int) =~= v@);
    if longer_than(&v, a, b, 512) {
        return Err(copy_str("that is longer than any pairing string"));
    }
    let t = string_of(&v, a, b);
    let tv = chars_of(t.as_str());
    let pv = chars_of("sqx-pair:");
    let start: usize = if vec_starts_with(&tv, &pv) {
        pv.len()
    } else {
        0
    };
    let (c, d) = trim_range(&tv, start, tv.len());
    proof {
        assert(tv@.subrange(start as int, tv@.len() as int) =~= tv@.skip(start as int));
        assert(tv@.skip(0) =~= tv@);
    }
    let bv = chars_of(string_of(&tv, c, d).as_str());
    assert(bv@ == pair_body(shown@));
    let p = match rfind_at(&bv) {
        Some(p) => p,
        None => {
            return Err(copy_str("a pairing string is <account or name>@<domain>"));
        },
    };
    let (w0, w1) = trim_range(&bv, 0, p);
    assert(bv@.subrange(0, p as int) =~= bv@.take(p as int));
    if w0 == w1 {
        return Err(copy_str("nothing before the @"));
    }
    let who = string_of(&bv, w0, w1);
    let ghost rest = bv@.skip(p + 1);
    let mut ds: Vec<Vec<char>> = Vec::new();
    let mut err: Option<String> = None;
    let mut cur: Vec<char> = Vec::new();
    let mut i = p + 1;
    while i < bv.len()
        invariant
            p < bv@.len(),
            p + 1 <= i <= bv@.len(),
            rest == bv@.skip(p + 1),
            ({
                let (st, cr) = scan(bv@.subrange(p + 1, i as int));
                &&& cr == cur@
                &&& match (err, st) {
                    (None, Ok(x)) => char_views(ds@) == x,
                    (Some(e), Err(m)) => e@ == m,
                    _ => false,
                }
            }),
        decreases bv@.len() - i,
    {
        assert(bv@.subrange(p + 1, i + 1).drop_last() =~= bv@.subrange(p + 1, i as int));
        assert(bv@.subrange(p + 1, i + 1).last() == bv@[i as int]);
        if bv[i] == ',' {
            if err.is_none() {
                err = read_piece(&mut ds, &cur);
            }
            cur = Vec::new();
        } else {
            cur.push(bv[i]);
        }
        i = i + 1;
    }
    assert(bv@.subrange(p + 1, bv@.len() as int) =~= rest);
    if err.is_none() {
        err = read_piece(&mut ds, &cur);
    }
    match err {
        Some(e) => {
            return Err(e);
        },
        None => {},
    }
    if ds.len() == 0 {
        return Err(copy_str("a pairing string names at least one domain"));
    }
    let mut out: Vec<String> = Vec::new();
    let mut j: usize = 0;
    while j < ds.len()
        invariant
            j <= ds@.len(),
            string_views(out@) == char_views(ds@).take(j as int),
        decreases ds@.len() - j,
    {
        let s = string_of(&ds[j], 0, ds[j].len());
        assert(ds@[j as int]@.subrange(0, ds@[j as int]@.len() as int) =~= ds@[j as int]@);
        let ghost before = string_views(out@);
        out.push(s);
        assert(string_views(out@) =~= before.push(s@));
        assert(char_views(ds@).take(j + 1) =~= char_views(ds@).take(j as int).push(ds@[j as int]@));
        j = j + 1;
    }
    assert(char_views(ds@).take(ds@.len() as int) =~= char_views(ds@));
    Ok((who, out))
}

/// Who a pairing string is for, handed on: a key stands alone; a name lives
/// at its one domain and is handed on as `name@domain`, small.
pub open spec fn owner_spec(who: Seq<char>, domains: Seq<Seq<char>>, who_is_key: bool) -> Result<
    Seq<char>,
    Seq<char>,
> {
    if who_is_key {
        Ok(who)
    } else if domains.len() != 1 {
        Err("a name lives at one domain"@)
    } else {
        Ok(ascii_lowered(who) + "@"@ + domains[0])
    }
}

/// Who a pairing string read by [`split_pairing`] is for, handed on.
/// `who_is_key` is whether what stands before the `@` reads as a key.
pub fn pairing_owner(who: &str, domains: &[String], who_is_key: bool) -> (r: Result<String, String>)
    ensures
        match (r, owner_spec(who@, string_views(domains@), who_is_key)) {
            (Ok(o), Ok(s)) => o@ == s,
            (Err(e), Err(m)) => e@ == m,
            _ => false,
        },
{
    if who_is_key {
        return Ok(copy_str(who));
    }
    if domains.len() != 1 {
        return Err(copy_str("a name lives at one domain"));
    }
    let v = chars_of(who);
    let l = lowered(&v, 0, v.len());
    assert(v@.subrange(0, v@.len() as int) =~= v@);
    let mut o = string_of(&l, 0, l.len());
    assert(l@.subrange(0, l@.len() as int) =~= l@);
    push_str(&mut o, "@");
    push_str(&mut o, domains[0].as_str());
    assert(string_views(domains@)[0] == domains@[0]@);
    Ok(o)
}

/// `d` put in its place among the sorted texts `l`, unless it is there.
pub open spec fn sorted_insert(l: Seq<Seq<char>>, d: Seq<char>) -> Seq<Seq<char>>
    decreases l.len(),
{
    if l.len() == 0 {
        seq![d]
    } else if l[0] == d {
        l
    } else if text_before(d, l[0]) {
        seq![d] + l
    } else {
        seq![l[0]] + sorted_insert(l.drop_first(), d)
    }
}

/// The texts of `s`, sorted and each once.
pub open spec fn sorted_set(s: Seq<Seq<char>>) -> Seq<Seq<char>>
    decreases s.len(),
{
    if s.len() == 0 {
        Seq::empty()
    } else {
        sorted_insert(sorted_set(s.drop_last()), s.last())
    }
}

/// Texts joined with commas.
pub open spec fn joined(l: Seq<Seq<char>>) -> Seq<char>
    decreases l.len(),
{
    if l.len() == 0 {
        Seq::empty()
    } else if l.len() == 1 {
        l[0]
    } else {
        joined(l.drop_last()) + ","@ + l.last()
    }
}

/// The domains of the sessions of `me` whose domain is known, in order.
pub open spec fn known_domains(me: crate::key::Key, sessions: Seq<(crate::key::Key, Option<String>)>) -> Seq<
    Seq<char>,
>
    decreases sessions.len(),
{
    if sessions.len() == 0 {
        Seq::empty()
    } else {
        let prev = known_domains(me, sessions.drop_last());
        let (k, d) = sessions.last();
        match d {
            Some(d) => if k == me {
                prev.push(d@)
            } else {
                prev
            },
            None => prev,
        }
    }
}

/// The pairing string for an identity, by its key's text `owner`.
pub open spec fn pairing_spec(
    me: crate::key::Key,
    owner: Seq<char>,
    sessions: Seq<(crate::key::Key, Option<String>)>,
) -> Option<Seq<char>> {
    let l = sorted_set(known_domains(me, sessions));
    if l.len() == 0 {
        None
    } else {
        Some(pair_prefix() + owner + "@"@ + joined(l))
    }
}

/// Whether the texts of `l` go strictly up.
pub open spec fn increasing(l: Seq<Seq<char>>) -> bool {
    forall|i: int, j: int| 0 <= i < j < l.len() ==> text_before(#[trigger] l[i], #[trigger] l[j])
}

/// Putting a text in its place keeps the order, adds exactly it, and is
/// where the first text that does not come before it was.
proof fn lemma_sorted_insert(l: Seq<Seq<char>>, d: Seq<char>, i: int)
    requires
        increasing(l),
        0 <= i <= l.len(),
        forall|j: int| 0 <= j < i ==> text_before(#[trigger] l[j], d),
        i < l.len() ==> !text_before(l[i], d),
    ensures
        increasing(sorted_insert(l, d)),
        sorted_insert(l, d).to_set() == l.to_set().insert(d),
        i < l.len() && l[i] == d ==> sorted_insert(l, d) == l,
        !(i < l.len() && l[i] == d) ==> sorted_insert(l, d) == l.insert(i, d),
    decreases l.len(),
{
    if l.len() == 0 {
        assert(seq![d].to_set() =~= Set::<Seq<char>>::empty().insert(d)) by {
            assert forall|x: Seq<char>| seq![d].to_set().contains(x) <==> x == d by {
                if x == d {
                    assert(seq![d][0] == x);
                }
            }
        }
        assert(l.to_set() =~= Set::<Seq<char>>::empty());
        assert(l.insert(0, d) =~= seq![d]);
    } else if l[0] == d {
        assert(i == 0) by {
            if i > 0 {
                lemma_text_strict(l[0], d);
            }
        }
        assert(l.to_set().insert(d) =~= l.to_set());
    } else if text_before(d, l[0]) {
        assert(i == 0) by {
            if i > 0 {
                lemma_text_strict(l[0], d);
            }
        }
        let r = seq![d] + l;
        assert forall|a: int, b: int| 0 <= a < b < r.len() implies text_before(#[trigger] r[a], #[trigger] r[b]) by {
            if a == 0 {
                if b > 1 {
                    lemma_text_transitive(d, l[0], l[b - 1]);
                }
            } else {
                assert(r[a] == l[a - 1] && r[b] == l[b - 1]);
            }
        }
        assert(r.to_set() =~= l.to_set().insert(d)) by {
            assert forall|x: Seq<char>| r.to_set().contains(x) <==> l.to_set().insert(d).contains(x) by {
                if r.contains(x) {
                    let k = choose|k: int| 0 <= k < r.len() && r[k] == x;
                    if k > 0 {
                        assert(l[k - 1] == x);
                    }
                }
                if l.contains(x) {
                    let k = choose|k: int| 0 <= k < l.len() && l[k] == x;
                    assert(r[k + 1] == x);
                }
                if x == d {
                    assert(r[0] == x);
                }
            }
        }
        assert(l.insert(0, d) =~= r);
    } else {
        lemma_text_total(d, l[0]);
        assert(text_before(l[0], d));
        assert(i >= 1);
        let t = l.drop_first();
        assert(increasing(t)) by {
            assert forall|a: int, b: int| 0 <= a < b < t.len() implies text_before(#[trigger] t[a], #[trigger] t[b]) by {
                assert(t[a] == l[a + 1] && t[b] == l[b + 1]);
            }
        }
        assert forall|j: int| 0 <= j < i - 1 implies text_before(#[trigger] t[j], d) by {
            assert(t[j] == l[j + 1]);
        }
        if i - 1 < t.len() {
            assert(t[i - 1] == l[i]);
        }
        lemma_sorted_insert(t, d, i - 1);
        let s2 = sorted_insert(t, d);
        let r = seq![l[0]] + s2;
        assert forall|a: int, b: int| 0 <= a < b < r.len() implies text_before(#[trigger] r[a], #[trigger] r[b]) by {
            if a == 0 {
                assert(r[b] == s2[b - 1]);
                assert(s2.to_set().contains(s2[b - 1]));
                assert(t.to_set().insert(d).contains(s2[b - 1]));
                if s2[b - 1] != d {
                    assert(t.contains(s2[b - 1]));
                    let k = choose|k: int| 0 <= k < t.len() && t[k] == s2[b - 1];
                    assert(t[k] == l[k + 1]);
                }
            } else {
                assert(r[a] == s2[a - 1] && r[b] == s2[b - 1]);
            }
        }
        assert(r.to_set() =~= l.to_set().insert(d)) by {
            assert(l =~= seq![l[0]] + t);
            assert forall|x: Seq<char>| r.to_set().contains(x) <==> l.to_set().insert(d).contains(x) by {
                if r.contains(x) {
                    let k = choose|k: int| 0 <= k < r.len() && r[k] == x;
                    if k > 0 {
                        assert(s2[k - 1] == x);
                        assert(s2.to_set().contains(x));
                        if x != d {
                            assert(t.contains(x));
                            let q = choose|q: int| 0 <= q < t.len() && t[q] == x;
                            assert(l[q + 1] == x);
                        }
                    } else {
                        assert(l[0] == x);
                    }
                }
                if l.contains(x) {
                    let k = choose|k: int| 0 <= k < l.len() && l[k] == x;
                    if k == 0 {
                        assert(r[0] == x);
                    } else {
                        assert(t[k - 1] == x);
                        assert(t.to_set().insert(d).contains(x));
                        assert(s2.contains(x));
                        let q = choose|q: int| 0 <= q < s2.len() && s2[q] == x;
                        assert(r[q + 1] == x);
                    }
                }
                if x == d {
                    assert(s2.to_set().contains(d));
                    let q = choose|q: int| 0 <= q < s2.len() && s2[q] == x;
                    assert(r[q + 1] == x);
                }
            }
        }
        if i < l.len() && l[i] == d {
            assert(r =~= l);
        } else {
            assert(r =~= l.insert(i, d));
        }
    }
}

/// **A pairing string names each domain once, in order.** The domains it
/// lists go strictly up, and are exactly the domains known for the identity.
pub proof fn law_pairing_domains(s: Seq<Seq<char>>)
    ensures
        increasing(sorted_set(s)),
        sorted_set(s).to_set() == s.to_set(),
    decreases s.len(),
{
    if s.len() == 0 {
        assert(s.to_set() =~= Set::<Seq<char>>::empty());
        assert(sorted_set(s).to_set() =~= Set::<Seq<char>>::empty());
    } else {
        law_pairing_domains(s.drop_last());
        let l = sorted_set(s.drop_last());
        let i = first_not_before(l, s.last(), 0);
        lemma_first_not_before(l, s.last(), 0);
        lemma_sorted_insert(l, s.last(), i);
        assert(s.to_set() =~= s.drop_last().to_set().insert(s.last())) by {
            assert forall|x: Seq<char>| s.to_set().contains(x) <==> s.drop_last().to_set().insert(s.last()).contains(x) by {
                if s.contains(x) {
                    let k = choose|k: int| 0 <= k < s.len() && s[k] == x;
                    if k < s.len() - 1 {
                        assert(s.drop_last()[k] == x);
                    }
                }
                if s.drop_last().contains(x) {
                    let k = choose|k: int| 0 <= k < s.drop_last().len() && s.drop_last()[k] == x;
                    assert(s[k] == x);
                }
            }
        }
    }
}

/// Where the first text of `l`, from `k` on, that does not come before `d`
/// is; `l.len()` when all do.
pub open spec fn first_not_before(l: Seq<Seq<char>>, d: Seq<char>, k: int) -> int
    decreases l.len() - k,
{
    if k >= l.len() {
        l.len() as int
    } else if !text_before(l[k], d) {
        k
    } else {
        first_not_before(l, d, k + 1)
    }
}

proof fn lemma_first_not_before(l: Seq<Seq<char>>, d: Seq<char>, k: int)
    requires
        0 <= k <= l.len(),
        forall|j: int| 0 <= j < k ==> text_before(#[trigger] l[j], d),
    ensures
        k <= first_not_before(l, d, k) <= l.len(),
        forall|j: int| 0 <= j < first_not_before(l, d, k) ==> text_before(#[trigger] l[j], d),
        first_not_before(l, d, k) < l.len() ==> !text_before(l[first_not_before(l, d, k)], d),
    decreases l.len() - k,
{
    if k < l.len() && text_before(l[k], d) {
        lemma_first_not_before(l, d, k + 1);
    }
}

/// The `sqx-pair:` string for an identity: its key's text `owner`,
/// and every exchange it holds a session at whose domain is known, sorted
/// and each once. An exchange reached by address alone has no domain to
/// name and is left out; with none known there is no string.
pub fn pairing_string(me: crate::key::Key, owner: &str, sessions: &[(crate::key::Key, Option<String>)]) -> (r: Option<String>)
    ensures
        match (r, pairing_spec(me, owner@, sessions@)) {
            (Some(s), Some(t)) => s@ == t,
            (None, None) => true,
            _ => false,
        },
{
    let mut l: Vec<Vec<char>> = Vec::new();
    let mut i: usize = 0;
    while i < sessions.len()
        invariant
            i <= sessions@.len(),
            char_views(l@) == sorted_set(known_domains(me, sessions@.take(i as int))),
            increasing(char_views(l@)),
        decreases sessions@.len() - i,
    {
        assert(sessions@.take(i + 1).drop_last() =~= sessions@.take(i as int));
        assert(sessions@.take(i + 1).last() == sessions@[i as int]);
        let ghost before = known_domains(me, sessions@.take(i as int));
        let (k, d) = &sessions[i];
        if let Some(d) = d {
            if crate::key::same_key(k, &me) {
                assert(known_domains(me, sessions@.take(i + 1)) == before.push(d@));
                assert(before.push(d@).drop_last() =~= before);
                let dv = chars_of(d.as_str());
                let ghost lv = char_views(l@);
                let mut j: usize = 0;
                while j < l.len() && text_less(&l[j], &dv)
                    invariant
                        j <= l@.len(),
                        lv == char_views(l@),
                        forall|q: int| 0 <= q < j ==> text_before(#[trigger] lv[q], dv@),
                    decreases l@.len() - j,
                {
                    assert(lv[j as int] == l@[j as int]@);
                    j = j + 1;
                }
                proof {
                    if j < l@.len() {
                        assert(lv[j as int] == l@[j as int]@);
                    }
                    lemma_sorted_insert(lv, dv@, j as int);
                    law_pairing_domains(known_domains(me, sessions@.take(i as int)));
                }
                if j < l.len() && chars_equal(&l[j], &dv) {
                    assert(lv[j as int] == l@[j as int]@);
                } else {
                    l.insert(j, dv);
                    assert(char_views(l@) =~= lv.insert(j as int, d@));
                }
                proof {
                    law_pairing_domains(known_domains(me, sessions@.take(i + 1)));
                }
            } else {
                assert(known_domains(me, sessions@.take(i + 1)) == before);
            }
        } else {
            assert(known_domains(me, sessions@.take(i + 1)) == before);
        }
        i = i + 1;
    }
    assert(sessions@.take(sessions@.len() as int) =~= sessions@);
    if l.len() == 0 {
        return None;
    }
    let mut s = copy_str("sqx-pair:");
    push_str(&mut s, owner);
    push_str(&mut s, "@");
    let ghost lv = char_views(l@);
    let mut q: usize = 0;
    while q < l.len()
        invariant
            q <= l@.len(),
            lv == char_views(l@),
            lv.len() > 0,
            s@ == pair_prefix() + owner@ + "@"@ + joined(lv.take(q as int)),
        decreases l@.len() - q,
    {
        assert(lv.take(q + 1).drop_last() =~= lv.take(q as int));
        assert(lv.take(q + 1).last() == l@[q as int]@);
        if q > 0 {
            push_str(&mut s, ",");
        }
        push_range(&mut s, &l[q], 0, l[q].len());
        assert(l@[q as int]@.subrange(0, l@[q as int]@.len() as int) =~= l@[q as int]@);
        proof {
            if q == 0 {
                assert(joined(lv.take(0)) =~= Seq::<char>::empty());
                assert(lv.take(1).len() == 1);
            }
        }
        q = q + 1;
    }
    assert(lv.take(lv.len() as int) =~= lv);
    Some(s)
}


/// Whether `d` is made only of ASCII letters, digits, hyphens and dots,
/// and holds a dot: what a domain name looks like, written out.
pub open spec fn hostname_like(d: Seq<char>) -> bool {
    &&& d.contains('.')
    &&& forall|i: int|
        0 <= i < d.len() ==> {
            let c = #[trigger] d[i];
            ||| ('a' <= c && c <= 'z')
            ||| ('A' <= c && c <= 'Z')
            ||| ('0' <= c && c <= '9')
            ||| c == '-'
            ||| c == '.'
        }
}

proof fn lemma_trim_plain(s: Seq<char>)
    requires
        s.len() > 0,
        !is_ws(s[0]),
        !is_ws(s.last()),
    ensures
        trim(s) == s,
{
    assert(trim_start(s) == s);
    assert(trim_end(s) == s);
}

proof fn lemma_scan_plain(s: Seq<char>)
    requires
        !s.contains(','),
    ensures
        scan(s) == (Ok::<Seq<Seq<char>>, Seq<char>>(Seq::empty()), s),
    decreases s.len(),
{
    if s.len() > 0 {
        let d = s.drop_last();
        assert(!d.contains(',')) by {
            if d.contains(',') {
                let i = choose|i: int| 0 <= i < d.len() && d[i] == ',';
                assert(s[i] == ',');
            }
        }
        lemma_scan_plain(d);
        assert(s[s.len() - 1] == s.last());
        assert(d.push(s.last()) =~= s);
    } else {
        assert(s =~= Seq::<char>::empty());
    }
}

proof fn lemma_last_at(s: Seq<char>, k: int)
    requires
        0 <= k < s.len(),
        s[k] == '@',
        forall|j: int| k < j < s.len() ==> s[j] != '@',
    ensures
        last_at(s) == k,
    decreases s.len(),
{
    if k < s.len() - 1 {
        let d = s.drop_last();
        assert(s.last() == s[s.len() - 1]);
        lemma_last_at(d, k);
    }
}

/// **Whatever looks like a domain name is one.** A piece made only of
/// ASCII letters, digits, hyphens and dots, with a dot in it, reads as
/// that domain, small.
pub proof fn law_a_domain_is_read(d: Seq<char>)
    requires
        hostname_like(d),
    ensures
        domains_of(d) == Ok::<Seq<Seq<char>>, Seq<char>>(seq![ascii_lowered(d)]),
{
    let k = choose|k: int| 0 <= k < d.len() && d[k] == '.';
    assert(!d.contains(',')) by {
        if d.contains(',') {
            let i = choose|i: int| 0 <= i < d.len() && d[i] == ',';
            assert(d[i] == ',');
        }
    }
    lemma_scan_plain(d);
    assert(!is_ws(d[0]));
    assert(!is_ws(d[d.len() - 1]));
    lemma_trim_plain(d);
    let l = ascii_lowered(d);
    assert(l[k] == '.');
    assert forall|i: int| 0 <= i < l.len() implies domain_char(#[trigger] l[i]) by {
        let c = d[i];
        if 'A' <= c && c <= 'Z' {
            assert(l[i] == ((c as u32) + 32) as char);
        }
    }
    assert(domain_ok(l));
    assert(!Seq::<Seq<char>>::empty().contains(l));
    assert(Seq::<Seq<char>>::empty().push(l) =~= seq![l]);
}

proof fn lemma_body_of(w: Seq<char>, d: Seq<char>)
    requires
        w.len() > 0,
        d.len() > 0,
        !is_ws(w[0]),
        !is_ws(d.last()),
    ensures
        pair_body(pair_prefix() + (w + "@"@ + d)) == w + "@"@ + d,
{
    reveal_strlit("sqx-pair:");
    reveal_strlit("@");
    let pre = pair_prefix();
    let body = w + "@"@ + d;
    let shown = pre + body;
    assert(shown[0] == 's');
    assert(shown.last() == body.last());
    assert(body.last() == d.last());
    lemma_trim_plain(shown);
    assert(shown.take(pre.len() as int) =~= pre);
    assert(starts_with(shown, pre));
    assert(shown.skip(pre.len() as int) =~= body);
    assert(body[0] == w[0]);
    lemma_trim_plain(body);
}

proof fn lemma_owner_of(w: Seq<char>, d: Seq<char>)
    requires
        w.len() > 0,
        forall|i: int| 0 <= i < w.len() ==> !is_ws(#[trigger] w[i]) && w[i] != '@',
        forall|i: int| 0 <= i < d.len() ==> #[trigger] d[i] != '@',
    ensures
        last_at(w + "@"@ + d) == w.len(),
        (w + "@"@ + d).take(w.len() as int) == w,
        (w + "@"@ + d).skip(w.len() as int + 1) == d,
        trim(w) == w,
{
    reveal_strlit("@");
    let body = w + "@"@ + d;
    assert(body[w.len() as int] == '@');
    assert forall|j: int| w.len() < j < body.len() implies body[j] != '@' by {
        assert(body[j] == d[j - w.len() - 1]);
    }
    lemma_last_at(body, w.len() as int);
    assert(body.take(w.len() as int) =~= w);
    assert(body.skip(w.len() as int + 1) =~= d);
    assert(!is_ws(w[w.len() - 1]));
    lemma_trim_plain(w);
}

/// **A pairing string reads as what it names.** `sqx-pair:`, an owner
/// with no whitespace and no `@` in it, an `@` and a domain name reads as
/// that owner and that domain, small -- for a string short enough to be
/// one.
#[verifier::rlimit(40)]
pub proof fn law_pairing_read(w: Seq<char>, d: Seq<char>)
    requires
        w.len() > 0,
        forall|i: int| 0 <= i < w.len() ==> !is_ws(#[trigger] w[i]) && w[i] != '@',
        hostname_like(d),
        utf8_len(pair_prefix() + (w + "@"@ + d)) <= 512,
    ensures
        split_spec(pair_prefix() + (w + "@"@ + d)) == Ok::<(Seq<char>, Seq<Seq<char>>), Seq<char>>(
            (w, seq![ascii_lowered(d)]),
        ),
{
    let body = w + "@"@ + d;
    let shown = pair_prefix() + body;
    let k = choose|k: int| 0 <= k < d.len() && d[k] == '.';
    assert(!is_ws(d[d.len() - 1]));
    assert(d.last() == d[d.len() - 1]);
    assert forall|i: int| 0 <= i < d.len() implies #[trigger] d[i] != '@' by {
        assert(hostname_like(d));
    }
    lemma_body_of(w, d);
    lemma_owner_of(w, d);
    law_a_domain_is_read(d);
    reveal_strlit("sqx-pair:");
    assert(shown[0] == 's');
    assert(shown.last() == d.last());
    lemma_trim_plain(shown);
}

} // verus!

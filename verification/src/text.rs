//! Characters and strings, as sequences of `char`.
//!
//! Everything that reads text here reads it as its characters: the
//! positions a person sees, not the bytes underneath. What std answers by
//! the Unicode tables (lower case, letters and digits) is asked of std;
//! whitespace is the short list the standard fixes, and is written out.

use vstd::prelude::*;

verus! {

broadcast use vstd::string::group_string_axioms;

/// Unicode's White_Space property: what `char::is_whitespace` answers.
pub open spec fn is_ws(c: char) -> bool {
    let n = c as u32;
    ||| 0x09 <= n <= 0x0D
    ||| n == 0x20
    ||| n == 0x85
    ||| n == 0xA0
    ||| n == 0x1680
    ||| 0x2000 <= n <= 0x200A
    ||| n == 0x2028
    ||| n == 0x2029
    ||| n == 0x202F
    ||| n == 0x205F
    ||| n == 0x3000
}

/// Whether any character of `s` is whitespace.
pub open spec fn has_ws(s: Seq<char>) -> bool {
    exists|i: int| 0 <= i < s.len() && is_ws(#[trigger] s[i])
}

/// Where the first whitespace in `s` is; its length when there is none.
pub open spec fn first_ws(s: Seq<char>) -> int
    decreases s.len(),
{
    if s.len() == 0 {
        0
    } else if is_ws(s[0]) {
        0
    } else {
        1 + first_ws(s.drop_first())
    }
}

/// `s` without the whitespace it starts with.
pub open spec fn trim_start(s: Seq<char>) -> Seq<char>
    decreases s.len(),
{
    if s.len() > 0 && is_ws(s[0]) {
        trim_start(s.drop_first())
    } else {
        s
    }
}

/// `s` without the whitespace it ends with.
pub open spec fn trim_end(s: Seq<char>) -> Seq<char>
    decreases s.len(),
{
    if s.len() > 0 && is_ws(s.last()) {
        trim_end(s.drop_last())
    } else {
        s
    }
}

/// `s` without whitespace at either end: what `str::trim` gives.
pub open spec fn trim(s: Seq<char>) -> Seq<char> {
    trim_end(trim_start(s))
}

/// Whether `p` is where `s` starts.
pub open spec fn starts_with(s: Seq<char>, p: Seq<char>) -> bool {
    p.len() <= s.len() && s.take(p.len() as int) == p
}

/// An ASCII capital made small; anything else as it is.
pub open spec fn ascii_lower(c: char) -> char {
    if 'A' <= c <= 'Z' {
        ((c as u32) + 32) as char
    } else {
        c
    }
}

/// Whether every character of `s` is ASCII.
pub open spec fn all_ascii(s: Seq<char>) -> bool {
    forall|i: int| 0 <= i < s.len() ==> (#[trigger] s[i] as u32) < 128
}

/// What `str::to_lowercase` makes of text that is not all ASCII: Unicode's
/// lower-case mapping, which is std's and is not written out here.
pub uninterp spec fn unicode_lower(s: Seq<char>) -> Seq<char>;

/// What `str::to_lowercase` makes of `s`: of ASCII text, the capitals
/// lowered and the rest kept; of any other, Unicode's mapping.
pub open spec fn lowercase(s: Seq<char>) -> Seq<char> {
    if all_ascii(s) {
        s.map_values(|c: char| ascii_lower(c))
    } else {
        unicode_lower(s)
    }
}

/// What `char::is_alphanumeric` answers: Unicode's Alphabetic or Numeric.
pub uninterp spec fn alphanumeric(c: char) -> bool;

/// Whether `c` is a letter or a digit, as `char::is_alphanumeric` answers:
/// of ASCII, the letters and the digits; of the rest, by the Unicode
/// tables.
pub open spec fn word_char(c: char) -> bool {
    if (c as u32) < 128 {
        ('a' <= c && c <= 'z') || ('A' <= c && c <= 'Z') || ('0' <= c && c <= '9')
    } else {
        alphanumeric(c)
    }
}

/// The decimal digits of `n`, most significant first; "0" for nought.
pub open spec fn decimal(n: nat) -> Seq<char>
    decreases n,
{
    if n < 10 {
        seq![digit(n)]
    } else {
        decimal(n / 10).push(digit(n % 10))
    }
}

/// The digit for `d`, below ten.
pub open spec fn digit(d: nat) -> char {
    ((d + 48) as u32) as char
}

/// Whether `c` is whitespace, by [`is_ws`].
pub fn char_is_ws(c: char) -> (r: bool)
    ensures
        r == is_ws(c),
{
    let n = c as u32;
    (0x09 <= n && n <= 0x0D) || n == 0x20 || n == 0x85 || n == 0xA0 || n == 0x1680 || (0x2000
        <= n && n <= 0x200A) || n == 0x2028 || n == 0x2029 || n == 0x202F || n == 0x205F || n
        == 0x3000
}

/// std's `str::to_lowercase`. Of ASCII text it is documented to lower the
/// capitals and keep everything else, which is stated; of other text the
/// result is Unicode's mapping, named [`unicode_lower`] and not written out.
#[verifier::external_body]
pub(crate) fn lower(s: &str) -> (r: String)
    ensures
        all_ascii(s@) ==> r@ == s@.map_values(|c: char| ascii_lower(c)),
        !all_ascii(s@) ==> r@ == unicode_lower(s@),
{
    s.to_lowercase()
}

/// std's `char::is_alphanumeric`, by the Unicode tables: Alphabetic or
/// Numeric. Of ASCII, that is the letters and the digits and nothing else;
/// of the rest, the tables are named [`alphanumeric`] and not written out.
#[verifier::external_body]
pub(crate) fn char_is_alphanumeric(c: char) -> (r: bool)
    ensures
        r == alphanumeric(c),
        (c as u32) < 128 ==> r == (('a' <= c && c <= 'z') || ('A' <= c && c <= 'Z') || ('0' <= c
            && c <= '9')),
{
    c.is_alphanumeric()
}

/// std's `String::push`.
#[verifier::external_body]
pub(crate) fn push_char(s: &mut String, c: char)
    ensures
        final(s)@ == old(s)@.push(c),
{
    s.push(c);
}

/// The characters of `s`, in order.
pub fn chars_of(s: &str) -> (out: Vec<char>)
    ensures
        out@ == s@,
{
    let mut out: Vec<char> = Vec::new();
    for c in it: s.chars()
        invariant
            it.seq() == s@,
            out@ == it.seq().take(it.index() as int),
    {
        out.push(c);
    }
    out
}

/// `v[lo..hi]` appended to `s`.
pub fn push_range(s: &mut String, v: &Vec<char>, lo: usize, hi: usize)
    requires
        lo <= hi <= v@.len(),
    ensures
        final(s)@ == old(s)@ + v@.subrange(lo as int, hi as int),
{
    let mut i = lo;
    while i < hi
        invariant
            lo <= i <= hi <= v@.len(),
            s@ == old(s)@ + v@.subrange(lo as int, i as int),
        decreases hi - i,
    {
        push_char(s, v[i]);
        assert(v@.subrange(lo as int, i + 1) == v@.subrange(lo as int, i as int).push(v@[i as int]));
        i = i + 1;
    }
}

/// `t` appended to `s`.
pub fn push_str(s: &mut String, t: &str)
    ensures
        final(s)@ == old(s)@ + t@,
{
    let v = chars_of(t);
    push_range(s, &v, 0, v.len());
    assert(v@.subrange(0, v@.len() as int) == v@);
}

/// `v[lo..hi]` as a string of its own.
pub fn string_of(v: &Vec<char>, lo: usize, hi: usize) -> (r: String)
    requires
        lo <= hi <= v@.len(),
    ensures
        r@ == v@.subrange(lo as int, hi as int),
{
    let mut r = String::new();
    push_range(&mut r, v, lo, hi);
    r
}

/// The string whose characters are `s`.
pub fn copy_str(s: &str) -> (r: String)
    ensures
        r@ == s@,
{
    let mut r = String::new();
    push_str(&mut r, s);
    r
}

/// Whether `v[lo..hi]` holds exactly the characters of `w`.
pub fn range_is(v: &Vec<char>, lo: usize, hi: usize, w: &str) -> (r: bool)
    requires
        lo <= hi <= v@.len(),
    ensures
        r == (v@.subrange(lo as int, hi as int) == w@),
{
    let wv = chars_of(w);
    if hi - lo != wv.len() {
        return false;
    }
    let mut i: usize = 0;
    while i < wv.len()
        invariant
            lo <= hi <= v@.len(),
            hi - lo == wv@.len(),
            wv@ == w@,
            i <= wv@.len(),
            forall|j: int| 0 <= j < i ==> v@[lo + j] == wv@[j],
        decreases wv@.len() - i,
    {
        if v[lo + i] != wv[i] {
            assert(v@.subrange(lo as int, hi as int)[i as int] != w@[i as int]);
            return false;
        }
        i = i + 1;
    }
    assert(v@.subrange(lo as int, hi as int) =~= w@);
    true
}

/// Whether `s` starts with `p`.
pub fn vec_starts_with(s: &Vec<char>, p: &Vec<char>) -> (r: bool)
    ensures
        r == starts_with(s@, p@),
{
    if p.len() > s.len() {
        return false;
    }
    let mut i: usize = 0;
    while i < p.len()
        invariant
            p@.len() <= s@.len(),
            i <= p@.len(),
            forall|j: int| 0 <= j < i ==> s@[j] == p@[j],
        decreases p@.len() - i,
    {
        if s[i] != p[i] {
            assert(s@.take(p@.len() as int)[i as int] != p@[i as int]);
            return false;
        }
        i = i + 1;
    }
    assert(s@.take(p@.len() as int) =~= p@);
    true
}

/// Leading whitespace skipped from `lo`: the first position at or after
/// `lo`, and before `hi`, that is not whitespace, or `hi`.
pub fn skip_ws(v: &Vec<char>, lo: usize, hi: usize) -> (k: usize)
    requires
        lo <= hi <= v@.len(),
    ensures
        lo <= k <= hi,
        trim_start(v@.subrange(lo as int, hi as int)) == v@.subrange(k as int, hi as int),
{
    let mut k = lo;
    while k < hi && char_is_ws(v[k])
        invariant
            lo <= k <= hi <= v@.len(),
            trim_start(v@.subrange(lo as int, hi as int)) == trim_start(
                v@.subrange(k as int, hi as int),
            ),
        decreases hi - k,
    {
        assert(v@.subrange(k as int, hi as int).drop_first() =~= v@.subrange(k + 1, hi as int));
        k = k + 1;
    }
    k
}

/// Trailing whitespace dropped before `hi`: the position just after the
/// last character in `lo..hi` that is not whitespace, or `lo`.
pub fn drop_ws(v: &Vec<char>, lo: usize, hi: usize) -> (k: usize)
    requires
        lo <= hi <= v@.len(),
    ensures
        lo <= k <= hi,
        trim_end(v@.subrange(lo as int, hi as int)) == v@.subrange(lo as int, k as int),
{
    let mut k = hi;
    while k > lo && char_is_ws(v[k - 1])
        invariant
            lo <= k <= hi <= v@.len(),
            trim_end(v@.subrange(lo as int, hi as int)) == trim_end(
                v@.subrange(lo as int, k as int),
            ),
        decreases k - lo,
    {
        assert(v@.subrange(lo as int, k as int).drop_last() =~= v@.subrange(lo as int, k - 1));
        k = k - 1;
    }
    k
}

/// `v[lo..hi]` trimmed at both ends, as the bounds of what is left.
pub fn trim_range(v: &Vec<char>, lo: usize, hi: usize) -> (r: (usize, usize))
    requires
        lo <= hi <= v@.len(),
    ensures
        lo <= r.0 <= r.1 <= hi,
        trim(v@.subrange(lo as int, hi as int)) == v@.subrange(r.0 as int, r.1 as int),
{
    let a = skip_ws(v, lo, hi);
    let b = drop_ws(v, a, hi);
    (a, b)
}

/// The first whitespace in `v[lo..hi]`, as a position in `v`; `hi` when
/// there is none.
pub fn find_ws(v: &Vec<char>, lo: usize, hi: usize) -> (k: usize)
    requires
        lo <= hi <= v@.len(),
    ensures
        lo <= k <= hi,
        k - lo == first_ws(v@.subrange(lo as int, hi as int)),
{
    let mut k = lo;
    while k < hi && !char_is_ws(v[k])
        invariant
            lo <= k <= hi <= v@.len(),
            first_ws(v@.subrange(lo as int, hi as int)) == (k - lo) + first_ws(
                v@.subrange(k as int, hi as int),
            ),
        decreases hi - k,
    {
        assert(v@.subrange(k as int, hi as int).drop_first() =~= v@.subrange(k + 1, hi as int));
        k = k + 1;
    }
    k
}

/// The first whitespace of a sequence is whitespace, and nothing before it
/// is: [`first_ws`] read as a search.
pub proof fn lemma_first_ws(s: Seq<char>)
    ensures
        0 <= first_ws(s) <= s.len(),
        first_ws(s) < s.len() ==> is_ws(s[first_ws(s)]),
        forall|i: int| 0 <= i < first_ws(s) ==> !is_ws(#[trigger] s[i]),
        has_ws(s) <==> first_ws(s) < s.len(),
    decreases s.len(),
{
    if s.len() > 0 && !is_ws(s[0]) {
        lemma_first_ws(s.drop_first());
        assert forall|i: int| 0 <= i < first_ws(s) implies !is_ws(#[trigger] s[i]) by {
            if i > 0 {
                assert(s[i] == s.drop_first()[i - 1]);
            }
        }
        if has_ws(s) {
            let i = choose|i: int| 0 <= i < s.len() && is_ws(#[trigger] s[i]);
            assert(s.drop_first()[i - 1] == s[i]);
        }
        if first_ws(s) < s.len() {
            assert(s[first_ws(s)] == s.drop_first()[first_ws(s) - 1]);
        }
    }
}

/// The decimal digits of `n`, appended to `s`.
pub fn push_decimal(s: &mut String, n: u64)
    ensures
        final(s)@ == old(s)@ + decimal(n as nat),
    decreases n,
{
    if n >= 10 {
        push_decimal(s, n / 10);
    }
    let d = (n % 10) as u8;
    let c = (d + 48u8) as char;
    push_char(s, c);
}


/// `c` with an ASCII capital made small.
pub fn ascii_lower_char(c: char) -> (r: char)
    ensures
        r == ascii_lower(c),
{
    if 'A' <= c && c <= 'Z' {
        let n: u8 = ((c as u32) + 32) as u8;
        assert(n == (c as u32) + 32);
        n as char
    } else {
        c
    }
}

/// Whether `a` and `b` are the same but for ASCII case: what
/// `str::eq_ignore_ascii_case` answers, the two ASCII-lowered and compared.
pub fn same_ignoring_ascii_case(a: &str, b: &str) -> (r: bool)
    ensures
        r == (a@.map_values(|c: char| ascii_lower(c)) == b@.map_values(|c: char| ascii_lower(c))),
{
    let x = chars_of(a);
    let y = chars_of(b);
    let ghost xl = a@.map_values(|c: char| ascii_lower(c));
    let ghost yl = b@.map_values(|c: char| ascii_lower(c));
    if x.len() != y.len() {
        assert(xl.len() != yl.len());
        return false;
    }
    let mut i: usize = 0;
    while i < x.len()
        invariant
            i <= x@.len(),
            x@ == a@,
            y@ == b@,
            x@.len() == y@.len(),
            xl == a@.map_values(|c: char| ascii_lower(c)),
            yl == b@.map_values(|c: char| ascii_lower(c)),
            forall|j: int| 0 <= j < i ==> xl[j] == yl[j],
        decreases x@.len() - i,
    {
        if ascii_lower_char(x[i]) != ascii_lower_char(y[i]) {
            assert(xl[i as int] != yl[i as int]);
            return false;
        }
        i = i + 1;
    }
    assert(xl =~= yl);
    true
}


/// What was typed in a field, as it is acted on: the words trimmed, when
/// there are any; nothing when the field holds only whitespace.
pub fn entered(typed: &str) -> (r: Option<String>)
    ensures
        trim(typed@).len() == 0 ==> r is None,
        trim(typed@).len() > 0 ==> (r matches Some(n) && n@ == trim(typed@)),
{
    let all = chars_of(typed);
    let (a, b) = trim_range(&all, 0, all.len());
    assert(all@.subrange(0, all@.len() as int) =~= all@);
    if a == b {
        return None;
    }
    Some(string_of(&all, a, b))
}

} // verus!

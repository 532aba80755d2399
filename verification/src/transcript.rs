//! How a conversation's transcript is laid out, decided over what its
//! messages and events are: where the events the exchange recorded fall
//! among the messages, where a new day and the unread divider go, which
//! bubbles are grouped under the one before, what is drawn for messages
//! just sent, and what becomes of a message somebody asked to go to.

use vstd::prelude::*;

use crate::composer::{Composer, Unsent, blank};
use crate::key::{Key, same_key};
use crate::text::{chars_of, copy_str, decimal, push_decimal, push_str, trim_range};

verus! {

broadcast use vstd::string::group_string_axioms;

/// The numbers a message just sent is drawn under until the exchange has
/// answered: this client's own, above any the exchange hands out.
pub const ECHO_SEQ: u64 = 18446744073709550591;

/// How long after the last message by the same person a message is still
/// part of the same thought, in seconds: a reply an hour later is a new
/// one, and carries its own time and name.
pub const GROUPED_SECS: u64 = 300;

/// Whether the message numbered `seq` is one of ours not yet answered for.
pub open spec fn waiting(seq: u64) -> bool {
    seq >= ECHO_SEQ
}

/// The words on the way back into the rest of a conversation.
pub open spec fn earlier_words(n: nat) -> Seq<char> {
    if n == 1 {
        "1 earlier message"@
    } else {
        decimal(n) + " earlier messages"@
    }
}

/// The way back into the rest of a conversation, in words: it says it is a
/// door and not the beginning.
pub fn earlier_label(n: u64) -> (r: String)
    ensures
        r@ == earlier_words(n as nat),
{
    if n == 1 {
        return copy_str("1 earlier message");
    }
    let mut r = String::new();
    push_decimal(&mut r, n);
    push_str(&mut r, " earlier messages");
    r
}

/// What is known of one message for laying it out.
pub struct LineFacts {
    pub seq: u64,
    pub who: Key,
    /// When it was said, in seconds.
    pub at: u64,
    /// The day it was said on, as the host counts days; `None` when the
    /// host cannot say.
    pub day: Option<u64>,
}

/// One row of the transcript.
#[derive(Debug, Clone, Copy, PartialEq, Eq, Structural)]
pub enum Row {
    /// The event at this place in the list of events.
    Event(usize),
    /// A separator for the new day the message at this place starts.
    Day(usize),
    /// The unread divider, above the message at this place.
    Divider(usize),
    /// The message at this place; `grouped` under the one before it.
    Bubble { line: usize, grouped: bool },
}

/// Where a layout stands between messages: the next event, the day, author
/// and time of the last message, and the rows so far.
pub type Laid = (int, Option<u64>, Option<Key>, u64, Seq<Row>);

/// The events from `ev` on recorded before the message numbered `seq`,
/// laid: each an event row, and the next message starts a group of its
/// own when there was any.
pub open spec fn flush(events: Seq<u64>, seq: u64, st: Laid) -> Laid
    decreases events.len() - st.0,
{
    if 0 <= st.0 < events.len() && events[st.0] < seq {
        flush(events, seq, (st.0 + 1, st.1, None, st.3, st.4.push(Row::Event(st.0 as usize))))
    } else {
        st
    }
}

/// One message laid: the events before it, a new day's separator, the
/// unread divider where it was frozen, and the bubble -- grouped when the
/// same person said the message before, less than [`GROUPED_SECS`] before,
/// with nothing between.
pub open spec fn lay_line(events: Seq<u64>, divider: Option<u64>, i: int, l: LineFacts, st: Laid) -> Laid {
    let f = flush(events, l.seq, st);
    let d = if l.day != f.1 {
        (f.0, l.day, None::<Key>, f.3, f.4.push(Row::Day(i as usize)))
    } else {
        f
    };
    let v = if divider == Some(l.seq) {
        (d.0, d.1, None::<Key>, d.3, d.4.push(Row::Divider(i as usize)))
    } else {
        d
    };
    let since = if l.at >= v.3 {
        (l.at - v.3) as nat
    } else {
        0
    };
    let grouped = v.2 == Some(l.who) && since < GROUPED_SECS && divider != Some(l.seq);
    (v.0, v.1, Some(l.who), l.at, v.4.push(Row::Bubble { line: i as usize, grouped }))
}

/// The first `n` messages laid, in order.
pub open spec fn lay_lines(lines: Seq<LineFacts>, events: Seq<u64>, divider: Option<u64>, n: int) -> Laid
    decreases n,
{
    if n <= 0 {
        (0, None, None, 0, Seq::empty())
    } else {
        lay_line(events, divider, n - 1, lines[n - 1], lay_lines(lines, events, divider, n - 1))
    }
}

/// The events left after the last message, laid.
pub open spec fn flush_rest(events: Seq<u64>, ev: int, rows: Seq<Row>) -> Seq<Row>
    decreases events.len() - ev,
{
    if 0 <= ev < events.len() {
        flush_rest(events, ev + 1, rows.push(Row::Event(ev as usize)))
    } else {
        rows
    }
}

/// The whole transcript laid.
pub open spec fn plan_of(lines: Seq<LineFacts>, events: Seq<u64>, divider: Option<u64>) -> Seq<Row> {
    let st = lay_lines(lines, events, divider, lines.len() as int);
    flush_rest(events, st.0, st.4)
}

/// The transcript laid out: what the exchange recorded happening in the
/// order it happened relative to what was said -- `events` holds the
/// message number each event came before -- a separator on each new day,
/// the unread divider frozen where it was on opening, and each message,
/// grouped under the one before when the same person said it recently with
/// nothing between. Whatever happened after the last message comes last.
pub fn plan(lines: &[LineFacts], events: &[u64], divider: Option<u64>) -> (rows: Vec<Row>)
    requires
        events@.len() < usize::MAX,
    ensures
        rows@ == plan_of(lines@, events@, divider),
{
    let mut rows: Vec<Row> = Vec::new();
    let mut ev: usize = 0;
    let mut day: Option<u64> = None;
    let mut author: Option<Key> = None;
    let mut last_at: u64 = 0;
    let mut i: usize = 0;
    while i < lines.len()
        invariant
            i <= lines@.len(),
            events@.len() < usize::MAX,
            ev <= events@.len(),
            (ev as int, day, author, last_at, rows@) == lay_lines(lines@, events@, divider, i as int),
        decreases lines@.len() - i,
    {
        let l = &lines[i];
        let ghost st = (ev as int, day, author, last_at, rows@);
        while ev < events.len() && events[ev] < l.seq
            invariant
                ev <= events@.len() < usize::MAX,
                flush(events@, l.seq, st) == flush(
                    events@,
                    l.seq,
                    (ev as int, day, author, last_at, rows@),
                ),
                st.0 <= ev,
            decreases events@.len() - ev,
        {
            rows.push(Row::Event(ev));
            author = None;
            ev = ev + 1;
        }
        let new_day = match (l.day, day) {
            (Some(a), Some(b)) => a != b,
            (None, None) => false,
            _ => true,
        };
        if new_day {
            rows.push(Row::Day(i));
            day = l.day;
            author = None;
        }
        let at_divider = match divider {
            Some(d) => d == l.seq,
            None => false,
        };
        if at_divider {
            rows.push(Row::Divider(i));
            author = None;
        }
        let same = match author {
            Some(a) => same_key(&a, &l.who),
            None => false,
        };
        let since = if l.at >= last_at {
            l.at - last_at
        } else {
            0
        };
        let grouped = same && since < GROUPED_SECS && !at_divider;
        rows.push(Row::Bubble { line: i, grouped });
        author = Some(l.who);
        last_at = l.at;
        i = i + 1;
    }
    let ghost rest = rows@;
    let ghost from = ev as int;
    while ev < events.len()
        invariant
            ev <= events@.len() < usize::MAX,
            flush_rest(events@, from, rest) == flush_rest(events@, ev as int, rows@),
        decreases events@.len() - ev,
    {
        rows.push(Row::Event(ev));
        ev = ev + 1;
    }
    rows
}

/// What becomes of a message somebody asked to go to.
#[derive(Debug, Clone, Copy, PartialEq, Eq, Structural)]
pub enum Jump {
    /// Laid out this pass: scroll to it, mark it, and the asking is done.
    Scroll,
    /// On a page not yet here: the previous page is asked for, once.
    AskEarlier,
    /// On a page already asked for: wait for it.
    Wait,
    /// Not here and no page to arrive on: let go of.
    Drop,
}

/// What becomes of a message somebody asked to go to, numbered `target`:
/// `landed` is whether it was laid out this pass, `first` the number of
/// the first message here, `earlier` how many there are before it, and
/// `asking` whether the previous page is already asked for.
pub open spec fn jump_of(landed: bool, first: Option<u64>, target: u64, earlier: u64, asking: bool) -> Jump {
    if landed {
        Jump::Scroll
    } else if (first matches Some(f) && f > target) && earlier > 0 {
        if asking {
            Jump::Wait
        } else {
            Jump::AskEarlier
        }
    } else {
        Jump::Drop
    }
}

/// What becomes of a message somebody asked to go to, by [`jump_of`]. An
/// ask that never resolves would fetch every page of the channel, so one
/// that cannot arrive is let go of.
pub fn jump_next(landed: bool, first: Option<u64>, target: u64, earlier: u64, asking: bool) -> (r: Jump)
    ensures
        r == jump_of(landed, first, target, earlier, asking),
{
    if landed {
        return Jump::Scroll;
    }
    let before = match first {
        Some(f) => f > target,
        None => false,
    };
    if before && earlier > 0 {
        if asking {
            Jump::Wait
        } else {
            Jump::AskEarlier
        }
    } else {
        Jump::Drop
    }
}

/// Whether a message in flight is drawn as sent: not a rewrite, which has a
/// message of its own on screen already, and not empty of both words and
/// files.
pub open spec fn echoed(u: Unsent) -> bool {
    u.editing is None && !(blank(u.composing@) && u.staged@.len() == 0)
}

/// The places in `f` of the messages drawn as sent, in order.
pub open spec fn echoes_of(f: Seq<Unsent>) -> Seq<int>
    decreases f.len(),
{
    if f.len() == 0 {
        Seq::empty()
    } else if echoed(f.last()) {
        echoes_of(f.drop_last()).push(f.len() - 1)
    } else {
        echoes_of(f.drop_last())
    }
}

/// What was just sent, drawn before the exchange has answered: for each
/// message in flight drawn as sent, its place in flight and the number it
/// is drawn under, [`ECHO_SEQ`] and on.
pub fn echoes(c: &Composer) -> (r: Vec<(usize, u64)>)
    requires
        c.in_flight@.len() <= 1025,
    ensures
        r@.len() == echoes_of(c.in_flight@).len(),
        forall|k: int|
            0 <= k < r@.len() ==> (#[trigger] r@[k]).0 == echoes_of(c.in_flight@)[k] && r@[k].1
                == ECHO_SEQ + k,
{
    let mut r: Vec<(usize, u64)> = Vec::new();
    let mut i: usize = 0;
    while i < c.in_flight.len()
        invariant
            i <= c.in_flight@.len() <= 1025,
            r@.len() == echoes_of(c.in_flight@.take(i as int)).len(),
            r@.len() <= i,
            forall|k: int|
                0 <= k < r@.len() ==> (#[trigger] r@[k]).0 == echoes_of(c.in_flight@.take(i as int))[k]
                    && r@[k].1 == ECHO_SEQ + k,
        decreases c.in_flight@.len() - i,
    {
        assert(c.in_flight@.take(i + 1).drop_last() =~= c.in_flight@.take(i as int));
        assert(c.in_flight@.take(i + 1).last() == c.in_flight@[i as int]);
        let u = &c.in_flight[i];
        let v = chars_of(u.composing.as_str());
        let (a, b) = trim_range(&v, 0, v.len());
        assert(v@.subrange(0, v@.len() as int) =~= v@);
        if u.editing.is_none() && !(a == b && u.staged.len() == 0) {
            let n = r.len() as u64;
            r.push((i, ECHO_SEQ + n));
        }
        i = i + 1;
    }
    assert(c.in_flight@.take(c.in_flight@.len() as int) =~= c.in_flight@);
    r
}

/// Whether the row at `k` of `rows` is grouped only as a group may be: a
/// grouped bubble comes straight after the bubble of the message before
/// it, said by the same person, on the same day, less than
/// [`GROUPED_SECS`] before, and not at the unread divider.
pub open spec fn grouped_rightly(lines: Seq<LineFacts>, divider: Option<u64>, rows: Seq<Row>, k: int) -> bool {
    match rows[k] {
        Row::Bubble { line, grouped } => grouped ==> {
            let i = line as int;
            &&& 0 < i < lines.len()
            &&& k > 0
            &&& rows[k - 1] matches Row::Bubble { line: p, .. } && p == i - 1
            &&& lines[i - 1].who == lines[i].who
            &&& lines[i - 1].day == lines[i].day
            &&& divider != Some(lines[i].seq)
            &&& (if lines[i].at >= lines[i - 1].at {
                (lines[i].at - lines[i - 1].at) as nat
            } else {
                0nat
            }) < GROUPED_SECS
        },
        _ => true,
    }
}

/// Laying the events before a message appends event rows, and forgets the
/// author when there was any.
proof fn lemma_flush(events: Seq<u64>, seq: u64, st: Laid)
    ensures
        flush(events, seq, st).4.len() >= st.4.len(),
        flush(events, seq, st).4.take(st.4.len() as int) == st.4,
        forall|k: int|
            st.4.len() <= k < flush(events, seq, st).4.len() ==> #[trigger] flush(events, seq, st).4[k] is Event,
        flush(events, seq, st).1 == st.1,
        flush(events, seq, st).3 == st.3,
        flush(events, seq, st).4.len() == st.4.len() ==> flush(events, seq, st) == st,
        flush(events, seq, st).4.len() > st.4.len() ==> flush(events, seq, st).2 is None,
    decreases events.len() - st.0,
{
    if 0 <= st.0 < events.len() && events[st.0] < seq {
        let nx = (st.0 + 1, st.1, None::<Key>, st.3, st.4.push(Row::Event(st.0 as usize)));
        lemma_flush(events, seq, nx);
        let f = flush(events, seq, st);
        assert(f.4.take(nx.4.len() as int) == nx.4);
        assert(f.4.take(st.4.len() as int) =~= nx.4.take(st.4.len() as int));
        assert(nx.4.take(st.4.len() as int) =~= st.4);
        assert forall|k: int| st.4.len() <= k < f.4.len() implies #[trigger] f.4[k] is Event by {
            if k == st.4.len() {
                assert(f.4[k] == f.4.take(nx.4.len() as int)[k]);
                assert(nx.4[k] == Row::Event(st.0 as usize));
            }
        }
        if f.4.len() > nx.4.len() {
        } else {
            assert(f == nx);
        }
    }
}

/// What laying out the first `n` messages keeps true: an author is
/// remembered only straight after that author's bubble, and every grouped
/// bubble so far is grouped rightly.
proof fn lemma_lay(lines: Seq<LineFacts>, events: Seq<u64>, divider: Option<u64>, n: int)
    requires
        0 <= n <= lines.len(),
        lines.len() <= usize::MAX,
    ensures
        ({
            let st = lay_lines(lines, events, divider, n);
            &&& st.2 is Some ==> {
                &&& n > 0
                &&& st.2 == Some(lines[n - 1].who)
                &&& st.3 == lines[n - 1].at
                &&& st.1 == lines[n - 1].day
                &&& st.4.len() > 0
                &&& st.4.last() matches Row::Bubble { line, .. } && line == n - 1
            }
            &&& forall|k: int| 0 <= k < st.4.len() ==> grouped_rightly(lines, divider, st.4, k)
        }),
    decreases n,
{
    if n > 0 {
        lemma_lay(lines, events, divider, n - 1);
        let st = lay_lines(lines, events, divider, n - 1);
        let l = lines[n - 1];
        let i = n - 1;
        lemma_flush(events, l.seq, st);
        let f = flush(events, l.seq, st);
        let d = if l.day != f.1 {
            (f.0, l.day, None::<Key>, f.3, f.4.push(Row::Day(i as usize)))
        } else {
            f
        };
        let v = if divider == Some(l.seq) {
            (d.0, d.1, None::<Key>, d.3, d.4.push(Row::Divider(i as usize)))
        } else {
            d
        };
        let since = if l.at >= v.3 {
            (l.at - v.3) as nat
        } else {
            0
        };
        let grouped = v.2 == Some(l.who) && since < GROUPED_SECS && divider != Some(l.seq);
        let out = lay_lines(lines, events, divider, n);
        assert(out == (v.0, v.1, Some(l.who), l.at, v.4.push(Row::Bubble { line: i as usize, grouped })));
        assert(v.4.len() >= st.4.len());
        assert(v.4.take(st.4.len() as int) =~= st.4) by {
            assert(f.4.take(st.4.len() as int) == st.4);
        }
        assert forall|k: int| 0 <= k < out.4.len() implies grouped_rightly(lines, divider, out.4, k) by {
            if k < st.4.len() {
                assert(out.4[k] == st.4[k]) by {
                    assert(out.4[k] == v.4[k]);
                    assert(v.4.take(st.4.len() as int)[k] == v.4[k]);
                }
                assert(grouped_rightly(lines, divider, st.4, k));
                if k > 0 {
                    assert(out.4[k - 1] == st.4[k - 1]) by {
                        assert(v.4.take(st.4.len() as int)[k - 1] == v.4[k - 1]);
                    }
                }
            } else if k < v.4.len() {
                assert(v.4[k] is Event || v.4[k] is Day || v.4[k] is Divider) by {
                    if k < f.4.len() {
                        assert(f.4[k] is Event);
                        if d.4.len() > f.4.len() {
                            assert(d.4[k] == f.4[k]);
                        }
                        if v.4.len() > d.4.len() {
                            assert(v.4[k] == d.4[k]);
                        }
                    } else if k < d.4.len() {
                        if v.4.len() > d.4.len() {
                            assert(v.4[k] == d.4[k]);
                        }
                    }
                }
                assert(out.4[k] == v.4[k]);
            } else {
                assert(k == v.4.len());
                if grouped {
                    assert(v == st) by {
                        assert(d == f);
                        assert(v == d);
                        assert(f.4.len() == st.4.len());
                    }
                    assert(st.4.last() matches Row::Bubble { line, .. } && line == n - 2);
                    assert(out.4[k - 1] == st.4.last());
                }
            }
        }
    }
}

/// **A group is one person, soon, with nothing between.** A bubble is
/// drawn grouped under the one before only when that is the bubble of the
/// message just before it, said by the same person on the same day less
/// than [`GROUPED_SECS`] before, with no event, new day or unread divider
/// between them.
pub proof fn law_grouping(lines: Seq<LineFacts>, events: Seq<u64>, divider: Option<u64>)
    requires
        lines.len() <= usize::MAX,
    ensures
        forall|k: int|
            0 <= k < plan_of(lines, events, divider).len() ==> grouped_rightly(
                lines,
                divider,
                plan_of(lines, events, divider),
                k,
            ),
{
    lemma_lay(lines, events, divider, lines.len() as int);
    let st = lay_lines(lines, events, divider, lines.len() as int);
    lemma_flush_rest(lines, events, divider, st.0, st.4);
}

/// Laying the events after the last message keeps every grouping right.
proof fn lemma_flush_rest(lines: Seq<LineFacts>, events: Seq<u64>, divider: Option<u64>, ev: int, rows: Seq<Row>)
    requires
        forall|k: int| 0 <= k < rows.len() ==> grouped_rightly(lines, divider, rows, k),
    ensures
        forall|k: int|
            0 <= k < flush_rest(events, ev, rows).len() ==> grouped_rightly(
                lines,
                divider,
                flush_rest(events, ev, rows),
                k,
            ),
    decreases events.len() - ev,
{
    if 0 <= ev < events.len() {
        let nx = rows.push(Row::Event(ev as usize));
        assert forall|k: int| 0 <= k < nx.len() implies grouped_rightly(lines, divider, nx, k) by {
            if k < rows.len() {
                assert(nx[k] == rows[k]);
                assert(grouped_rightly(lines, divider, rows, k));
                if k > 0 {
                    assert(nx[k - 1] == rows[k - 1]);
                }
            }
        }
        lemma_flush_rest(lines, events, divider, ev + 1, nx);
        assert(flush_rest(events, ev, rows) == flush_rest(events, ev + 1, nx));
    }
}


/// The pictures to forget: for each id drawn before and not among those
/// the transcript still holds the bytes of, the picture and its preview,
/// by the names the widget registered them under.
pub open spec fn forget_uris(drawn: Seq<Seq<char>>, here: Seq<Seq<char>>) -> Seq<Seq<char>>
    decreases drawn.len(),
{
    if drawn.len() == 0 {
        Seq::empty()
    } else {
        let rest = forget_uris(drawn.drop_last(), here);
        let d = drawn.last();
        if here.contains(d) {
            rest
        } else {
            rest.push("bytes://"@ + d).push("bytes://"@ + d + "-preview"@)
        }
    }
}

/// Whether `t` is among `v`, by looking.
fn has_text(v: &[String], t: &String) -> (r: bool)
    ensures
        r == v@.map_values(|s: String| s@).contains(t@),
{
    let ghost views = v@.map_values(|s: String| s@);
    let mut i: usize = 0;
    while i < v.len()
        invariant
            i <= v@.len(),
            views == v@.map_values(|s: String| s@),
            forall|j: int| 0 <= j < i ==> views[j] != t@,
        decreases v@.len() - i,
    {
        if v[i] == *t {
            assert(views[i as int] == t@);
            return true;
        }
        i = i + 1;
    }
    false
}

/// What to tell the widget to forget of the pictures it was given: each
/// id drawn and no longer held -- the picture, and its preview. The
/// widget holds the bytes of everything it was handed until it is told,
/// so without this its cache grows for the life of the process, after
/// the session has let its own copy go. The host then draws from `here`.
pub fn images_gone(drawn: &[String], here: &[String]) -> (r: Vec<String>)
    ensures
        r@.map_values(|s: String| s@) == forget_uris(
            drawn@.map_values(|s: String| s@),
            here@.map_values(|s: String| s@),
        ),
{
    let ghost ds = drawn@.map_values(|s: String| s@);
    let ghost hs = here@.map_values(|s: String| s@);
    let mut r: Vec<String> = Vec::new();
    let mut i: usize = 0;
    while i < drawn.len()
        invariant
            i <= drawn@.len(),
            ds == drawn@.map_values(|s: String| s@),
            hs == here@.map_values(|s: String| s@),
            r@.map_values(|s: String| s@) == forget_uris(ds.take(i as int), hs),
        decreases drawn@.len() - i,
    {
        assert(ds.take(i + 1).drop_last() =~= ds.take(i as int));
        assert(ds.take(i + 1).last() == drawn@[i as int]@);
        if !has_text(here, &drawn[i]) {
            let ghost before = r@.map_values(|s: String| s@);
            let mut a = copy_str("bytes://");
            push_str(&mut a, drawn[i].as_str());
            let mut b = copy_str("bytes://");
            push_str(&mut b, drawn[i].as_str());
            push_str(&mut b, "-preview");
            r.push(a);
            r.push(b);
            assert(r@.map_values(|s: String| s@) =~= before.push("bytes://"@ + ds[i as int]).push(
                "bytes://"@ + ds[i as int] + "-preview"@,
            ));
        }
        i = i + 1;
    }
    assert(ds.take(drawn@.len() as int) =~= ds);
    r
}


/// What the way back to the foot of a transcript is called: one name, with
/// the count of what is new after it, so anything that cannot see the
/// shape is given the same word whatever the count.
pub open spec fn way_back_words(unread: nat) -> Seq<char> {
    if unread == 0 {
        "Go to the latest"@
    } else {
        "Go to the latest"@ + " \u{2014} "@ + decimal(unread) + " new"@
    }
}

/// The way back's name, by [`way_back_words`].
pub fn way_back_label(unread: u64) -> (r: String)
    ensures
        r@ == way_back_words(unread as nat),
{
    let mut r = copy_str("Go to the latest");
    if unread > 0 {
        push_str(&mut r, " \u{2014} ");
        push_decimal(&mut r, unread);
        push_str(&mut r, " new");
    }
    r
}


/// What a conversation with nothing in it to draw says: that it is still
/// being fetched, or that nothing has been said in it.
pub open spec fn empty_words(loading: bool) -> Seq<char> {
    if loading {
        "Loading this conversation\u{2026}"@
    } else {
        "Nothing here yet."@
    }
}

/// The words of an empty transcript, by [`empty_words`].
pub fn empty_said(loading: bool) -> (r: String)
    ensures
        r@ == empty_words(loading),
{
    if loading {
        copy_str("Loading this conversation\u{2026}")
    } else {
        copy_str("Nothing here yet.")
    }
}


/// Whether a file of kind `k` is one the picture viewer moves through: a
/// picture or a clip, by the kinds messages number them with.
pub open spec fn viewable(k: u8, picture: u8, clip: u8) -> bool {
    k == picture || k == clip
}

/// The places, among a message's files of `kinds`, of those the viewer
/// moves through, in order.
pub open spec fn siblings_of(kinds: Seq<u8>, picture: u8, clip: u8) -> Seq<int>
    decreases kinds.len(),
{
    if kinds.len() == 0 {
        Seq::empty()
    } else {
        let r = siblings_of(kinds.drop_last(), picture, clip);
        if viewable(kinds.last(), picture, clip) {
            r.push(kinds.len() - 1)
        } else {
            r
        }
    }
}

/// Whether `p` is where `x` first stands in `s`.
pub open spec fn place_of(s: Seq<int>, x: int, p: int) -> bool {
    &&& 0 <= p < s.len()
    &&& s[p] == x
    &&& forall|j: int| 0 <= j < p ==> s[j] != x
}

/// **A message's pictures are a set to move through.** Where the viewer
/// goes from the file at `index`, forward or back, wrapping round at
/// either end; nowhere when that file is not among those it moves
/// through, or is the only one.
pub open spec fn step_of(kinds: Seq<u8>, picture: u8, clip: u8, index: int, forward: bool) -> Option<
    int,
> {
    let s = siblings_of(kinds, picture, clip);
    if s.len() > 1 && exists|p: int| #[trigger] place_of(s, index, p) {
        let p = choose|p: int| #[trigger] place_of(s, index, p);
        Some(
            if forward {
                if p + 1 == s.len() {
                    s[0]
                } else {
                    s[p + 1]
                }
            } else {
                if p == 0 {
                    s[s.len() - 1]
                } else {
                    s[p - 1]
                }
            },
        )
    } else {
        None
    }
}

/// Where the file at `index` stands among those the viewer moves through,
/// as the viewer says it: "2 of 3"; nothing when it stands alone or not at
/// all.
pub open spec fn place_words(kinds: Seq<u8>, picture: u8, clip: u8, index: int) -> Option<Seq<char>> {
    let s = siblings_of(kinds, picture, clip);
    if s.len() > 1 && exists|p: int| #[trigger] place_of(s, index, p) {
        let p = choose|p: int| #[trigger] place_of(s, index, p);
        Some(decimal((p + 1) as nat) + " of "@ + decimal(s.len()))
    } else {
        None
    }
}

/// The places of the files the viewer moves through, and where `index`
/// first stands among them.
fn siblings_and_place(kinds: &[u8], picture: u8, clip: u8, index: usize) -> (r: (
    Vec<usize>,
    Option<usize>,
))
    ensures
        r.0@.len() == siblings_of(kinds@, picture, clip).len(),
        forall|k: int|
            0 <= k < r.0@.len() ==> r.0@[k] as int == #[trigger] siblings_of(
                kinds@,
                picture,
                clip,
            )[k],
        match r.1 {
            Some(p) => place_of(siblings_of(kinds@, picture, clip), index as int, p as int),
            None => forall|p: int|
                !#[trigger] place_of(siblings_of(kinds@, picture, clip), index as int, p),
        },
{
    let mut sib: Vec<usize> = Vec::new();
    let mut i: usize = 0;
    while i < kinds.len()
        invariant
            i <= kinds@.len(),
            sib@.len() == siblings_of(kinds@.take(i as int), picture, clip).len(),
            forall|k: int|
                0 <= k < sib@.len() ==> sib@[k] as int == #[trigger] siblings_of(
                    kinds@.take(i as int),
                    picture,
                    clip,
                )[k],
        decreases kinds@.len() - i,
    {
        assert(kinds@.take(i + 1).drop_last() =~= kinds@.take(i as int));
        assert(kinds@.take(i + 1).last() == kinds@[i as int]);
        if kinds[i] == picture || kinds[i] == clip {
            sib.push(i);
        }
        i = i + 1;
    }
    assert(kinds@.take(kinds@.len() as int) =~= kinds@);
    let ghost s = siblings_of(kinds@, picture, clip);
    let mut p: usize = 0;
    while p < sib.len()
        invariant
            s == siblings_of(kinds@, picture, clip),
            p <= sib@.len() == s.len(),
            forall|k: int| 0 <= k < sib@.len() ==> sib@[k] as int == #[trigger] s[k],
            forall|j: int| 0 <= j < p ==> s[j] != index as int,
        decreases sib@.len() - p,
    {
        if sib[p] == index {
            assert(place_of(s, index as int, p as int));
            return (sib, Some(p));
        }
        p = p + 1;
    }
    (sib, None)
}

/// Where the viewer goes from the file at `index` of a message whose
/// files are of `kinds`, by [`step_of`]. `picture` and `clip` are the
/// kinds it moves through.
pub fn picture_step(kinds: &[u8], picture: u8, clip: u8, index: usize, forward: bool) -> (r:
    Option<usize>)
    ensures
        match r {
            Some(i) => step_of(kinds@, picture, clip, index as int, forward) == Some(i as int),
            None => step_of(kinds@, picture, clip, index as int, forward) is None,
        },
{
    let (sib, place) = siblings_and_place(kinds, picture, clip, index);
    let ghost s = siblings_of(kinds@, picture, clip);
    match place {
        Some(p) => {
            if sib.len() <= 1 {
                return None;
            }
            proof {
                let c = choose|c: int| #[trigger] place_of(s, index as int, c);
                if c < p {
                    assert(!place_of(s, index as int, c));
                } else if c > p {
                    assert(!place_of(s, index as int, c));
                }
            }
            let n = sib.len();
            let to = if forward {
                if p + 1 == n {
                    0
                } else {
                    p + 1
                }
            } else {
                if p == 0 {
                    n - 1
                } else {
                    p - 1
                }
            };
            Some(sib[to])
        },
        None => None,
    }
}

/// Where the file at `index` stands among those the viewer moves through,
/// by [`place_words`].
pub fn picture_place(kinds: &[u8], picture: u8, clip: u8, index: usize) -> (r: Option<String>)
    ensures
        match (r, place_words(kinds@, picture, clip, index as int)) {
            (Some(a), Some(b)) => a@ == b,
            (None, None) => true,
            _ => false,
        },
{
    let (sib, place) = siblings_and_place(kinds, picture, clip, index);
    let ghost s = siblings_of(kinds@, picture, clip);
    match place {
        Some(p) => {
            if sib.len() <= 1 {
                return None;
            }
            proof {
                let c = choose|c: int| #[trigger] place_of(s, index as int, c);
                if c < p {
                    assert(!place_of(s, index as int, c));
                } else if c > p {
                    assert(!place_of(s, index as int, c));
                }
            }
            let mut w = String::new();
            push_decimal(&mut w, p as u64 + 1);
            push_str(&mut w, " of ");
            push_decimal(&mut w, sib.len() as u64);
            Some(w)
        },
        None => None,
    }
}


/// What of a message decides how tall its bubble draws, as the host reads
/// it off the message.
pub struct LineLook {
    /// How long its words are, in bytes.
    pub text_len: usize,
    pub redacted: bool,
    pub edited: bool,
    /// Whether the sender has a name to show.
    pub named: bool,
    /// How many reactions it carries.
    pub reactions: usize,
    /// How its sender stands, as the host numbers standings.
    pub standing: u8,
    /// The message it answers, by the length of who said it and of what
    /// was said, when it answers one.
    pub reply: Option<(usize, usize)>,
    /// Whether it mentions us.
    pub me_mentioned: bool,
    /// The length of each name it mentions: a mention is a row of chips,
    /// and a name changes the row's width.
    pub mention_labels: Vec<usize>,
}

/// Everything about a message that decides how tall it draws, with
/// whether it is grouped under the one before -- the author line comes
/// and goes with that. A row reserved for a message is a promise that the
/// drawn one would be this tall, so two messages of one shape draw as tall
/// at one width; the width is kept beside it.
#[derive(Clone, Copy, Debug, PartialEq, Eq, Structural)]
pub struct Shape {
    pub text_len: usize,
    pub redacted: bool,
    pub edited: bool,
    pub grouped: bool,
    pub named: bool,
    pub reactions: usize,
    pub standing: u8,
    pub reply: Option<u128>,
    pub me_mentioned: bool,
    pub mentions: u128,
}

/// The sum of `s`.
pub open spec fn total(s: Seq<usize>) -> int
    decreases s.len(),
{
    if s.len() == 0 {
        0
    } else {
        total(s.drop_last()) + s.last()
    }
}

/// The shape of a message drawn `grouped` or not.
pub open spec fn shape_spec(l: LineLook, grouped: bool) -> Shape {
    Shape {
        text_len: l.text_len,
        redacted: l.redacted,
        edited: l.edited,
        grouped,
        named: l.named,
        reactions: l.reactions,
        standing: l.standing,
        reply: match l.reply {
            Some(q) => Some((q.0 + q.1) as u128),
            None => None,
        },
        me_mentioned: l.me_mentioned,
        mentions: total(l.mention_labels@) as u128,
    }
}

/// The shape of a message, by [`shape_spec`]: what a reserved row is kept
/// under, so a row is drawn again only when something its height is made
/// of has changed.
pub fn shape_of(l: &LineLook, grouped: bool) -> (r: Shape)
    ensures
        r == shape_spec(*l, grouped),
        r.mentions == total(l.mention_labels@),
{
    let mut sum: u128 = 0;
    let mut i: usize = 0;
    while i < l.mention_labels.len()
        invariant
            i <= l.mention_labels@.len(),
            sum == total(l.mention_labels@.take(i as int)),
            sum <= i * (usize::MAX as int),
        decreases l.mention_labels@.len() - i,
    {
        assert(l.mention_labels@.take(i + 1).drop_last() =~= l.mention_labels@.take(i as int));
        assert(l.mention_labels@.take(i + 1).last() == l.mention_labels@[i as int]);
        let x = l.mention_labels[i];
        assert((i + 1) * (usize::MAX as int) == i * (usize::MAX as int) + usize::MAX)
            by (nonlinear_arith);
        assert(i * (usize::MAX as int) + usize::MAX < u128::MAX) by (nonlinear_arith)
            requires
                i < usize::MAX,
                usize::MAX <= u64::MAX,
        ;
        sum = sum + x as u128;
        i = i + 1;
    }
    assert(l.mention_labels@.take(l.mention_labels@.len() as int) =~= l.mention_labels@);
    Shape {
        text_len: l.text_len,
        redacted: l.redacted,
        edited: l.edited,
        grouped,
        named: l.named,
        reactions: l.reactions,
        standing: l.standing,
        reply: match l.reply {
            Some(q) => Some(q.0 as u128 + q.1 as u128),
            None => None,
        },
        me_mentioned: l.me_mentioned,
        mentions: sum,
    }
}

} // verus!

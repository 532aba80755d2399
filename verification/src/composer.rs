//! The composer's box and what stands around it: the words and names being
//! typed, the files staged, the message being answered or rewritten, and
//! the messages sent and not yet answered for.
//!
//! **One head at a time.** A reply and a rewrite are not a pair -- a
//! rewrite that also picked up a reply would silently re-thread the
//! message -- so only one of them is ever armed. **What was being typed
//! is kept aside** for a rewrite and comes back when it is done with. **A
//! message that did not go comes back** to the box, or is offered back when
//! the box already holds something.

use std::path::PathBuf;

use vstd::prelude::*;

use crate::command::{Command, as_message, asked, message_of, parse};
use crate::key::Key;
use crate::mention::{capped, kept, mentions_in, recorded_view, stands};
use crate::session::Attached;
use crate::text::{
    chars_of, copy_str, decimal, push_decimal, push_str, string_of, trim, trim_end, trim_range,
    trim_start,
};

verus! {

broadcast use vstd::string::group_string_axioms;

/// Where a staged file comes from.
pub enum Source {
    /// A file on this machine, to be uploaded.
    File(PathBuf),
    /// A file already on the message being rewritten, by blob id.
    Carried(String),
}

/// A file in the composer, not yet sent.
pub struct Staged {
    pub source: Source,
    pub name: String,
    /// The kind of file it is, as messages number kinds.
    pub kind: u8,
    /// A small picture of it, once there is one.
    pub preview: Option<Vec<u8>>,
}

/// std's `PathBuf::clone`: a copy of the path.
#[verifier::external_body]
fn copy_path(p: &PathBuf) -> (r: PathBuf)
    ensures
        r == *p,
{
    p.clone()
}

/// A path as std shows it: its bytes as text, any that are not UTF-8
/// replaced.
pub uninterp spec fn shown_path(p: PathBuf) -> Seq<char>;

/// std's `Path::display`, written out: the text is [`shown_path`] of the
/// path, which depends on the path alone; how bytes that are not UTF-8 are
/// replaced is left unsaid.
#[verifier::external_body]
fn path_text(p: &PathBuf) -> (r: String)
    ensures
        r@ == shown_path(*p),
{
    format!("{}", p.display())
}

impl Staged {
    /// A file already on a message being rewritten, staged to go again.
    pub fn carried(a: &Attached) -> (s: Staged)
        ensures
            s.source matches Source::Carried(id) && id@ == a.id@,
            s.name@ == a.described@,
            s.kind == a.kind,
            a.preview@.len() == 0 ==> s.preview is None,
            a.preview@.len() > 0 ==> (s.preview matches Some(p) && p@ == a.preview@),
    {
        Staged {
            source: Source::Carried(a.id.clone()),
            name: a.described.clone(),
            kind: a.kind,
            preview: if a.preview.len() == 0 {
                None
            } else {
                Some(a.preview.clone())
            },
        }
    }

    /// The URI its thumbnail is registered under: a path or a blob id,
    /// never a position, so two tiles never share a picture.
    pub fn uri(&self) -> (r: String)
        ensures
            self.source matches Source::Carried(id) ==> r@ == "bytes://"@ + id@ + "-preview"@,
            self.source matches Source::File(p) ==> r@ == "bytes://staged-"@ + shown_path(p),
    {
        match &self.source {
            Source::File(path) => {
                let mut r = copy_str("bytes://staged-");
                let shown = path_text(path);
                push_str(&mut r, shown.as_str());
                r
            },
            Source::Carried(id) => {
                let mut r = copy_str("bytes://");
                push_str(&mut r, id.as_str());
                push_str(&mut r, "-preview");
                r
            },
        }
    }
}

/// What was being typed, set aside for a rewrite.
pub struct Stashed {
    pub composing: String,
    pub mentions: Vec<(String, Key)>,
    pub staged: Vec<Staged>,
}

/// Everything the composer held when a message was sent, so the message
/// can be put back if it does not go.
pub struct Unsent {
    pub token: u64,
    pub composing: String,
    pub mentions: Vec<(String, Key)>,
    pub carried_mentions: Vec<Key>,
    pub staged: Vec<Staged>,
    pub editing: Option<u64>,
    pub replying: Option<u64>,
}

/// One of our messages, as a rewrite starts from it.
pub struct Written {
    pub seq: u64,
    pub text: String,
    /// The names it mentions, with their keys.
    pub mentions: Vec<(String, Key)>,
    pub attachments: Vec<Attached>,
}

/// What is handed to the session to post.
pub struct Draft {
    pub text: String,
    pub reply: Option<u64>,
    pub edit: Option<u64>,
    pub mentions: Vec<Key>,
    /// The files to upload, in the order staged.
    pub files: Vec<PathBuf>,
    /// The rewritten message's own files to keep, in the order staged.
    pub keep: Vec<String>,
    /// The draft's token, which the session's answer names.
    pub token: u64,
}

/// What pressing Enter in the box came to.
pub enum Pressed {
    /// Nothing to send.
    Nothing,
    /// A command, to run; the box is emptied.
    Run(Command),
    /// A command nobody knows, or one missing what it needs: the words are
    /// in [`Composer::command_trouble`].
    Trouble,
    /// A message, to post.
    Post(Draft),
}

/// The composer of one conversation pane.
pub struct Composer {
    pub composing: String,
    /// The names chosen from the list, with their keys.
    pub mentions: Vec<(String, Key)>,
    /// On a rewrite, the keys of names no longer in the words as they stand.
    pub carried_mentions: Vec<Key>,
    pub staged: Vec<Staged>,
    /// The message being rewritten.
    pub editing: Option<u64>,
    /// The message being answered.
    pub replying: Option<u64>,
    pub stashed: Option<Stashed>,
    pub staging_trouble: Option<String>,
    pub command_trouble: Option<String>,
    /// Sent, and not yet answered for, oldest first.
    pub in_flight: Vec<Unsent>,
    pub next_token: u64,
    /// A message that did not go and could not go straight back, with why.
    pub put_back: Option<(Unsent, String)>,
}

/// Whether `s` is the file `a` of a message being rewritten, staged.
pub open spec fn carries(s: Staged, a: Attached) -> bool {
    &&& s.source matches Source::Carried(id) && id@ == a.id@
    &&& s.name@ == a.described@
    &&& s.kind == a.kind
}

/// Whether `t` is only whitespace.
pub open spec fn blank(t: Seq<char>) -> bool {
    trim(t).len() == 0
}

/// Whether `t` is asked of this client rather than posted.
pub open spec fn is_command_line(t: Seq<char>) -> bool {
    message_of(trim(t)) is None && trim(t).len() > 0
}

/// Whether a message in flight had at most one head armed.
pub open spec fn one_head(u: Unsent) -> bool {
    !(u.editing is Some && u.replying is Some)
}

/// What is sent of the words `t`: trimmed, and `//x` sent as `/x`.
pub open spec fn sent_text(t: Seq<char>) -> Seq<char> {
    match message_of(trim(t)) {
        Some(m) => m,
        None => t,
    }
}

/// The tokens of what is in flight.
pub open spec fn tokens(f: Seq<Unsent>) -> Seq<u64> {
    f.map_values(|u: Unsent| u.token)
}

/// The keys a post carries: those of the names still standing in the
/// words, then those carried from the message rewritten.
pub open spec fn draft_mentions(text: Seq<char>, named: Seq<(String, Key)>, carried: Seq<Key>) -> Seq<Key> {
    capped(kept(text, recorded_view(named))) + carried
}

/// The files of `staged` to upload.
pub open spec fn files_of(staged: Seq<Staged>) -> Seq<PathBuf>
    decreases staged.len(),
{
    if staged.len() == 0 {
        Seq::empty()
    } else {
        match staged.last().source {
            Source::File(p) => files_of(staged.drop_last()).push(p),
            Source::Carried(_) => files_of(staged.drop_last()),
        }
    }
}

/// The rewritten message's own files of `staged` to keep.
pub open spec fn kept_of(staged: Seq<Staged>) -> Seq<Seq<char>>
    decreases staged.len(),
{
    if staged.len() == 0 {
        Seq::empty()
    } else {
        match staged.last().source {
            Source::File(_) => kept_of(staged.drop_last()),
            Source::Carried(id) => kept_of(staged.drop_last()).push(id@),
        }
    }
}

/// Where the message with `token` is in `f`; `f.len()` when it is not.
pub open spec fn token_at(f: Seq<Unsent>, token: u64, i: int) -> int
    decreases f.len() - i,
{
    if i >= f.len() {
        f.len() as int
    } else if f[i].token == token {
        i
    } else {
        token_at(f, token, i + 1)
    }
}

/// What the × above the box does: whichever head is armed is let go of; a
/// rewrite let go of brings back what was set aside for it.
pub open spec fn cancelled(b: Composer, a: Composer) -> bool {
    &&& a.editing is None
    &&& a.replying is None
    &&& b.editing is None ==> a.composing == b.composing && a.mentions == b.mentions && a.staged
        == b.staged && a.stashed == b.stashed && a.carried_mentions == b.carried_mentions
    &&& b.editing is Some ==> a.stashed is None && a.carried_mentions@.len() == 0 && match b.stashed {
        Some(was) => a.composing == was.composing && a.mentions == was.mentions && a.staged
            == was.staged,
        None => a.composing@ == Seq::<char>::empty() && a.mentions@.len() == 0 && a.staged@.len()
            == 0,
    }
    &&& a.in_flight == b.in_flight
    &&& a.next_token == b.next_token
    &&& a.put_back == b.put_back
}

/// What answering the message `seq` does: a rewrite in progress is
/// abandoned as stopping it does -- what was set aside comes back, or the
/// box is emptied -- and otherwise nothing but the head moves.
pub open spec fn replied(b: Composer, seq: u64, a: Composer) -> bool {
    if b.editing is None {
        a == Composer { replying: Some(seq), ..b }
    } else {
        &&& a.replying == Some(seq)
        &&& a.editing is None
        &&& a.stashed is None
        &&& a.carried_mentions@.len() == 0
        &&& a.staging_trouble is None
        &&& match b.stashed {
            Some(was) => a.composing == was.composing && a.mentions == was.mentions && a.staged
                == was.staged,
            None => a.composing@ == Seq::<char>::empty() && a.mentions@.len() == 0
                && a.staged@.len() == 0,
        }
        &&& a.in_flight == b.in_flight
        &&& a.next_token == b.next_token
        &&& a.put_back == b.put_back
        &&& a.command_trouble == b.command_trouble
    }
}

/// What letting go of the message offered back does: that, and nothing
/// else.
pub open spec fn forgotten(b: Composer, a: Composer) -> bool {
    a == Composer { put_back: None, ..b }
}

/// What starting a rewrite of `line` does.
pub open spec fn rewritten(b: Composer, line: Written, a: Composer) -> bool {
    &&& a.replying is None
    &&& a.editing == Some(line.seq)
    &&& a.composing@ == line.text@
    &&& recorded_view(a.mentions@) == recorded_view(line.mentions@).filter(
        |m: (Seq<char>, Key)| stands(line.text@, m.0),
    )
    &&& a.carried_mentions@ == recorded_view(line.mentions@).filter(
        |m: (Seq<char>, Key)| !stands(line.text@, m.0),
    ).map_values(|m: (Seq<char>, Key)| m.1)
    &&& a.staged@.len() == line.attachments@.len()
    &&& forall|i: int|
        0 <= i < line.attachments@.len() ==> carries(#[trigger] a.staged@[i], line.attachments@[i])
    &&& a.staging_trouble is None
    &&& (b.editing is None && b.has_something()) ==> a.stashed == Some(
        Stashed { composing: b.composing, mentions: b.mentions, staged: b.staged },
    )
    &&& !(b.editing is None && b.has_something()) ==> a.stashed == b.stashed
    &&& a.in_flight == b.in_flight
    &&& a.next_token == b.next_token
    &&& a.put_back == b.put_back
}

impl Composer {
    /// One head at a time, and what is in flight was sent in order, each
    /// under a token handed out before the next.
    pub open spec fn wf(&self) -> bool {
        &&& !(self.editing is Some && self.replying is Some)
        &&& forall|i: int, j: int|
            0 <= i < j < self.in_flight@.len() ==> #[trigger] self.in_flight@[i].token
                < #[trigger] self.in_flight@[j].token
        &&& forall|i: int|
            0 <= i < self.in_flight@.len() ==> #[trigger] self.in_flight@[i].token < self.next_token
        &&& forall|i: int|
            0 <= i < self.in_flight@.len() ==> one_head(#[trigger] self.in_flight@[i])
        &&& self.put_back matches Some(b) ==> one_head(b.0)
    }

    /// Whether there is something in the box to send: words, or files.
    pub open spec fn has_something(&self) -> bool {
        !blank(self.composing@) || self.staged@.len() > 0
    }

    /// An empty box, nothing armed, nothing sent.
    pub fn new() -> (c: Composer)
        ensures
            c.wf(),
            c.composing@ == Seq::<char>::empty(),
            c.mentions@.len() == 0,
            c.carried_mentions@.len() == 0,
            c.staged@.len() == 0,
            c.editing is None,
            c.replying is None,
            c.stashed is None,
            c.in_flight@.len() == 0,
            c.next_token == 1,
            c.put_back is None,
            c.staging_trouble is None,
            c.command_trouble is None,
    {
        Composer {
            composing: String::new(),
            mentions: Vec::new(),
            carried_mentions: Vec::new(),
            staged: Vec::new(),
            editing: None,
            replying: None,
            stashed: None,
            staging_trouble: None,
            command_trouble: None,
            in_flight: Vec::new(),
            next_token: 1,
            put_back: None,
        }
    }

    /// Whatever was set aside for a rewrite, back in the box.
    pub fn unstash(&mut self)
        ensures
            final(self).stashed is None,
            match old(self).stashed {
                Some(was) => final(self).composing == was.composing && final(self).mentions
                    == was.mentions && final(self).staged == was.staged,
                None => final(self).composing == old(self).composing && final(self).mentions
                    == old(self).mentions && final(self).staged == old(self).staged,
            },
            final(self).carried_mentions == old(self).carried_mentions,
            final(self).editing == old(self).editing,
            final(self).replying == old(self).replying,
            final(self).in_flight == old(self).in_flight,
            final(self).next_token == old(self).next_token,
            final(self).put_back == old(self).put_back,
            final(self).staging_trouble == old(self).staging_trouble,
            final(self).command_trouble == old(self).command_trouble,
    {
        let was = self.stashed.take();
        if let Some(was) = was {
            self.composing = was.composing;
            self.mentions = was.mentions;
            self.staged = was.staged;
        }
    }

    /// Abandon a rewrite. The old text must not stay in the box, where the
    /// next Return would post it again as a new message; what was being
    /// typed before comes back instead. The message's own files, and any
    /// staged for the rewrite, belong to neither.
    pub fn stop_rewriting(&mut self)
        requires
            old(self).wf(),
        ensures
            final(self).wf(),
            final(self).editing is None,
            final(self).replying == old(self).replying,
            final(self).stashed is None,
            final(self).carried_mentions@.len() == 0,
            final(self).staging_trouble is None,
            match old(self).stashed {
                Some(was) => final(self).composing == was.composing && final(self).mentions
                    == was.mentions && final(self).staged == was.staged,
                None => final(self).composing@ == Seq::<char>::empty() && final(self).mentions@.len()
                    == 0 && final(self).staged@.len() == 0,
            },
            final(self).in_flight == old(self).in_flight,
            final(self).next_token == old(self).next_token,
            final(self).put_back == old(self).put_back,
            final(self).command_trouble == old(self).command_trouble,
    {
        self.editing = None;
        self.composing = String::new();
        self.mentions = Vec::new();
        self.carried_mentions = Vec::new();
        self.staged = Vec::new();
        self.staging_trouble = None;
        self.unstash();
    }

    /// Begin answering a message. A rewrite in progress is abandoned first,
    /// as [`Composer::stop_rewriting`] abandons it: what was set aside for
    /// it comes back. Nothing else moves.
    pub fn reply_to(&mut self, seq: u64)
        requires
            old(self).wf(),
        ensures
            final(self).wf(),
            replied(*old(self), seq, *final(self)),
    {
        if self.editing.is_some() {
            self.stop_rewriting();
        }
        self.replying = Some(seq);
    }

    /// The × above the box: whichever of the two is armed.
    pub fn cancel_head(&mut self)
        requires
            old(self).wf(),
        ensures
            final(self).wf(),
            cancelled(*old(self), *final(self)),
    {
        if self.editing.is_some() {
            self.stop_rewriting();
        } else {
            self.replying = None;
        }
    }

    /// Begin rewriting one of our messages: its words and its mentions come
    /// into the box, so a rewrite is a correction of what is there rather
    /// than a retyping of it. A reply being written is dropped; words or
    /// files being typed are kept aside and come back when the rewrite is
    /// done with. A name no longer in the words as they stand -- renamed
    /// since -- was not typed out by this rewrite either, and its key is
    /// carried as it is. The message's own files come in as tiles.
    pub fn rewrite(&mut self, line: &Written)
        requires
            old(self).wf(),
        ensures
            final(self).wf(),
            rewritten(*old(self), *line, *final(self)),
    {
        self.replying = None;
        let tv = chars_of(self.composing.as_str());
        let (a, b) = trim_range(&tv, 0, tv.len());
        assert(tv@.subrange(0, tv@.len() as int) =~= tv@);
        if self.editing.is_none() && (a < b || self.staged.len() > 0) {
            let mut composing = String::new();
            let mut mentions: Vec<(String, Key)> = Vec::new();
            let mut staged: Vec<Staged> = Vec::new();
            std::mem::swap(&mut composing, &mut self.composing);
            std::mem::swap(&mut mentions, &mut self.mentions);
            std::mem::swap(&mut staged, &mut self.staged);
            self.stashed = Some(Stashed { composing, mentions, staged });
        }
        self.editing = Some(line.seq);
        self.composing = line.text.clone();
        let mut named: Vec<(String, Key)> = Vec::new();
        let mut renamed: Vec<Key> = Vec::new();
        let ghost all = recorded_view(line.mentions@);
        let mut i: usize = 0;
        while i < line.mentions.len()
            invariant
                i <= line.mentions@.len(),
                all == recorded_view(line.mentions@),
                recorded_view(named@) == all.take(i as int).filter(
                    |m: (Seq<char>, Key)| stands(line.text@, m.0),
                ),
                renamed@ == all.take(i as int).filter(|m: (Seq<char>, Key)| !stands(line.text@, m.0)).map_values(
                    |m: (Seq<char>, Key)| m.1,
                ),
            decreases line.mentions@.len() - i,
        {
            proof {
                reveal_with_fuel(Seq::filter, 1);
                assert(all.take(i + 1).drop_last() =~= all.take(i as int));
                assert(all.take(i + 1).last() == all[i as int]);
            }
            let m = &line.mentions[i];
            let one = vec![(m.0.clone(), m.1)];
            let found = mentions_in(line.text.as_str(), one.as_slice());
            proof {
                let rv = recorded_view(one@);
                assert(rv.drop_last() =~= Seq::<(Seq<char>, Key)>::empty());
                assert(rv.last() == (m.0@, m.1));
                assert(all[i as int] == (m.0@, m.1));
                assert(kept(line.text@, rv.drop_last()) =~= Seq::<Key>::empty());
                assert(found@.len() == 1 <==> stands(line.text@, m.0@));
            }
            let ghost nv = recorded_view(named@);
            let ghost rv = renamed@;
            let ghost yes = |m: (Seq<char>, Key)| stands(line.text@, m.0);
            let ghost no = |m: (Seq<char>, Key)| !stands(line.text@, m.0);
            if found.len() == 1 {
                named.push((m.0.clone(), m.1));
                assert(recorded_view(named@) =~= nv.push(all[i as int]));
                assert(all.take(i + 1).filter(yes) =~= all.take(i as int).filter(yes).push(all[i as int]));
                assert(all.take(i + 1).filter(no) =~= all.take(i as int).filter(no));
            } else {
                renamed.push(m.1);
                assert(all.take(i + 1).filter(yes) =~= all.take(i as int).filter(yes));
                assert(all.take(i + 1).filter(no) =~= all.take(i as int).filter(no).push(all[i as int]));
                assert(renamed@ =~= all.take(i + 1).filter(no).map_values(|m: (Seq<char>, Key)| m.1));
            }
            i = i + 1;
        }
        assert(all.take(line.mentions@.len() as int) =~= all);
        self.mentions = named;
        self.carried_mentions = renamed;
        let mut staged: Vec<Staged> = Vec::new();
        let mut j: usize = 0;
        while j < line.attachments.len()
            invariant
                j <= line.attachments@.len(),
                staged@.len() == j,
                forall|q: int|
                    0 <= q < j ==> carries(#[trigger] staged@[q], line.attachments@[q]),
            decreases line.attachments@.len() - j,
        {
            staged.push(Staged::carried(&line.attachments[j]));
            j = j + 1;
        }
        self.staged = staged;
        self.staging_trouble = None;
    }
}

/// What pressing Enter came to, over the composer before and after.
pub open spec fn pressed(b: Composer, a: Composer, r: Pressed) -> bool {
    if is_command_line(b.composing@) {
        &&& a.in_flight == b.in_flight
        &&& a.next_token == b.next_token
        &&& a.editing == b.editing
        &&& a.replying == b.replying
        &&& a.staged == b.staged
        &&& a.stashed == b.stashed
        &&& a.put_back == b.put_back
        &&& match r {
            Pressed::Run(c) => {
                &&& asked(trim(b.composing@)) == Ok::<(int, Seq<char>), Seq<char>>(
                    (c.index(), c.argument()),
                )
                &&& a.composing@ == Seq::<char>::empty()
                &&& a.command_trouble is None
            },
            Pressed::Trouble => {
                &&& a.command_trouble matches Some(w) && asked(trim(b.composing@)) == Err::<
                    (int, Seq<char>),
                    Seq<char>,
                >(w@)
                &&& a.composing == b.composing
            },
            Pressed::Nothing => false,
            Pressed::Post(_) => false,
        }
    } else if !b.has_something() {
        r is Nothing && a == b
    } else {
        match r {
            Pressed::Post(d) => posted(b, a, d),
            _ => false,
        }
    }
}

/// What posting does: the box is emptied -- a rewrite's stash coming back
/// -- and all it held goes into flight under a fresh token, and into the
/// draft: the words as sent, the keys of the names still standing in them
/// and then those carried, the files to upload and the message's own to keep.
/// **A rewrite is a whole post**: the files in the box when it is sent are
/// the ones that go, and what was set aside for it comes back, files too.
pub open spec fn posted(b: Composer, a: Composer, d: Draft) -> bool {
    let text = sent_text(b.composing@);
    let files = b.staged;
    let u = a.in_flight@.last();
    &&& d.token == b.next_token
    &&& a.next_token == b.next_token + 1
    &&& d.text@ == trim(text)
    &&& d.reply == b.replying
    &&& d.edit == b.editing
    &&& d.mentions@ == draft_mentions(text, b.mentions@, b.carried_mentions@)
    &&& d.files@ == files_of(files@)
    &&& d.keep@.map_values(|k: String| k@) == kept_of(files@)
    &&& a.in_flight@.len() == b.in_flight@.len() + 1
    &&& a.in_flight@.drop_last() == b.in_flight@
    &&& u.token == b.next_token
    &&& u.composing@ == text
    &&& u.mentions == b.mentions
    &&& u.carried_mentions == b.carried_mentions
    &&& u.staged == files
    &&& u.editing == b.editing
    &&& u.replying == b.replying
    &&& a.editing is None
    &&& a.replying is None
    &&& a.carried_mentions@.len() == 0
    &&& a.staging_trouble is None
    &&& a.put_back == b.put_back
    &&& a.command_trouble == b.command_trouble
    &&& if b.editing is Some && b.stashed is Some {
        &&& a.composing == b.stashed->0.composing
        &&& a.mentions == b.stashed->0.mentions
        &&& a.staged == b.stashed->0.staged
        &&& a.stashed is None
    } else {
        &&& a.composing@ == Seq::<char>::empty()
        &&& a.mentions@.len() == 0
        &&& a.staged@.len() == 0
        &&& a.stashed == (if b.editing is Some {
            None
        } else {
            b.stashed
        })
    }
}

/// The session's answer for the message with `token` taken in: it and
/// everything sent before it are settled; when it did not go, it comes back
/// to an empty box, or is offered back beside what is there.
pub open spec fn taken_back(b: Composer, token: u64, trouble: Option<Seq<char>>, a: Composer) -> bool {
    let i = token_at(b.in_flight@, token, 0);
    if i >= b.in_flight@.len() {
        a == b
    } else {
        let u = b.in_flight@[i];
        let empty = blank(b.composing@) && b.staged@.len() == 0 && b.editing is None
            && b.replying is None;
        &&& a.in_flight@ == b.in_flight@.skip(i + 1)
        &&& a.next_token == b.next_token
        &&& a.stashed == b.stashed
        &&& a.staging_trouble == b.staging_trouble
        &&& a.command_trouble == b.command_trouble
        &&& match trouble {
            None => a.composing == b.composing && a.mentions == b.mentions && a.carried_mentions
                == b.carried_mentions && a.staged == b.staged && a.editing == b.editing
                && a.replying == b.replying && a.put_back == b.put_back,
            Some(why) => if empty {
                &&& a.composing == u.composing
                &&& a.mentions == u.mentions
                &&& a.carried_mentions == u.carried_mentions
                &&& a.staged == u.staged
                &&& a.editing == u.editing
                &&& a.replying == u.replying
                &&& a.put_back == b.put_back
            } else {
                &&& a.composing == b.composing
                &&& a.mentions == b.mentions
                &&& a.carried_mentions == b.carried_mentions
                &&& a.staged == b.staged
                &&& a.editing == b.editing
                &&& a.replying == b.replying
                &&& a.put_back matches Some(p) && p.0 == u && p.1@ == why
            },
        }
    }
}

/// The files of `staged` to upload, and the ids of those to keep.
fn split_files(staged: &Vec<Staged>) -> (r: (Vec<PathBuf>, Vec<String>))
    ensures
        r.0@ == files_of(staged@),
        r.1@.map_values(|k: String| k@) == kept_of(staged@),
{
    let mut files: Vec<PathBuf> = Vec::new();
    let mut keep: Vec<String> = Vec::new();
    let mut i: usize = 0;
    while i < staged.len()
        invariant
            i <= staged@.len(),
            files@ == files_of(staged@.take(i as int)),
            keep@.map_values(|k: String| k@) == kept_of(staged@.take(i as int)),
        decreases staged@.len() - i,
    {
        assert(staged@.take(i + 1).drop_last() =~= staged@.take(i as int));
        assert(staged@.take(i + 1).last() == staged@[i as int]);
        let ghost kv = keep@.map_values(|k: String| k@);
        match &staged[i].source {
            Source::File(p) => files.push(copy_path(p)),
            Source::Carried(id) => {
                keep.push(id.clone());
                assert(keep@.map_values(|k: String| k@) =~= kv.push(id@));
            },
        }
        i = i + 1;
    }
    assert(staged@.take(staged@.len() as int) =~= staged@);
    (files, keep)
}

impl Composer {
    /// Enter pressed in the box, or Send. A line that begins with a slash is
    /// asked of this client -- run, or its mistake said -- and a line that
    /// begins with two is a message that begins with one. A message, words
    /// or files, is taken out of the box and kept in flight under its
    /// draft's token until the session says whether it went.
    pub fn press(&mut self) -> (r: Pressed)
        requires
            old(self).wf(),
            old(self).next_token < u64::MAX,
        ensures
            final(self).wf(),
            pressed(*old(self), *final(self), r),
    {
        let v = chars_of(self.composing.as_str());
        let (a, b) = trim_range(&v, 0, v.len());
        assert(v@.subrange(0, v@.len() as int) =~= v@);
        let trimmed = string_of(&v, a, b);
        let is_command = as_message(trimmed.as_str()).is_none() && a < b;
        if is_command {
            match parse(self.composing.as_str()) {
                Ok(Some(cmd)) => {
                    self.composing = String::new();
                    self.command_trouble = None;
                    return Pressed::Run(cmd);
                },
                Ok(None) => {
                    return Pressed::Nothing;
                },
                Err(why) => {
                    self.command_trouble = Some(why);
                    return Pressed::Trouble;
                },
            }
        }
        if !(a < b || self.staged.len() > 0) {
            return Pressed::Nothing;
        }
        let ghost before = *self;
        let token = self.next_token;
        self.next_token = self.next_token + 1;
        let mut taken = String::new();
        std::mem::swap(&mut taken, &mut self.composing);
        let text = match as_message(trimmed.as_str()) {
            Some(m) => m,
            None => taken,
        };
        let editing = self.editing.take();
        let replying = self.replying.take();
        let mut mentions = mentions_in(text.as_str(), self.mentions.as_slice());
        let mut labels: Vec<(String, Key)> = Vec::new();
        std::mem::swap(&mut labels, &mut self.mentions);
        let mut carried: Vec<Key> = Vec::new();
        std::mem::swap(&mut carried, &mut self.carried_mentions);
        let mut k: usize = 0;
        let ghost named = mentions@;
        while k < carried.len()
            invariant
                k <= carried@.len(),
                mentions@ == named + carried@.take(k as int),
            decreases carried@.len() - k,
        {
            mentions.push(carried[k]);
            assert(named + carried@.take(k + 1) =~= (named + carried@.take(k as int)).push(carried@[k as int]));
            k = k + 1;
        }
        assert(carried@.take(carried@.len() as int) =~= carried@);
        let mut staged: Vec<Staged> = Vec::new();
        std::mem::swap(&mut staged, &mut self.staged);
        if editing.is_some() {
            self.unstash();
        }
        self.staging_trouble = None;
        let (files, keep) = split_files(&staged);
        let tv = chars_of(text.as_str());
        let (p, q) = trim_range(&tv, 0, tv.len());
        assert(tv@.subrange(0, tv@.len() as int) =~= tv@);
        let draft_text = string_of(&tv, p, q);
        let ghost f0 = self.in_flight@;
        self.in_flight.push(
            Unsent {
                token,
                composing: copy_str(text.as_str()),
                mentions: labels,
                carried_mentions: carried,
                staged,
                editing,
                replying,
            },
        );
        assert(self.in_flight@.drop_last() =~= f0);
        Pressed::Post(
            Draft { text: draft_text, reply: replying, edit: editing, mentions, files, keep, token },
        )
    }

    /// The session's answer for the draft `token`: it and everything sent
    /// before it are settled. `trouble` is why it did not go, if it did not:
    /// into an empty box it comes back as it was; beside something already
    /// there it is offered back, with why.
    pub fn took_back(&mut self, token: u64, trouble: Option<String>)
        requires
            old(self).wf(),
        ensures
            final(self).wf(),
            taken_back(
                *old(self),
                token,
                match trouble {
                    Some(w) => Some(w@),
                    None => None,
                },
                *final(self),
            ),
    {
        let ghost f = self.in_flight@;
        let mut i: usize = 0;
        assert(token_at(f, token, 0) == token_at(f, token, 0));
        while i < self.in_flight.len() && self.in_flight[i].token != token
            invariant
                self.in_flight@ == f,
                i <= f.len(),
                token_at(f, token, 0) == token_at(f, token, i as int),
            decreases f.len() - i,
        {
            i = i + 1;
        }
        if i >= self.in_flight.len() {
            return;
        }
        let ghost b = *self;
        let mut n: usize = 0;
        while n < i
            invariant
                n <= i < f.len(),
                self.in_flight@ == f.skip(n as int),
                self.composing == b.composing,
                self.mentions == b.mentions,
                self.carried_mentions == b.carried_mentions,
                self.staged == b.staged,
                self.editing == b.editing,
                self.replying == b.replying,
                self.stashed == b.stashed,
                self.put_back == b.put_back,
                self.next_token == b.next_token,
                self.staging_trouble == b.staging_trouble,
                self.command_trouble == b.command_trouble,
            decreases i - n,
        {
            self.in_flight.remove(0);
            assert(f.skip(n as int).remove(0) =~= f.skip(n + 1));
            n = n + 1;
        }
        let this = self.in_flight.remove(0);
        assert(f.skip(i as int).remove(0) =~= f.skip(i + 1));
        assert(this == f[i as int]);
        let why = match trouble {
            Some(w) => w,
            None => {
                return;
            },
        };
        let v = chars_of(self.composing.as_str());
        let (a, c) = trim_range(&v, 0, v.len());
        assert(v@.subrange(0, v@.len() as int) =~= v@);
        let empty = a == c && self.staged.len() == 0 && self.editing.is_none()
            && self.replying.is_none();
        if empty {
            self.composing = this.composing;
            self.mentions = this.mentions;
            self.carried_mentions = this.carried_mentions;
            self.staged = this.staged;
            self.editing = this.editing;
            self.replying = this.replying;
        } else {
            self.put_back = Some((this, why));
        }
    }

    /// The message offered back, put back: over what is there, chosen this
    /// time.
    pub fn put_it_back(&mut self)
        requires
            old(self).wf(),
        ensures
            final(self).wf(),
            final(self).put_back is None,
            match old(self).put_back {
                Some(p) => final(self).composing == p.0.composing && final(self).mentions
                    == p.0.mentions && final(self).carried_mentions == p.0.carried_mentions
                    && final(self).staged == p.0.staged && final(self).editing == p.0.editing
                    && final(self).replying == p.0.replying,
                None => final(self).composing == old(self).composing && final(self).staged
                    == old(self).staged && final(self).editing == old(self).editing
                    && final(self).replying == old(self).replying,
            },
            final(self).in_flight == old(self).in_flight,
            final(self).next_token == old(self).next_token,
    {
        let offered = self.put_back.take();
        if let Some((u, _)) = offered {
            self.composing = u.composing;
            self.mentions = u.mentions;
            self.carried_mentions = u.carried_mentions;
            self.staged = u.staged;
            self.editing = u.editing;
            self.replying = u.replying;
        }
    }

    /// The message offered back, let go of.
    pub fn forget_it(&mut self)
        requires
            old(self).wf(),
        ensures
            final(self).wf(),
            forgotten(*old(self), *final(self)),
    {
        self.put_back = None;
    }
}

/// **A message that did not go comes back.** Posted from a box with no
/// rewrite's stash beside it, and refused, it comes back to the box as it
/// was sent -- its words trimmed, `//x` as `/x` -- with its names, its
/// files, and the head it answered or rewrote.
pub proof fn law_refused_comes_back(b: Composer, m: Composer, d: Draft, why: Seq<char>, a: Composer)
    requires
        b.wf(),
        b.stashed is None,
        posted(b, m, d),
        taken_back(m, d.token, Some(why), a),
    ensures
        a.composing@ == sent_text(b.composing@),
        a.mentions == b.mentions,
        a.carried_mentions == b.carried_mentions,
        a.staged == b.staged,
        a.editing == b.editing,
        a.replying == b.replying,
        a.in_flight@ == Seq::<Unsent>::empty(),
{
    let f = m.in_flight@;
    let i = token_at(f, d.token, 0);
    assert forall|q: int| 0 <= q < f.len() - 1 implies #[trigger] f[q].token < d.token by {
        assert(f[q] == b.in_flight@[q]);
    }
    lemma_token_at_last(f, d.token, 0);
    assert(f.skip(f.len() as int) =~= Seq::<Unsent>::empty());
    assert(f[f.len() - 1] == f.last());
    assert(blank(m.composing@)) by {
        reveal_strlit("");
        assert(trim_start(m.composing@) == m.composing@);
        assert(trim_end(m.composing@) == m.composing@);
    }
}

/// **A rewrite is a whole post, and what was being typed comes back.**
/// Rewriting a message and sending it posts the message's own files with
/// it -- all of them, in order, none to upload -- as a rewrite of that
/// message; and what was in the box when the rewrite began, words, names
/// and files, is back in the box once it is sent.
pub proof fn law_rewrite_is_whole_post(b: Composer, line: Written, m: Composer, d: Draft, a: Composer)
    requires
        rewritten(b, line, m),
        posted(m, a, d),
    ensures
        d.edit == Some(line.seq),
        d.reply is None,
        d.files@.len() == 0,
        d.keep@.map_values(|k: String| k@) == line.attachments@.map_values(|x: Attached| x.id@),
        (b.editing is None && b.has_something()) ==> {
            &&& a.composing == b.composing
            &&& a.mentions == b.mentions
            &&& a.staged == b.staged
        },
{
    lemma_carried_files(m.staged@, line.attachments@);
}

/// Tiles that each carry the file at the same place of `att` upload
/// nothing and keep those files' ids, in order.
proof fn lemma_carried_files(staged: Seq<Staged>, att: Seq<Attached>)
    requires
        staged.len() == att.len(),
        forall|i: int| 0 <= i < att.len() ==> carries(#[trigger] staged[i], att[i]),
    ensures
        files_of(staged).len() == 0,
        kept_of(staged) == att.map_values(|x: Attached| x.id@),
    decreases staged.len(),
{
    if staged.len() > 0 {
        let n = staged.len() - 1;
        assert forall|i: int| 0 <= i < n implies carries(
            #[trigger] staged.drop_last()[i],
            att.drop_last()[i],
        ) by {
            assert(carries(staged[i], att[i]));
        }
        lemma_carried_files(staged.drop_last(), att.drop_last());
        assert(carries(staged[n], att[n]));
        assert(att.map_values(|x: Attached| x.id@) =~= att.drop_last().map_values(
            |x: Attached| x.id@,
        ).push(att[n].id@));
    } else {
        assert(att.map_values(|x: Attached| x.id@) =~= Seq::<Seq<char>>::empty());
    }
}

/// The last message in flight is found last: earlier ones carry lower
/// tokens.
proof fn lemma_token_at_last(f: Seq<Unsent>, token: u64, k: int)
    requires
        0 <= k < f.len(),
        f.last().token == token,
        forall|i: int| 0 <= i < f.len() - 1 ==> #[trigger] f[i].token < token,
    ensures
        token_at(f, token, k) == f.len() - 1,
    decreases f.len() - k,
{
    if k < f.len() - 1 {
        lemma_token_at_last(f, token, k + 1);
    }
}

/// What the × does to a rewrite: what was being typed before, back.
pub open spec fn cancelled_rewrite(b: Composer, line: Written, a: Composer) -> bool {
    &&& a.composing == b.composing
    &&& a.mentions == b.mentions
    &&& a.staged == b.staged
    &&& a.editing is None
    &&& a.replying is None
    &&& a.stashed is None
}

/// **Words being typed come back after a rewrite.** Starting a rewrite
/// with something in the box -- words or files -- and then pressing the ×
/// leaves the box as it was before the rewrite, with no head armed.
pub proof fn law_rewrite_then_cancel(b: Composer, line: Written, m: Composer, a: Composer)
    requires
        b.wf(),
        b.editing is None,
        b.has_something(),
        rewritten(b, line, m),
        cancelled(m, a),
    ensures
        cancelled_rewrite(b, line, a),
{
}

/// Where the keyboard is in a list above the box after Up and Down: kept
/// inside the list's `len` rows, Up before Down.
pub open spec fn picker_at(picking: usize, len: usize, up: bool, down: bool) -> usize {
    let last = if len > 0 {
        (len - 1) as usize
    } else {
        0usize
    };
    let p = if picking < last {
        picking
    } else {
        last
    };
    let p = if up && p > 0 {
        (p - 1) as usize
    } else {
        p
    };
    if down {
        if p + 1 < last {
            (p + 1) as usize
        } else {
            last
        }
    } else {
        p
    }
}

/// Where the keyboard is in a list above the box after the keys of this
/// pass: Up and Down move it, and it never leaves the list.
pub fn picker_moved(picking: usize, len: usize, up: bool, down: bool) -> (r: usize)
    ensures
        r == picker_at(picking, len, up, down),
        len > 0 ==> r < len,
{
    let last = len.saturating_sub(1);
    let mut p = if picking < last {
        picking
    } else {
        last
    };
    if up {
        p = p.saturating_sub(1);
    }
    if down {
        p = if p + 1 < last {
            p + 1
        } else {
            last
        };
    }
    p
}

/// Names joined with commas.
pub open spec fn listed(names: Seq<Seq<char>>) -> Seq<char>
    decreases names.len(),
{
    if names.len() == 0 {
        Seq::empty()
    } else if names.len() == 1 {
        names[0]
    } else {
        listed(names.drop_last()) + ", "@ + names.last()
    }
}

/// `names` joined with commas, onto the end of `s`.
pub fn push_listed(s: &mut String, names: &[String])
    ensures
        final(s)@ == old(s)@ + listed(names@.map_values(|n: String| n@)),
{
    let ghost views = names@.map_values(|n: String| n@);
    let ghost start = s@;
    let mut i: usize = 0;
    while i < names.len()
        invariant
            i <= names@.len(),
            views == names@.map_values(|n: String| n@),
            s@ == start + listed(views.take(i as int)),
        decreases names@.len() - i,
    {
        assert(views.take(i + 1).drop_last() =~= views.take(i as int));
        assert(views.take(i + 1).last() == names@[i as int]@);
        if i > 0 {
            push_str(s, ", ");
        }
        push_str(s, names[i].as_str());
        proof {
            if i == 0 {
                assert(listed(views.take(0)) =~= Seq::<char>::empty());
            }
        }
        i = i + 1;
    }
    assert(views.take(names@.len() as int) =~= views);
}

/// What is said when staging files left some out: those over the most a
/// message carries, counting the files already on a message being
/// rewritten, and those that are not files at all.
pub open spec fn staging_words(refused: nat, carried: nat, most: nat, not_files: Seq<Seq<char>>) -> Option<
    Seq<char>,
> {
    let over = if carried > 0 {
        "A message carries up to "@ + decimal(most) + " files, and "@ + decimal(carried)
            + " are already on this one; "@ + decimal(refused) + " left out."@
    } else {
        "A message carries up to "@ + decimal(most) + " files; "@ + decimal(refused) + " left out."@
    };
    let gone = "Not a file: "@ + listed(not_files) + "."@;
    if refused > 0 && not_files.len() > 0 {
        Some(over + " "@ + gone)
    } else if refused > 0 {
        Some(over)
    } else if not_files.len() > 0 {
        Some(gone)
    } else {
        None
    }
}

/// What is said beside the tiles when staging left files out, found out
/// here rather than at the upload, where it would fail the whole message.
pub fn staging_trouble(refused: u64, carried: u64, most: u64, not_files: &[String]) -> (r: Option<String>)
    ensures
        match (r, staging_words(
            refused as nat,
            carried as nat,
            most as nat,
            not_files@.map_values(|n: String| n@),
        )) {
            (Some(a), Some(b)) => a@ == b,
            (None, None) => true,
            _ => false,
        },
{
    let ghost names = not_files@.map_values(|n: String| n@);
    let mut said = String::new();
    if refused > 0 {
        push_str(&mut said, "A message carries up to ");
        push_decimal(&mut said, most);
        if carried > 0 {
            push_str(&mut said, " files, and ");
            push_decimal(&mut said, carried);
            push_str(&mut said, " are already on this one; ");
        } else {
            push_str(&mut said, " files; ");
        }
        push_decimal(&mut said, refused);
        push_str(&mut said, " left out.");
    }
    let ghost over = said@;
    if not_files.len() > 0 {
        if refused > 0 {
            push_str(&mut said, " ");
        }
        push_str(&mut said, "Not a file: ");
        push_listed(&mut said, not_files);
        push_str(&mut said, ".");
    }
    if refused == 0 && not_files.len() == 0 {
        return None;
    }
    Some(said)
}


/// Whether two paths name the same place: std's `==` on paths, which
/// compares them component by component, so `a/b` and `a//b` are one.
pub uninterp spec fn same_path(a: PathBuf, b: PathBuf) -> bool;

/// std's `==` on two `PathBuf`s. The answer is [`same_path`] of the two,
/// and a path is the same path as itself, as `Eq` promises; how
/// components compare is left unsaid.
#[verifier::external_body]
fn paths_equal(a: &PathBuf, b: &PathBuf) -> (r: bool)
    ensures
        r == same_path(*a, *b),
        *a == *b ==> r,
{
    a == b
}

/// A file offered to the composer -- dropped on it, or chosen -- as the
/// host found it.
pub struct Offered {
    pub path: PathBuf,
    /// Its file name, as shown; empty when it has none.
    pub name: String,
    /// Whether there is a file at the path: the host looked.
    pub is_file: bool,
    /// The kind of file its name says it is, as messages number kinds.
    pub kind: u8,
}

/// The tile an offered file becomes, with no picture yet.
pub open spec fn tile_of(o: Offered) -> Staged {
    Staged { source: Source::File(o.path), name: o.name, kind: o.kind, preview: None }
}

/// Whether `p` is already staged in `staged`, as the same path.
pub open spec fn staged_at(staged: Seq<Staged>, p: PathBuf) -> bool {
    exists|i: int|
        #![trigger staged[i]]
        {
            &&& 0 <= i < staged.len()
            &&& staged[i].source matches Source::File(q) && same_path(q, p)
        }
}

/// Staging `offered` in order onto `staged`, at most `most` files to a
/// message: the tiles, how many files were left out for want of room, and
/// the names of what was not a file. A file already staged is staged
/// once.
pub open spec fn stage_walk(staged: Seq<Staged>, offered: Seq<Offered>, most: nat) -> (
    Seq<Staged>,
    nat,
    Seq<Seq<char>>,
)
    decreases offered.len(),
{
    if offered.len() == 0 {
        (staged, 0, Seq::empty())
    } else {
        let w = stage_walk(staged, offered.drop_last(), most);
        let o = offered.last();
        if !o.is_file {
            (w.0, w.1, w.2.push(o.name@))
        } else if staged_at(w.0, o.path) {
            w
        } else if w.0.len() >= most {
            (w.0, w.1 + 1, w.2)
        } else {
            (w.0.push(tile_of(o)), w.1, w.2)
        }
    }
}

/// How many of `staged` are files of the message being rewritten.
pub open spec fn carried_count(staged: Seq<Staged>) -> nat
    decreases staged.len(),
{
    if staged.len() == 0 {
        0
    } else {
        carried_count(staged.drop_last()) + if staged.last().source is Carried {
            1nat
        } else {
            0nat
        }
    }
}

/// What staging `offered` does to the composer: the tiles are those of
/// [`stage_walk`], and when something was left out that is said beside
/// them; nothing else moves.
pub open spec fn staged_as(b: Composer, offered: Seq<Offered>, most: nat, a: Composer) -> bool {
    let w = stage_walk(b.staged@, offered, most);
    &&& a.staged@ == w.0
    &&& match staging_words(w.1, carried_count(w.0), most, w.2) {
        Some(t) => a.staging_trouble matches Some(said) && said@ == t,
        None => a.staging_trouble == b.staging_trouble,
    }
    &&& same_but_tiles(b, a)
}

/// Whether nothing of the composer but its tiles and what is said about
/// them moved from `b` to `a`.
pub open spec fn same_but_tiles(b: Composer, a: Composer) -> bool {
    &&& a.composing == b.composing
    &&& a.mentions == b.mentions
    &&& a.carried_mentions == b.carried_mentions
    &&& a.editing == b.editing
    &&& a.replying == b.replying
    &&& a.stashed == b.stashed
    &&& a.command_trouble == b.command_trouble
    &&& a.in_flight == b.in_flight
    &&& a.next_token == b.next_token
    &&& a.put_back == b.put_back
}

/// Whether `p` is staged among `staged`, by looking.
fn already_staged(staged: &Vec<Staged>, p: &PathBuf) -> (r: bool)
    ensures
        r == staged_at(staged@, *p),
{
    let mut i: usize = 0;
    while i < staged.len()
        invariant
            i <= staged@.len(),
            forall|j: int|
                0 <= j < i ==> !((#[trigger] staged@[j]).source matches Source::File(q)
                    && same_path(q, *p)),
        decreases staged@.len() - i,
    {
        match &staged[i].source {
            Source::File(q) => {
                if paths_equal(q, p) {
                    assert(staged@[i as int].source matches Source::File(q) && same_path(q, *p));
                    return true;
                }
            },
            Source::Carried(_) => {},
        }
        i = i + 1;
    }
    false
}

/// How many of `staged` are carried from the message being rewritten.
fn count_carried(staged: &Vec<Staged>) -> (n: usize)
    ensures
        n == carried_count(staged@),
{
    let mut n: usize = 0;
    let mut i: usize = 0;
    while i < staged.len()
        invariant
            i <= staged@.len(),
            n <= i,
            n == carried_count(staged@.take(i as int)),
        decreases staged@.len() - i,
    {
        assert(staged@.take(i + 1).drop_last() =~= staged@.take(i as int));
        match &staged[i].source {
            Source::Carried(_) => {
                n = n + 1;
            },
            Source::File(_) => {},
        }
        i = i + 1;
    }
    assert(staged@.take(staged@.len() as int) =~= staged@);
    n
}

impl Composer {
    /// Stage files offered to the box, in order: what is not a file is
    /// named as such, a file already staged is staged once, and past
    /// `most` to a message the rest are left out and counted -- said here,
    /// beside the tiles, rather than found out at the upload, where it
    /// would fail the whole message. Hands back the paths newly staged,
    /// whose pictures are still to be made.
    pub fn stage(&mut self, offered: &[Offered], most: u64) -> (added: Vec<PathBuf>)
        ensures
            staged_as(*old(self), offered@, most as nat, *final(self)),
            added@ == files_of(final(self).staged@.skip(old(self).staged@.len() as int)),
    {
        let ghost start = self.staged@;
        let mut staged: Vec<Staged> = Vec::new();
        std::mem::swap(&mut staged, &mut self.staged);
        let mut refused: usize = 0;
        let mut not_files: Vec<String> = Vec::new();
        let mut added: Vec<PathBuf> = Vec::new();
        let mut i: usize = 0;
        while i < offered.len()
            invariant
                i <= offered@.len(),
                refused <= i,
                stage_walk(start, offered@.take(i as int), most as nat) == (
                    staged@,
                    refused as nat,
                    not_files@.map_values(|n: String| n@),
                ),
                start.len() <= staged@.len(),
                added@ == files_of(staged@.skip(start.len() as int)),
            decreases offered@.len() - i,
        {
            let ghost before = staged@;
            assert(offered@.take(i + 1).drop_last() =~= offered@.take(i as int));
            assert(offered@.take(i + 1).last() == offered@[i as int]);
            let o = &offered[i];
            if !o.is_file {
                not_files.push(o.name.clone());
                assert(not_files@.map_values(|n: String| n@) =~= stage_walk(
                    start,
                    offered@.take(i as int),
                    most as nat,
                ).2.push(o.name@));
            } else if already_staged(&staged, &o.path) {
            } else if staged.len() as u64 >= most {
                refused = refused + 1;
            } else {
                let tile = Staged {
                    source: Source::File(copy_path(&o.path)),
                    name: o.name.clone(),
                    kind: o.kind,
                    preview: None,
                };
                assert(tile == tile_of(offered@[i as int]));
                staged.push(tile);
                added.push(copy_path(&o.path));
                assert(staged@.skip(start.len() as int) =~= before.skip(start.len() as int).push(
                    tile_of(offered@[i as int]),
                ));
                assert(staged@.skip(start.len() as int).drop_last() =~= before.skip(
                    start.len() as int,
                ));
            }
            i = i + 1;
        }
        assert(offered@.take(offered@.len() as int) =~= offered@);
        let carried = count_carried(&staged);
        std::mem::swap(&mut staged, &mut self.staged);
        let said = staging_trouble(refused as u64, carried as u64, most, not_files.as_slice());
        match said {
            Some(w) => {
                self.staging_trouble = Some(w);
            },
            None => {},
        }
        added
    }
}

/// Whether no two files of `staged` are the same path, the earlier one
/// compared with the later.
pub open spec fn each_once(staged: Seq<Staged>) -> bool {
    forall|i: int, j: int|
        0 <= i < j < staged.len() ==> !((#[trigger] staged[i]).source matches Source::File(p)
            && (#[trigger] staged[j]).source matches Source::File(q) && same_path(p, q))
}

/// The same file dropped twice is one file on the message: staging keeps
/// each path once when it was so before, keeps the tiles already there
/// where they were, and adds none past the most a message carries.
pub proof fn law_staged_once(staged: Seq<Staged>, offered: Seq<Offered>, most: nat)
    requires
        each_once(staged),
    ensures
        each_once(stage_walk(staged, offered, most).0),
        staged.len() <= stage_walk(staged, offered, most).0.len(),
        stage_walk(staged, offered, most).0.subrange(0, staged.len() as int) == staged,
        stage_walk(staged, offered, most).0.len() <= if staged.len() > most {
            staged.len()
        } else {
            most
        },
    decreases offered.len(),
{
    if offered.len() > 0 {
        law_staged_once(staged, offered.drop_last(), most);
        let w = stage_walk(staged, offered.drop_last(), most);
        let o = offered.last();
        if o.is_file && !staged_at(w.0, o.path) && w.0.len() < most {
            let s = w.0.push(tile_of(o));
            assert forall|i: int, j: int|
                0 <= i < j < s.len() implies !((#[trigger] s[i]).source matches Source::File(p)
                && (#[trigger] s[j]).source matches Source::File(q) && same_path(p, q)) by {
                if j == s.len() - 1 {
                    if let Source::File(p) = s[i].source {
                        if same_path(p, o.path) {
                            assert(w.0[i].source matches Source::File(p) && same_path(p, o.path));
                        }
                    }
                } else {
                    assert(s[i] == w.0[i] && s[j] == w.0[j]);
                }
            }
            assert(s.subrange(0, staged.len() as int) =~= w.0.subrange(0, staged.len() as int));
        }
    }
}

/// Offering a file that is already staged changes nothing at all.
pub proof fn law_second_drop_changes_nothing(staged: Seq<Staged>, o: Offered, most: nat)
    requires
        o.is_file,
        staged_at(staged, o.path),
    ensures
        stage_walk(staged, seq![o], most) == (staged, 0nat, Seq::<Seq<char>>::empty()),
{
    assert(seq![o].drop_last() =~= Seq::<Offered>::empty());
    assert(stage_walk(staged, Seq::<Offered>::empty(), most) == (
        staged,
        0nat,
        Seq::<Seq<char>>::empty(),
    ));
}


/// **Typing is said when it changes**, not at every key: whether somebody
/// is writing, for a box now holding `composing`, when that differs from
/// what was last said (`announced`); nothing when it does not. An empty
/// box is not somebody writing.
pub fn typing_said(announced: bool, composing: &str) -> (r: Option<bool>)
    ensures
        (composing@.len() > 0) == announced ==> r is None,
        (composing@.len() > 0) != announced ==> r == Some(composing@.len() > 0),
{
    let writing = !composing.is_empty();
    if writing != announced {
        Some(writing)
    } else {
        None
    }
}


/// Whether the tile at `i` is the first of `staged` for the path `p`.
pub open spec fn first_tile(staged: Seq<Staged>, p: PathBuf, i: int) -> bool {
    &&& 0 <= i < staged.len()
    &&& staged[i].source matches Source::File(q) && same_path(q, p)
    &&& forall|j: int|
        0 <= j < i ==> !((#[trigger] staged[j]).source matches Source::File(q) && same_path(q, p))
}

/// A picture that arrived: kept when there is anything to it.
pub open spec fn kept_picture(picture: Option<Vec<u8>>) -> Option<Vec<u8>> {
    match picture {
        Some(b) => if b@.len() > 0 {
            Some(b)
        } else {
            None
        },
        None => None,
    }
}

/// The first tile of `staged` for the path `p`, by looking.
fn find_tile(staged: &Vec<Staged>, p: &PathBuf) -> (r: Option<usize>)
    ensures
        match r {
            Some(i) => first_tile(staged@, *p, i as int),
            None => forall|k: int| !first_tile(staged@, *p, k),
        },
{
    let mut i: usize = 0;
    while i < staged.len()
        invariant
            i <= staged@.len(),
            forall|j: int|
                0 <= j < i ==> !((#[trigger] staged@[j]).source matches Source::File(q)
                    && same_path(q, *p)),
        decreases staged@.len() - i,
    {
        let hit = match &staged[i].source {
            Source::File(q) => paths_equal(q, p),
            Source::Carried(_) => false,
        };
        if hit {
            return Some(i);
        }
        i = i + 1;
    }
    assert forall|k: int| !first_tile(staged@, *p, k) by {
        if first_tile(staged@, *p, k) {
            assert(!((staged@[k]).source matches Source::File(q) && same_path(q, *p)));
        }
    }
    None
}

impl Composer {
    /// A staged file's picture has been made: it goes on the first tile of
    /// that path, if the file is still staged, and an empty one is no
    /// picture. Nothing else moves.
    pub fn picture_landed(&mut self, path: &PathBuf, picture: Option<Vec<u8>>)
        ensures
            same_but_tiles(*old(self), *final(self)),
            final(self).staging_trouble == old(self).staging_trouble,
            (exists|i: int| #[trigger] first_tile(old(self).staged@, *path, i)) ==> ({
                let i = choose|i: int| #[trigger] first_tile(old(self).staged@, *path, i);
                final(self).staged@ == old(self).staged@.update(
                    i,
                    Staged { preview: kept_picture(picture), ..old(self).staged@[i] },
                )
            }),
            !(exists|i: int| #[trigger] first_tile(old(self).staged@, *path, i))
                ==> final(self).staged@ == old(self).staged@,
    {
        match find_tile(&self.staged, path) {
            Some(i) => {
                proof {
                    let k = choose|k: int| #[trigger] first_tile(old(self).staged@, *path, k);
                    if k < i {
                        assert(!first_tile(old(self).staged@, *path, k));
                    } else if k > i {
                        assert(!first_tile(old(self).staged@, *path, k));
                    }
                }
                let mut tile = self.staged.remove(i);
                tile.preview = match picture {
                    Some(b) => if b.len() > 0 {
                        Some(b)
                    } else {
                        None
                    },
                    None => None,
                };
                self.staged.insert(i, tile);
                assert(self.staged@ =~= old(self).staged@.update(
                    i as int,
                    Staged { preview: kept_picture(picture), ..old(self).staged@[i as int] },
                ));
            },
            None => {},
        }
    }

    /// The tile at `i` taken back out. Room was made, so what was said about
    /// there being none is stale, and is dropped.
    pub fn unstage(&mut self, i: usize)
        requires
            i < old(self).staged@.len(),
        ensures
            same_but_tiles(*old(self), *final(self)),
            final(self).staged@ == old(self).staged@.remove(i as int),
            final(self).staging_trouble is None,
    {
        self.staged.remove(i);
        self.staging_trouble = None;
    }
}

} // verus!

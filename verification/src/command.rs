//! The composer's half of a command: what `/` means while typing, which
//! commands it could mean, and what a line starting with one asks for.
//!
//! **A command is not a message.** A line that begins with `/` is asked of
//! this client and never posted -- and a line that begins with `//` is a
//! message that begins with `/`, sent with one of them.

use vstd::prelude::*;

use crate::text::{
    all_ascii, ascii_lower, char_is_ws, chars_of, find_ws, first_ws, has_ws, is_ws,
    lemma_first_ws, lower, lowercase, push_range, push_str, range_is, starts_with, string_of,
    trim, trim_end, trim_range, trim_start,
};

verus! {

broadcast use vstd::string::group_string_axioms;

/// One command, as the list names and describes it.
#[derive(Debug, Clone, Copy, PartialEq, Eq)]
pub struct Spec {
    /// The word after the slash.
    pub name: &'static str,
    /// What follows it, if anything, for the list: `"<text>"`, or empty.
    pub arg: &'static str,
    /// What it does, in a few words.
    pub what: &'static str,
}

/// How many commands there are.
pub const COUNT: usize = 18;

/// The names, in the order the list shows them.
pub open spec fn names() -> Seq<Seq<char>> {
    seq![
        "call"@, "answer"@, "decline"@, "hangup"@, "mute"@, "unmute"@, "topic"@, "name"@,
        "invite"@, "verify"@, "members"@, "settings"@, "devices"@, "search"@, "new"@,
        "profile"@, "reconnect"@, "help"@,
    ]
}

/// What follows each name, in the same order.
pub open spec fn args() -> Seq<Seq<char>> {
    seq![
        ""@, ""@, ""@, ""@, ""@, ""@, "<text>"@, "<text>"@, "<key>"@, ""@, ""@, ""@, ""@,
        "<text>"@, ""@, ""@, ""@, ""@,
    ]
}

/// What each does, in the same order.
pub open spec fn whats() -> Seq<Seq<char>> {
    seq![
        "Ring this conversation"@,
        "Take the call ringing here"@,
        "Refuse the call ringing here"@,
        "End the call, or cancel yours"@,
        "Say nothing out loud about this conversation"@,
        "Say things out loud about it again"@,
        "Set this conversation's topic"@,
        "Rename this group or channel"@,
        "Bring somebody in, by their key"@,
        "Compare safety words with the person you are writing to"@,
        "Who is here"@,
        "This conversation's settings"@,
        "Your devices"@,
        "Search what this client holds"@,
        "Write to somebody, or start a group or a channel"@,
        "Your name and title, as others see them"@,
        "Dial the exchange again"@,
        "Show these commands"@,
    ]
}

/// The command at `i` of the list, as its three texts.
pub open spec fn entry(i: int) -> (Seq<char>, Seq<char>, Seq<char>) {
    (names()[i], args()[i], whats()[i])
}

/// The whole list, as texts.
pub open spec fn table() -> Seq<(Seq<char>, Seq<char>, Seq<char>)> {
    Seq::new(COUNT as nat, |i: int| entry(i))
}

/// How a command is typed: the slash, the name, and a space when an
/// argument is to follow.
pub open spec fn typed_of(name: Seq<char>, arg: Seq<char>) -> Seq<char> {
    if arg.len() == 0 {
        "/"@ + name
    } else {
        "/"@ + name + " "@
    }
}

impl Spec {
    /// The three texts of this command.
    pub open spec fn texts(self) -> (Seq<char>, Seq<char>, Seq<char>) {
        (self.name@, self.arg@, self.what@)
    }

    /// The command as it is typed, with room for its argument.
    pub fn typed(&self) -> (r: String)
        ensures
            r@ == typed_of(self.name@, self.arg@),
    {
        let mut r = String::new();
        push_str(&mut r, "/");
        push_str(&mut r, self.name);
        if !self.arg.is_empty() {
            push_str(&mut r, " ");
        }
        r
    }
}

/// What can be asked for, in the order the list shows it.
pub fn commands() -> (v: Vec<Spec>)
    ensures
        v@.len() == COUNT,
        v@.map_values(|s: Spec| s.texts()) == table(),
{
    let v = vec![
        Spec { name: "call", arg: "", what: "Ring this conversation" },
        Spec { name: "answer", arg: "", what: "Take the call ringing here" },
        Spec { name: "decline", arg: "", what: "Refuse the call ringing here" },
        Spec { name: "hangup", arg: "", what: "End the call, or cancel yours" },
        Spec { name: "mute", arg: "", what: "Say nothing out loud about this conversation" },
        Spec { name: "unmute", arg: "", what: "Say things out loud about it again" },
        Spec { name: "topic", arg: "<text>", what: "Set this conversation's topic" },
        Spec { name: "name", arg: "<text>", what: "Rename this group or channel" },
        Spec { name: "invite", arg: "<key>", what: "Bring somebody in, by their key" },
        Spec {
            name: "verify",
            arg: "",
            what: "Compare safety words with the person you are writing to",
        },
        Spec { name: "members", arg: "", what: "Who is here" },
        Spec { name: "settings", arg: "", what: "This conversation's settings" },
        Spec { name: "devices", arg: "", what: "Your devices" },
        Spec { name: "search", arg: "<text>", what: "Search what this client holds" },
        Spec {
            name: "new",
            arg: "",
            what: "Write to somebody, or start a group or a channel",
        },
        Spec { name: "profile", arg: "", what: "Your name and title, as others see them" },
        Spec { name: "reconnect", arg: "", what: "Dial the exchange again" },
        Spec { name: "help", arg: "", what: "Show these commands" },
    ];
    assert(v@.map_values(|s: Spec| s.texts()) =~= table());
    v
}


/// What a line asks for.
#[derive(Debug, Clone, PartialEq, Eq)]
pub enum Command {
    Call,
    Answer,
    Decline,
    Hangup,
    Mute,
    Unmute,
    Topic(String),
    Name(String),
    Invite(String),
    Verify,
    Members,
    Settings,
    Devices,
    Search(String),
    New,
    Profile,
    Reconnect,
    Help,
}

impl Command {
    /// Where this command stands in the list.
    pub open spec fn index(self) -> int {
        match self {
            Command::Call => 0,
            Command::Answer => 1,
            Command::Decline => 2,
            Command::Hangup => 3,
            Command::Mute => 4,
            Command::Unmute => 5,
            Command::Topic(_) => 6,
            Command::Name(_) => 7,
            Command::Invite(_) => 8,
            Command::Verify => 9,
            Command::Members => 10,
            Command::Settings => 11,
            Command::Devices => 12,
            Command::Search(_) => 13,
            Command::New => 14,
            Command::Profile => 15,
            Command::Reconnect => 16,
            Command::Help => 17,
        }
    }

    /// What it carries; empty for a command that carries nothing.
    pub open spec fn argument(self) -> Seq<char> {
        match self {
            Command::Topic(a) => a@,
            Command::Name(a) => a@,
            Command::Invite(a) => a@,
            Command::Search(a) => a@,
            _ => Seq::empty(),
        }
    }
}

/// The `/` being typed, if `t` is one: what follows it, while the word is
/// still being typed. Not after a second slash, and not once a space says
/// the word is finished.
pub open spec fn query_of(t: Seq<char>) -> Option<Seq<char>> {
    if t.len() > 0 && t[0] == '/' {
        let rest = t.skip(1);
        if (rest.len() > 0 && rest[0] == '/') || has_ws(rest) {
            None
        } else {
            Some(rest)
        }
    } else {
        None
    }
}

/// The `/` being typed, if the text is one: the characters after it, while
/// the word is still being typed. `"/ca"` is `Some("ca")`, `"/"` is
/// `Some("")`, `"/topic x"` is `None` -- the word is finished and the
/// argument is being written -- and `"hi /x"` is `None`: a slash inside a
/// message is a slash.
pub fn command_query(text: &str) -> (r: Option<String>)
    ensures
        r matches Some(q) ==> query_of(text@) == Some(q@),
        r is None ==> query_of(text@) is None,
{
    let v = chars_of(text);
    if v.len() == 0 || v[0] != '/' {
        return None;
    }
    if v.len() > 1 && v[1] == '/' {
        return None;
    }
    let j = find_ws(&v, 1, v.len());
    proof {
        lemma_first_ws(v@.subrange(1, v@.len() as int));
        assert(v@.subrange(1, v@.len() as int) =~= v@.skip(1));
    }
    if j < v.len() {
        return None;
    }
    Some(string_of(&v, 1, v.len()))
}

/// Whether the command `e` could be what `q` starts.
pub open spec fn could_be(q: Seq<char>) -> spec_fn((Seq<char>, Seq<char>, Seq<char>)) -> bool {
    |e: (Seq<char>, Seq<char>, Seq<char>)| starts_with(e.0, q)
}

/// The commands `query` could be the start of, in the list's order: those
/// whose name starts with it, case aside.
pub fn candidates(query: &str) -> (r: Vec<Spec>)
    ensures
        r@.map_values(|s: Spec| s.texts()) == table().filter(could_be(lowercase(query@))),
{
    let q = lower(query);
    let qv = chars_of(q.as_str());
    let all = commands();
    let ghost pred = could_be(lowercase(query@));
    let mut out: Vec<Spec> = Vec::new();
    let mut i: usize = 0;
    while i < all.len()
        invariant
            i <= all@.len(),
            all@.map_values(|s: Spec| s.texts()) == table(),
            qv@ == lowercase(query@),
            pred == could_be(lowercase(query@)),
            out@.map_values(|s: Spec| s.texts()) == table().take(i as int).filter(pred),
        decreases all@.len() - i,
    {
        let spec = all[i];
        let name = chars_of(spec.name);
        let keep = crate::text::vec_starts_with(&name, &qv);
        proof {
            reveal_with_fuel(Seq::filter, 1);
            assert(table().take(i + 1).drop_last() =~= table().take(i as int));
            assert(table()[i as int] == spec.texts());
        }
        if keep {
            out.push(spec);
            assert(out@.map_values(|s: Spec| s.texts()) =~= table().take(i as int).filter(
                pred,
            ).push(spec.texts()));
        }
        i = i + 1;
    }
    assert(table().take(all@.len() as int) =~= table());
    out
}

/// Put the command in place of the word being typed: `"/na"` becomes
/// `"/name "`, with the space when there is an argument to follow.
pub fn complete(text: &mut String, spec: &Spec)
    ensures
        final(text)@ == typed_of(spec.name@, spec.arg@),
{
    *text = spec.typed();
}

/// Whether `t` is sent as a message, and the message it is.
pub open spec fn message_of(t: Seq<char>) -> Option<Seq<char>> {
    if t.len() >= 2 && t[0] == '/' && t[1] == '/' {
        Some(t.skip(1))
    } else if t.len() > 0 && t[0] == '/' {
        None
    } else {
        Some(t)
    }
}

/// Whether `text` is to be sent as a message rather than read as a
/// command, and the message it is: `"//x"` is the message `"/x"`.
pub fn as_message(text: &str) -> (r: Option<String>)
    ensures
        r matches Some(m) ==> message_of(text@) == Some(m@),
        r is None ==> message_of(text@) is None,
{
    let v = chars_of(text);
    if v.len() >= 2 && v[0] == '/' && v[1] == '/' {
        Some(string_of(&v, 1, v.len()))
    } else if v.len() > 0 && v[0] == '/' {
        None
    } else {
        Some(string_of(&v, 0, v.len()))
    }
}

/// The word of a command line `t` (without its slash), as typed.
pub open spec fn word_of(t: Seq<char>) -> Seq<char> {
    let line = t.skip(1);
    line.take(first_ws(line))
}

/// What follows the word of a command line, trimmed.
pub open spec fn arg_of(t: Seq<char>) -> Seq<char> {
    let line = t.skip(1);
    if first_ws(line) < line.len() {
        trim(line.skip(first_ws(line) + 1))
    } else {
        Seq::empty()
    }
}

/// The first place at or after `i` in the list whose name is `w`;
/// [`COUNT`] when there is none.
pub open spec fn find_name(w: Seq<char>, i: int) -> int
    decreases COUNT - i,
{
    if i >= COUNT {
        COUNT as int
    } else if names()[i] == w {
        i
    } else {
        find_name(w, i + 1)
    }
}

/// What a trimmed line `t` asks, once it is known not to be a message:
/// `Ok(i, a)` for the command at `i` of the list carrying `a`, or the
/// words for the mistake.
pub open spec fn asked(t: Seq<char>) -> Result<(int, Seq<char>), Seq<char>> {
    let w = lowercase(word_of(t));
    let a = arg_of(t);
    let i = find_name(w, 0);
    if i < COUNT {
        if args()[i].len() == 0 {
            Ok((i, Seq::empty()))
        } else if a.len() == 0 {
            Err("/"@ + w + " needs "@ + args()[i] + ": /"@ + w + " "@ + args()[i])
        } else {
            Ok((i, a))
        }
    } else if w.len() == 0 {
        Err("Which command? Type / to see them."@)
    } else {
        Err(
            "/"@ + w
                + " is not a command. Type / to see them, or // to send a message that starts with a slash."@,
        )
    }
}

/// Where in the list the command named `w` is.
fn lookup(w: &Vec<char>, all: &Vec<Spec>) -> (r: usize)
    requires
        all@.len() == COUNT,
        all@.map_values(|s: Spec| s.texts()) == table(),
    ensures
        r == find_name(w@, 0),
        r <= COUNT,
{
    let mut i: usize = 0;
    while i < all.len()
        invariant
            i <= all@.len(),
            all@.len() == COUNT,
            all@.map_values(|s: Spec| s.texts()) == table(),
            find_name(w@, 0) == find_name(w@, i as int),
        decreases all@.len() - i,
    {
        assert(table()[i as int] == all@[i as int].texts());
        if range_is(w, 0, w.len(), all[i].name) {
            assert(w@.subrange(0, w@.len() as int) =~= w@);
            return i;
        }
        assert(w@.subrange(0, w@.len() as int) =~= w@);
        i = i + 1;
    }
    i
}

/// The commands that carry something are the ones whose list entry says
/// what: topic, name, invite and search.
proof fn lemma_args()
    ensures
        forall|i: int|
            0 <= i < COUNT ==> (#[trigger] args()[i].len() == 0 <==> !(i == 6 || i == 7 || i == 8
                || i == 13)),
{
    reveal_strlit("");
    reveal_strlit("<text>");
    reveal_strlit("<key>");
}

/// The command at `i` of the list, carrying `arg` if it carries anything.
fn command_at(i: usize, arg: String) -> (c: Command)
    requires
        i < COUNT,
    ensures
        c.index() == i,
        c.argument() == (if i == 6 || i == 7 || i == 8 || i == 13 {
            arg@
        } else {
            Seq::<char>::empty()
        }),
{
    if i == 0 {
        Command::Call
    } else if i == 1 {
        Command::Answer
    } else if i == 2 {
        Command::Decline
    } else if i == 3 {
        Command::Hangup
    } else if i == 4 {
        Command::Mute
    } else if i == 5 {
        Command::Unmute
    } else if i == 6 {
        Command::Topic(arg)
    } else if i == 7 {
        Command::Name(arg)
    } else if i == 8 {
        Command::Invite(arg)
    } else if i == 9 {
        Command::Verify
    } else if i == 10 {
        Command::Members
    } else if i == 11 {
        Command::Settings
    } else if i == 12 {
        Command::Devices
    } else if i == 13 {
        Command::Search(arg)
    } else if i == 14 {
        Command::New
    } else if i == 15 {
        Command::Profile
    } else if i == 16 {
        Command::Reconnect
    } else {
        Command::Help
    }
}

/// What a line asks for. `Ok(None)`: not a command at all, send it.
/// `Err`: a command nobody knows, or one missing what it needs, in words
/// for the person who typed it.
pub fn parse(text: &str) -> (r: Result<Option<Command>, String>)
    ensures
        message_of(trim(text@)) is Some ==> r == Ok::<Option<Command>, String>(None),
        message_of(trim(text@)) is None ==> match (r, asked(trim(text@))) {
            (Ok(Some(c)), Ok((i, a))) => c.index() == i && c.argument() == a,
            (Err(e), Err(m)) => e@ == m,
            _ => false,
        },
{
    let v = chars_of(text);
    let (a, b) = trim_range(&v, 0, v.len());
    assert(v@.subrange(0, v@.len() as int) =~= v@);
    let t = string_of(&v, a, b);
    if as_message(t.as_str()).is_some() {
        return Ok(None);
    }
    let tv = chars_of(t.as_str());
    let n = tv.len();
    let j = find_ws(&tv, 1, n);
    proof {
        lemma_first_ws(tv@.subrange(1, n as int));
        assert(tv@.subrange(1, n as int) =~= tv@.skip(1));
        assert(tv@.skip(1).take(j - 1) =~= tv@.subrange(1, j as int));
    }
    let word = string_of(&tv, 1, j);
    let (p, q) = if j < n {
        assert(tv@.skip(1).skip(j - 1 + 1) =~= tv@.subrange(j + 1, n as int));
        trim_range(&tv, j + 1, n)
    } else {
        (n, n)
    };
    assert(arg_of(tv@) == tv@.subrange(p as int, q as int));
    let w = lower(word.as_str());
    let wv = chars_of(w.as_str());
    let all = commands();
    let i = lookup(&wv, &all);
    proof {
        lemma_args();
    }
    if i < COUNT {
        let spec = all[i];
        assert(table()[i as int] == spec.texts());
        if spec.arg.is_empty() {
            return Ok(Some(command_at(i, String::new())));
        }
        if p == q {
            let mut e = String::new();
            push_str(&mut e, "/");
            push_str(&mut e, w.as_str());
            push_str(&mut e, " needs ");
            push_str(&mut e, spec.arg);
            push_str(&mut e, ": /");
            push_str(&mut e, w.as_str());
            push_str(&mut e, " ");
            push_str(&mut e, spec.arg);
            return Err(e);
        }
        return Ok(Some(command_at(i, string_of(&tv, p, q))));
    }
    if wv.len() == 0 {
        let mut e = String::new();
        push_str(&mut e, "Which command? Type / to see them.");
        return Err(e);
    }
    let mut e = String::new();
    push_str(&mut e, "/");
    push_str(&mut e, w.as_str());
    push_str(
        &mut e,
        " is not a command. Type / to see them, or // to send a message that starts with a slash.",
    );
    Err(e)
}


/// Whether `w` is a word of small ASCII letters.
pub open spec fn small_word(w: Seq<char>) -> bool {
    forall|k: int| 0 <= k < w.len() ==> 'a' <= #[trigger] w[k] <= 'z'
}

/// Every name in the list is a word of small letters, and no two are the
/// same.
proof fn lemma_names()
    ensures
        forall|i: int| 0 <= i < COUNT ==> #[trigger] small_word(names()[i]) && names()[i].len() > 0,
        forall|i: int, j: int|
            0 <= i < COUNT && 0 <= j < COUNT && i != j ==> #[trigger] names()[i] != #[trigger] names()[j],
{
    reveal_strlit("call");
    reveal_strlit("answer");
    reveal_strlit("decline");
    reveal_strlit("hangup");
    reveal_strlit("mute");
    reveal_strlit("unmute");
    reveal_strlit("topic");
    reveal_strlit("name");
    reveal_strlit("invite");
    reveal_strlit("verify");
    reveal_strlit("members");
    reveal_strlit("settings");
    reveal_strlit("devices");
    reveal_strlit("search");
    reveal_strlit("new");
    reveal_strlit("profile");
    reveal_strlit("reconnect");
    reveal_strlit("help");
    assert forall|i: int| 0 <= i < COUNT implies #[trigger] small_word(names()[i]) && names()[i].len() > 0 by {
    }
    assert forall|i: int, j: int|
        0 <= i < COUNT && 0 <= j < COUNT && i != j implies #[trigger] names()[i] != #[trigger] names()[j] by {
        if names()[i] == names()[j] {
            assert(names()[i].len() == names()[j].len());
            assert(names()[i][0] == names()[j][0]);
            assert(names()[i][1] == names()[j][1]);
            assert(names()[i][2] == names()[j][2]);
        }
    }
}

/// A word of small letters is its own lower case.
proof fn lemma_small_lowercase(w: Seq<char>)
    requires
        small_word(w),
    ensures
        lowercase(w) == w,
{
    assert(all_ascii(w)) by {
        assert forall|k: int| 0 <= k < w.len() implies (#[trigger] w[k] as u32) < 128 by {
            assert('a' <= w[k] <= 'z');
        }
    }
    assert(w.map_values(|c: char| ascii_lower(c)) =~= w);
}

/// A word of small letters, then whatever follows a space or nothing: the
/// first whitespace is where the word ends.
proof fn lemma_word_ends(w: Seq<char>, rest: Seq<char>)
    requires
        small_word(w),
        rest.len() == 0 || is_ws(rest[0]),
    ensures
        first_ws(w + rest) == w.len(),
    decreases w.len(),
{
    if w.len() == 0 {
        assert(w + rest =~= rest);
    } else {
        assert('a' <= w[0] <= 'z');
        assert((w + rest).drop_first() =~= w.drop_first() + rest);
        lemma_word_ends(w.drop_first(), rest);
    }
}

/// **The list and the parser agree.** Every command the list offers parses
/// as that command when typed as the list shows it: alone when it takes
/// nothing, and followed by its argument -- anything with no whitespace at
/// its ends -- when it takes something.
pub proof fn law_listed_commands_parse(i: int, a: Seq<char>)
    requires
        0 <= i < COUNT,
        args()[i].len() > 0 ==> a.len() > 0 && !is_ws(a[0]) && !is_ws(a.last()),
    ensures
        ({
            let line = if args()[i].len() == 0 {
                typed_of(names()[i], args()[i])
            } else {
                typed_of(names()[i], args()[i]) + a
            };
            &&& message_of(trim(line)) is None
            &&& asked(trim(line)) == Ok::<(int, Seq<char>), Seq<char>>(
                (i, if args()[i].len() == 0 { Seq::empty() } else { a }),
            )
        }),
{
    lemma_listed_name(i);
    reveal_strlit("/");
    reveal_strlit(" ");
    let n = names()[i];
    lemma_small_lowercase(n);
    let rest = if args()[i].len() == 0 { Seq::<char>::empty() } else { seq![' '] + a };
    let line = "/"@ + n + rest;
    assert(line == (if args()[i].len() == 0 {
        typed_of(n, args()[i])
    } else {
        typed_of(n, args()[i]) + a
    })) by {
        if args()[i].len() == 0 {
            assert(line =~= "/"@ + n);
        } else {
            assert(line =~= "/"@ + n + " "@ + a);
        }
    }
    assert('a' <= n[0] <= 'z');
    assert(line[0] == '/');
    assert(line.len() > 1 && line[1] == n[0]);
    assert(!is_ws(line[0]));
    assert(trim_start(line) == line);
    assert(!is_ws(line.last())) by {
        if args()[i].len() == 0 {
            assert(line.last() == n.last());
            assert('a' <= n[n.len() - 1] <= 'z');
        } else {
            assert(line.last() == a.last());
        }
    }
    assert(trim(line) == line);
    assert(message_of(line) is None);
    let body = line.skip(1);
    assert(body =~= n + rest);
    assert(rest.len() == 0 || is_ws(rest[0])) by {
        if rest.len() > 0 {
            assert(rest[0] == ' ');
        }
    }
    lemma_word_ends(n, rest);
    assert(body.take(n.len() as int) =~= n);
    assert(word_of(line) == n);
    if args()[i].len() > 0 {
        assert(body.skip(n.len() as int + 1) =~= a);
        assert(trim_start(a) == a);
        assert(trim_end(a) == a);
        assert(arg_of(line) == a);
    }
}

/// The name at `i` of the list: a word of small letters, found at `i`.
proof fn lemma_listed_name(i: int)
    requires
        0 <= i < COUNT,
    ensures
        small_word(names()[i]),
        names()[i].len() > 0,
        find_name(names()[i], 0) == i,
{
    lemma_names();
    lemma_find_listed(i, 0);
}

/// Looking from `j` on, the name at `i` is found at `i`.
proof fn lemma_find_listed(i: int, j: int)
    requires
        0 <= j <= i < COUNT,
        forall|a: int, b: int|
            0 <= a < COUNT && 0 <= b < COUNT && a != b ==> #[trigger] names()[a] != #[trigger] names()[b],
    ensures
        find_name(names()[i], j) == i,
    decreases i - j,
{
    if j < i {
        assert(names()[j] != names()[i]);
        lemma_find_listed(i, j + 1);
    }
}
/// What is found looking from `j` on is a name of the list, and the one
/// looked for.
proof fn lemma_found_is_named(w: Seq<char>, j: int)
    requires
        0 <= j,
    ensures
        find_name(w, j) <= COUNT,
        find_name(w, j) < COUNT ==> j <= find_name(w, j) && names()[find_name(w, j)] == w,
    decreases COUNT - j,
{
    if j < COUNT && names()[j] != w {
        lemma_found_is_named(w, j + 1);
    }
}

/// **The list is the vocabulary.** Whatever a line is read as asking for
/// is a command of the list, named by the line's word, case aside; and it
/// carries something exactly when the list says it takes something.
pub proof fn law_only_listed_commands(t: Seq<char>)
    ensures
        asked(t) matches Ok((i, a)) ==> 0 <= i < COUNT && names()[i] == lowercase(word_of(t)) && (
        args()[i].len() == 0 <==> a.len() == 0),
{
    lemma_found_is_named(lowercase(word_of(t)), 0);
}

} // verus!

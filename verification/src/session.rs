//! What a session knows, as far as the rest of the client reads it: rings,
//! conversations, members and what arrived.

use vstd::prelude::*;

use crate::key::Key;

verus! {

/// A call ringing in a conversation.
#[derive(Debug, Clone)]
pub struct Ring {
    /// The conversation it rings in.
    pub channel: Key,
    /// The message that started it.
    pub seq: u64,
    /// Who is calling.
    pub from: Key,
    /// Whether we placed it.
    pub mine: bool,
    /// The call's secret.
    pub secret: [u8; 32],
    /// Whether somebody has picked it up.
    pub answered: bool,
    /// What the conversation is called here.
    pub label: String,
    /// Whether it may go direct.
    pub direct: bool,
    /// The other party, for a call between two.
    pub peer: Option<Key>,
}

/// One conversation, as the list shows it.
#[derive(Debug, Clone)]
pub struct Summary {
    pub channel: Key,
    pub peer: Option<Key>,
    pub label: String,
    pub unread: u64,
    pub mentioned: u64,
    pub preview: Option<String>,
    /// When something was last said in it; `None` when nothing has been.
    pub at: Option<u64>,
    pub public: Option<bool>,
    pub group: bool,
    pub typing: bool,
    pub waiting: bool,
}

/// One member of a room.
#[derive(Debug, Clone, Copy)]
pub struct Member {
    pub account: Key,
    pub admin: bool,
    pub muted: bool,
}

/// A message that arrived, as far as saying so out loud needs.
#[derive(Debug, Clone)]
pub struct Arrival {
    pub channel: Key,
    pub seq: u64,
    pub from: Key,
    /// Whether the conversation is between two.
    pub direct: bool,
    /// Whether it mentions us.
    pub mentions_me: bool,
    /// The sender, by the name this client has for them.
    pub from_label: String,
    /// The conversation, as it is called here.
    pub conversation: String,
    /// Whether the conversation is public.
    pub public: bool,
    /// What was said, shortened.
    pub said: String,
    /// Whether the conversation is the one open on screen.
    pub in_open: bool,
}

/// A message that mentions us is an arrival with the mark set.
pub type Mention = Arrival;

/// A file on a message.
#[derive(Debug, Clone)]
pub struct Attached {
    /// The blob's id.
    pub id: String,
    /// What the message says it is.
    pub described: String,
    /// The kind of file it is, as messages number kinds.
    pub kind: u8,
    /// A small picture of it; empty when there is none.
    pub preview: Vec<u8>,
}

} // verus!

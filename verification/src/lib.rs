//! The plain-data half of a chat client, verified: what a line typed in the
//! composer asks for, who a mention means and which still stand, who is
//! there, the emoji most sent, a file choice made once, the files staged
//! on a message, what is said out loud about calls, mentions and arrivals,
//! how the transcript is laid out, what the composer holds and gives back,
//! and the rules around a session -- when one is started again, what the
//! back key does, which exchange is shown, which ring is answered and
//! which call put down, who "Write to" reaches, and which other exchanges
//! are offered.
//!
//! Text is read as its characters; keys as their thirty-two bytes; times
//! as integers on the host's clock. The host walks the sessions, keeps the
//! clocks, draws, and does what is decided here.

pub mod text;
pub mod key;
pub mod order;
pub mod session;

pub mod command;
pub mod act;
pub mod mention;
pub mod composer;
pub mod transcript;

pub mod presence;
pub mod frequent;
pub mod files;
pub mod pairing;
pub mod guardians;
pub mod backup;
pub mod trouble;

pub mod chat;
pub mod exchange;
pub mod words;
pub mod herald;
pub mod retry;
pub mod trace;

//! A verified reader and writer for gettext PO/POT message catalogs.
//!
//! The library parses line-oriented catalog text (comments, `msgctxt` /
//! `msgid` / `msgid_plural` / `msgstr[n]` commands, and bare quoted-string
//! continuation lines) into an ordered [`Pot`] of messages, and serializes a
//! catalog back to text. Every executable function carries a contract that
//! pins its result down to a mathematical specification, and the crate proves
//! the central laws: unescaping inverts escaping, and re-reading written
//! output reproduces the catalog.

pub mod catalog;
pub mod command;
pub mod laws;
pub mod escape;
pub mod line;
pub mod message;
pub mod render;

pub use catalog::Pot;
pub use catalog::PotError;

pub use command::PotCommand;
pub use command::PotKey;
pub use message::PotComment;
pub use message::PotCommentKind;
pub use message::PotMessage;

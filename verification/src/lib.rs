//! Parsing and serialisation of TMI chat lines.
//!
//! TMI is the tag-prefixed IRC dialect of a live-chat service. A line of it is
//! turned into a [`Message`] by [`Message::parse`] and back into wire form by
//! [`Message::unparse`]. Neither does any input or output: a line comes in as
//! text and goes out as text.
//!
//! Text is modelled throughout by its UTF-8 bytes. The grammar is a set of
//! spec functions on `Seq<u8>` in [`wire`]; the executable code in
//! [`message`], [`tags`], [`text`], [`space`] and [`number`] is proved against
//! them, and never panics. What holds of reading and writing together is
//! stated and proved in [`laws`]; [`written`] and [`parsed`] hold the lemmas
//! for that.

pub mod hash;
pub mod laws;
pub mod message;
pub mod number;
pub mod parsed;
pub mod space;
pub mod tags;
pub mod text;
pub mod wire;
pub mod written;

pub use crate::hash::TagsHasher;
pub use crate::message::{Message, ParseError};
pub use crate::tags::{TagValue, Tags};

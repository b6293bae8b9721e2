//! Decoder for the command-complete message of the PostgreSQL wire protocol.
//!
//! The server ends each SQL command with this message. Its body is a command
//! tag, a NUL-terminated string such as `INSERT 0 1`, `UPDATE 512`,
//! `CREATE TABLE` or `BEGIN`. The tag carries no field for the number of
//! affected rows: the number is the last of the tag's words between single
//! spaces where that word is a decimal number of at most 64 bits, and zero
//! where it is not. A decimal number is one digit or more and nothing else,
//! so a sign in front of the digits makes the word no number. No table of
//! command verbs is involved, so a tag of a shape never seen before decodes
//! by the same rule.
//!
//! Decoding fails only where no tag can be read: the buffer holds no NUL
//! byte, or the bytes in front of it are not well-formed UTF-8.
//!
//! - [`message`] holds the message and its decoder, and the general facts
//!   about decoding.
//! - [`buf`] reads a NUL-terminated string off the front of a buffer.
//! - [`tag`] holds the grammar of the tag on bytes and the code that reads it.
//! - [`text`] holds the same grammar on characters and the proof that the two
//!   agree.
//! - [`utf8`] checks bytes for well-formed UTF-8.
//! - [`error`] names the ways in which decoding fails.

pub mod buf;
pub mod error;
pub mod message;
pub mod tag;
pub mod text;
pub mod utf8;

pub use crate::error::DecodeError;
pub use crate::message::CommandComplete;

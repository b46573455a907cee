//! An in-memory key-value store behind a length-prefixed wire protocol.
//!
//! A request arrives as an array frame of bulk strings.  It is decoded into
//! a [`Command`] ([`parse`]), executed against a [`store::Database`]
//! ([`execute`]), and answered with a textual reply ([`reply`]).
//! [`connection`] puts the three together into one step of a connection:
//! from the bytes that a read returned to the reply to write, or to the
//! decision to close.  [`wire`] holds the proof that the decoder reads back
//! every request that is written by the grammar, and that replies follow
//! the same grammar.
//!
//! Every step is a function from plain values to plain values with a
//! contract over sequences and maps, so the transport that moves the bytes,
//! and the lock that lets connections share one store, are left to the
//! caller.  Entries expire by the wall clock; what depends on time is
//! stated for every time, in the functions whose names end in `_at`.

pub mod clock;
pub mod command;
pub mod connection;
pub mod execute;
pub mod glob;
pub mod parse;
pub mod reply;
pub mod store;
pub mod text;
pub mod wire;

pub use command::{Command, CommandView, DecodeError};

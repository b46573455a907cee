//! Requests, and the ways in which decoding one can fail.

use vstd::prelude::*;

verus! {

/// One decoded request.  All text is owned, so a command outlives the buffer
/// it was read from.
#[derive(Debug, PartialEq, Eq)]
pub enum Command {
    /// Asks whether the server is there.
    Ping,
    /// The message to send back.
    Echo(String),
    /// Key, value, and the time to live in milliseconds if one was given.
    SetKey(String, String, Option<u64>),
    /// The key to read.
    Get(String),
    /// The name of the configuration parameter to read.
    ConfigGet(String),
    /// The pattern that listed keys must match.
    Keys(String),
    /// A well-framed request that names no supported command, or names one
    /// with the wrong number of arguments.
    Unknown,
}

/// What a [`Command`] says, with each text as a sequence of characters.
pub enum CommandView {
    Ping,
    Echo(Seq<char>),
    SetKey(Seq<char>, Seq<char>, Option<u64>),
    Get(Seq<char>),
    ConfigGet(Seq<char>),
    Keys(Seq<char>),
    Unknown,
}

impl View for Command {
    type V = CommandView;

    open spec fn view(&self) -> CommandView {
        match self {
            Command::Ping => CommandView::Ping,
            Command::Echo(message) => CommandView::Echo(message@),
            Command::SetKey(key, value, ttl) => CommandView::SetKey(key@, value@, *ttl),
            Command::Get(key) => CommandView::Get(key@),
            Command::ConfigGet(name) => CommandView::ConfigGet(name@),
            Command::Keys(pattern) => CommandView::Keys(pattern@),
            Command::Unknown => CommandView::Unknown,
        }
    }
}

impl Clone for Command {
    fn clone(&self) -> (copy: Command)
        ensures
            copy@ == self@,
    {
        match self {
            Command::Ping => Command::Ping,
            Command::Echo(message) => Command::Echo(message.clone()),
            Command::SetKey(key, value, ttl) => Command::SetKey(key.clone(), value.clone(), *ttl),
            Command::Get(key) => Command::Get(key.clone()),
            Command::ConfigGet(name) => Command::ConfigGet(name.clone()),
            Command::Keys(pattern) => Command::Keys(pattern.clone()),
            Command::Unknown => Command::Unknown,
        }
    }
}

/// Why a buffer could not be decoded into a [`Command`].
#[derive(Debug, Clone, Copy, PartialEq, Eq)]
pub enum DecodeError {
    /// The input ends before the frame that it announces is complete.
    Truncated,
    /// A length prefix holds a byte that is not a decimal digit.
    InvalidLength,
    /// A length prefix or a payload is not closed by a carriage return and
    /// a line feed.
    MissingLineEnd,
    /// The request does not start with the array marker.
    ExpectedArray,
    /// An element of the request does not start with the bulk string marker.
    ExpectedBulkString,
    /// The time to live of a `SET` is not a decimal number of 64 bits.
    InvalidExpiry,
}

} // verus!

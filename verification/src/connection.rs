//! One step of a connection: from the bytes that a read returned to what
//! the connection does next.  The caller owns the stream and runs the loop:
//! it reads, asks here, and writes the reply or closes.

use vstd::prelude::*;
use crate::command::{CommandView, DecodeError};
use crate::execute::{execute_command_at, records_after, reply_to};
use crate::parse::{decode, parse_command, ARRAY_MARKER};
use crate::clock::clock_millis;
use crate::store::{Database, Record};

verus! {

/// What a connection does after a read.
#[derive(Debug, PartialEq, Eq)]
pub enum StreamAction {
    /// Send this reply, then read again.
    Reply(String),
    /// The peer has closed the stream: stop.
    Close,
    /// The bytes are no request: stop, and send nothing.
    Reject(DecodeError),
}

/// A [`StreamAction`] with its reply as a sequence of characters.
pub enum StreamActionView {
    Reply(Seq<char>),
    Close,
    Reject(DecodeError),
}

impl View for StreamAction {
    type V = StreamActionView;

    open spec fn view(&self) -> StreamActionView {
        match self {
            StreamAction::Reply(reply) => StreamActionView::Reply(reply@),
            StreamAction::Close => StreamActionView::Close,
            StreamAction::Reject(e) => StreamActionView::Reject(*e),
        }
    }
}

impl Clone for StreamAction {
    fn clone(&self) -> (copy: StreamAction)
        ensures
            copy@ == self@,
    {
        match self {
            StreamAction::Reply(reply) => StreamAction::Reply(reply.clone()),
            StreamAction::Close => StreamAction::Close,
            StreamAction::Reject(e) => StreamAction::Reject(*e),
        }
    }
}

/// What follows a read that returned `input` at time `now`.  A read of no
/// bytes is the end of the stream.  Anything else is decoded as one
/// request: a request is executed and answered, and bytes that are no
/// request end the connection without an answer.
pub open spec fn action_for(
    input: Seq<u8>,
    records: Map<Seq<char>, Record>,
    config: Seq<(Seq<char>, Seq<char>)>,
    now: nat,
) -> StreamActionView {
    if input.len() == 0 {
        StreamActionView::Close
    } else {
        match decode(input) {
            Ok(command) => StreamActionView::Reply(reply_to(command, records, config, now)),
            Err(e) => StreamActionView::Reject(e),
        }
    }
}

/// What the store holds after a read that returned `input` at time `now`:
/// only a request that decodes can change it.
pub open spec fn records_after_input(
    input: Seq<u8>,
    records: Map<Seq<char>, Record>,
    now: nat,
) -> Map<Seq<char>, Record> {
    if input.len() == 0 {
        records
    } else {
        match decode(input) {
            Ok(command) => records_after(command, records, now),
            Err(_) => records,
        }
    }
}

/// Handles the bytes that a read returned at time `now`.
pub fn handle_input_at(db: &mut Database, input: &[u8], now: u64) -> (action: StreamAction)
    ensures
        action@ == action_for(input@, old(db)@, old(db).config(), now as nat),
        final(db)@ == records_after_input(input@, old(db)@, now as nat),
        final(db).config() == old(db).config(),
{
    if input.len() == 0 {
        return StreamAction::Close;
    }
    match parse_command(input) {
        Ok(command) => StreamAction::Reply(execute_command_at(command, db, now)),
        Err(e) => StreamAction::Reject(e),
    }
}

/// Handles the bytes that a read returned, at the time that the clock shows.
pub fn handle_input(db: &mut Database, input: &[u8]) -> (action: StreamAction)
    ensures
        exists|now: u64|
            #![trigger action_for(input@, old(db)@, old(db).config(), now as nat)]
            action@ == action_for(input@, old(db)@, old(db).config(), now as nat) && final(db)@
                == records_after_input(input@, old(db)@, now as nat),
        final(db).config() == old(db).config(),
{
    let now = clock_millis();
    handle_input_at(db, input, now)
}

/// A reply is sent for a request that decodes, and for nothing else; and
/// where no reply is sent, the store stays as it is.
pub proof fn lemma_only_requests_are_answered(
    input: Seq<u8>,
    records: Map<Seq<char>, Record>,
    config: Seq<(Seq<char>, Seq<char>)>,
    now: nat,
)
    ensures
        action_for(input, records, config, now) is Reply <==> input.len() > 0 && decode(
            input,
        ) is Ok,
        !(action_for(input, records, config, now) is Reply) ==> records_after_input(
            input,
            records,
            now,
        ) == records,
{
}

/// Bytes that start with anything but the array marker are no request:
/// whatever the store holds and whatever the time, the connection ends
/// without a reply and the store stays as it is.
pub proof fn lemma_wrong_marker_is_rejected(
    input: Seq<u8>,
    records: Map<Seq<char>, Record>,
    config: Seq<(Seq<char>, Seq<char>)>,
    now: nat,
)
    requires
        input.len() > 0,
        input[0] != ARRAY_MARKER,
    ensures
        decode(input) == Err::<CommandView, DecodeError>(DecodeError::ExpectedArray),
        action_for(input, records, config, now) == StreamActionView::Reject(
            DecodeError::ExpectedArray,
        ),
        records_after_input(input, records, now) == records,
{
}

} // verus!

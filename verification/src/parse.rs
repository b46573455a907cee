//! The wire decoder: from the bytes of one request to a [`Command`].
//!
//! A request is an array frame whose elements are bulk strings.  An array
//! frame is `*`, a decimal count and a line end, followed by that many
//! elements.  A bulk string is `$`, a decimal length and a line end, then
//! exactly that many payload bytes and another line end.  Payloads are
//! length-prefixed, so they may hold any byte, line ends included.

use vstd::prelude::*;
use crate::command::{Command, CommandView, DecodeError};
use crate::text::{decimal_u64, decoded_text, keyword_is};
use crate::text::{decode_text, is_keyword, parse_u64};

verus! {

/// The byte that opens an array frame.
pub const ARRAY_MARKER: u8 = 0x2a;

/// The byte that opens a bulk string frame.
pub const BULK_MARKER: u8 = 0x24;

/// Carriage return, the first byte of a line end.
pub const CR: u8 = 0x0d;

/// Line feed, the second byte of a line end.
pub const LF: u8 = 0x0a;

/// Whether `byte` is an ASCII decimal digit.
pub open spec fn is_digit(byte: u8) -> bool {
    0x30 <= byte <= 0x39
}

/// The first position at or after `from` that holds no digit.
pub open spec fn digits_end(input: Seq<u8>, from: int) -> int
    decreases input.len() - from,
{
    if 0 <= from < input.len() && is_digit(input[from]) {
        digits_end(input, from + 1)
    } else {
        from
    }
}

/// A run of digits starting at `from` ends at or after `from`, within the input.
pub proof fn lemma_digits_end_bounds(input: Seq<u8>, from: int)
    requires
        0 <= from <= input.len(),
    ensures
        from <= digits_end(input, from) <= input.len(),
    decreases input.len() - from,
{
    if from < input.len() && is_digit(input[from]) {
        lemma_digits_end_bounds(input, from + 1);
    }
}

/// The number that a run of ASCII digits writes; the empty run writes zero.
pub open spec fn decimal_value(digits: Seq<u8>) -> nat
    decreases digits.len(),
{
    if digits.len() == 0 {
        0
    } else {
        decimal_value(digits.drop_last()) * 10 + (digits.last() - 0x30) as nat
    }
}

/// A length prefix at the start of `input`: the digits up to the first
/// carriage return, then the line end.  Gives the length that the digits
/// write and the position just after the line end.
pub open spec fn length_prefix(input: Seq<u8>) -> Result<(nat, int), DecodeError> {
    let end = digits_end(input, 0);
    if end >= input.len() {
        Err(DecodeError::Truncated)
    } else if input[end] != CR {
        Err(DecodeError::InvalidLength)
    } else if end + 1 >= input.len() {
        Err(DecodeError::Truncated)
    } else if input[end + 1] != LF {
        Err(DecodeError::MissingLineEnd)
    } else {
        Ok((decimal_value(input.take(end)), end + 2))
    }
}

/// Reads the length prefix at the start of `input` into `len` and returns
/// the position of the field that follows it.
///
/// A length that no `usize` can hold is more than any input contains, and is
/// reported as truncation.  On failure `len` is left as it was.
pub fn parse_length(input: &[u8], len: &mut usize) -> (r: Result<usize, DecodeError>)
    ensures
        match r {
            Ok(next) => length_prefix(input@) == Ok::<(nat, int), DecodeError>(
                (*final(len) as nat, next as int),
            ),
            Err(e) => *final(len) == *old(len) && match length_prefix(input@) {
                Ok((value, _)) => value > usize::MAX && e == DecodeError::Truncated,
                Err(expected) => e == expected,
            },
        },
{
    let mut pos: usize = 0;
    let mut value: usize = 0;
    let mut overflow = false;
    while pos < input.len() && 0x30 <= input[pos] && input[pos] <= 0x39
        invariant
            pos <= input@.len(),
            digits_end(input@, 0) == digits_end(input@, pos as int),
            !overflow ==> value == decimal_value(input@.take(pos as int)),
            overflow ==> decimal_value(input@.take(pos as int)) > usize::MAX,
        decreases input@.len() - pos,
    {
        let digit: usize = (input[pos] - 0x30) as usize;
        assert(input@.take(pos + 1).drop_last() == input@.take(pos as int));
        if !overflow {
            match value.checked_mul(10) {
                Some(tens) => match tens.checked_add(digit) {
                    Some(sum) => {
                        value = sum;
                    },
                    None => {
                        overflow = true;
                    },
                },
                None => {
                    overflow = true;
                },
            }
        }
        pos += 1;
    }
    if pos >= input.len() {
        return Err(DecodeError::Truncated);
    }
    if input[pos] != CR {
        return Err(DecodeError::InvalidLength);
    }
    if pos + 1 >= input.len() {
        return Err(DecodeError::Truncated);
    }
    if input[pos + 1] != LF {
        return Err(DecodeError::MissingLineEnd);
    }
    if overflow {
        return Err(DecodeError::Truncated);
    }
    *len = value;
    Ok(pos + 2)
}

/// A bulk string at the start of `input`: its payload, and the position
/// just after the line end that closes it.
pub open spec fn bulk_frame(input: Seq<u8>) -> Result<(Seq<u8>, int), DecodeError> {
    if input.len() == 0 {
        Err(DecodeError::Truncated)
    } else if input[0] != BULK_MARKER {
        Err(DecodeError::ExpectedBulkString)
    } else {
        match length_prefix(input.skip(1)) {
            Err(e) => Err(e),
            Ok((len, after_prefix)) => {
                let start = 1 + after_prefix;
                let end = start + len;
                if end + 2 > input.len() {
                    Err(DecodeError::Truncated)
                } else if input[end] != CR || input[end + 1] != LF {
                    Err(DecodeError::MissingLineEnd)
                } else {
                    Ok((input.subrange(start, end), end + 2))
                }
            },
        }
    }
}

/// Finds the payload of the bulk string at the start of `input`: returns
/// the positions where the payload starts and where it ends.  The frame
/// ends two bytes after the payload.
pub fn locate_bulk_string(input: &[u8]) -> (r: Result<(usize, usize), DecodeError>)
    ensures
        match r {
            Ok((start, end)) => {
                &&& start <= end
                &&& end + 2 <= input@.len() <= usize::MAX
                &&& bulk_frame(input@) == Ok::<(Seq<u8>, int), DecodeError>(
                    (input@.subrange(start as int, end as int), end + 2),
                )
            },
            Err(e) => bulk_frame(input@) == Err::<(Seq<u8>, int), DecodeError>(e),
        },
{
    if input.len() == 0 {
        return Err(DecodeError::Truncated);
    }
    if input[0] != BULK_MARKER {
        return Err(DecodeError::ExpectedBulkString);
    }
    let mut len: usize = 0;
    let rest = &input[1..input.len()];
    proof {
        lemma_digits_end_bounds(rest@, 0);
    }
    let after_prefix = match parse_length(rest, &mut len) {
        Ok(next) => next,
        Err(e) => {
            return Err(e);
        },
    };
    let start = 1 + after_prefix;
    if len > input.len() - start || input.len() - start - len < 2 {
        return Err(DecodeError::Truncated);
    }
    let end = start + len;
    if input[end] != CR || input[end + 1] != LF {
        return Err(DecodeError::MissingLineEnd);
    }
    Ok((start, end))
}

/// Reads the bulk string at the start of `input` into `result`, as text,
/// and returns the position of the field that follows it.
///
/// On failure `result` is left as it was.
pub fn parse_bulk_string(input: &[u8], result: &mut String) -> (r: Result<usize, DecodeError>)
    ensures
        match r {
            Ok(next) => {
                &&& bulk_frame(input@) matches Ok((payload, end))
                &&& end == next
                &&& final(result)@ == decoded_text(payload)
            },
            Err(e) => {
                &&& bulk_frame(input@) == Err::<(Seq<u8>, int), DecodeError>(e)
                &&& *final(result) == *old(result)
            },
        },
{
    let (start, end) = match locate_bulk_string(input) {
        Ok(bounds) => bounds,
        Err(e) => {
            return Err(e);
        },
    };
    *result = decode_text(&input[start..end]);
    Ok(end + 2)
}

/// The first `count` bulk strings that follow one another from the start
/// of `input`: their payloads, and the position just after the last one.
/// The first element that fails to decode decides the error.
pub open spec fn bulk_frames(input: Seq<u8>, count: nat) -> Result<(Seq<Seq<u8>>, int), DecodeError>
    decreases count,
{
    if count == 0 {
        Ok((Seq::empty(), 0))
    } else {
        match bulk_frames(input, (count - 1) as nat) {
            Err(e) => Err(e),
            Ok((payloads, pos)) => match bulk_frame(input.skip(pos)) {
                Err(e) => Err(e),
                Ok((payload, used)) => Ok((payloads.push(payload), pos + used)),
            },
        }
    }
}

/// The array frame at the start of `input`: the payloads of its elements.
/// A count that exceeds the number of bytes after the prefix cannot be met
/// and is reported as truncation.  Bytes after the frame are ignored.
pub open spec fn array_frame(input: Seq<u8>) -> Result<Seq<Seq<u8>>, DecodeError> {
    if input.len() == 0 {
        Err(DecodeError::Truncated)
    } else if input[0] != ARRAY_MARKER {
        Err(DecodeError::ExpectedArray)
    } else {
        match length_prefix(input.skip(1)) {
            Err(e) => Err(e),
            Ok((count, after_prefix)) => {
                let body = input.skip(1 + after_prefix);
                if count > body.len() {
                    Err(DecodeError::Truncated)
                } else {
                    match bulk_frames(body, count) {
                        Err(e) => Err(e),
                        Ok((payloads, _)) => Ok(payloads),
                    }
                }
            },
        }
    }
}

/// The texts that a sequence of payloads decodes to.
pub open spec fn texts_of(payloads: Seq<Seq<u8>>) -> Seq<Seq<char>> {
    payloads.map_values(|payload: Seq<u8>| decoded_text(payload))
}

/// Once an element has failed, asking for more elements fails the same way.
pub proof fn lemma_bulk_frames_error_stays(input: Seq<u8>, failed: nat, count: nat)
    requires
        bulk_frames(input, failed) is Err,
        failed <= count,
    ensures
        bulk_frames(input, count) == bulk_frames(input, failed),
    decreases count,
{
    if failed < count {
        lemma_bulk_frames_error_stays(input, failed, (count - 1) as nat);
    }
}

/// Decodes the array frame at the start of `input` into the texts of its
/// elements.
#[verifier::loop_isolation(false)]
pub fn parse_array(input: &[u8]) -> (r: Result<Vec<String>, DecodeError>)
    ensures
        match r {
            Ok(tokens) => {
                &&& array_frame(input@) matches Ok(payloads)
                &&& tokens.deep_view() == texts_of(payloads)
            },
            Err(e) => array_frame(input@) == Err::<Seq<Seq<u8>>, DecodeError>(e),
        },
{
    if input.len() == 0 {
        return Err(DecodeError::Truncated);
    }
    if input[0] != ARRAY_MARKER {
        return Err(DecodeError::ExpectedArray);
    }
    let mut count: usize = 0;
    let rest = &input[1..input.len()];
    proof {
        lemma_digits_end_bounds(rest@, 0);
    }
    let after_prefix = match parse_length(rest, &mut count) {
        Ok(next) => next,
        Err(e) => {
            return Err(e);
        },
    };
    let body_start = 1 + after_prefix;
    if count > input.len() - body_start {
        return Err(DecodeError::Truncated);
    }
    let ghost body = input@.skip(body_start as int);
    let ghost mut payloads: Seq<Seq<u8>> = Seq::empty();
    let mut tokens: Vec<String> = Vec::with_capacity(count);
    let mut pos: usize = body_start;
    let mut i: usize = 0;
    while i < count
        invariant
            i <= count,
            body_start <= pos <= input@.len(),
            body == input@.skip(body_start as int),
            bulk_frames(body, i as nat) == Ok::<(Seq<Seq<u8>>, int), DecodeError>(
                (payloads, pos - body_start),
            ),
            payloads.len() == i,
            tokens@.len() == i,
            tokens.deep_view() == texts_of(payloads),
        decreases count - i,
    {
        let mut token = String::new();
        let element = &input[pos..input.len()];
        assert(element@ == body.skip(pos - body_start));
        match parse_bulk_string(element, &mut token) {
            Ok(used) => {
                proof {
                    let payload = bulk_frame(element@)->Ok_0.0;
                    payloads = payloads.push(payload);
                }
                let ghost old_tokens = tokens.deep_view();
                tokens.push(token);
                assert(tokens.deep_view() == old_tokens.push(token@));
                pos += used;
            },
            Err(e) => {
                proof {
                    assert(bulk_frames(body, (i + 1) as nat) == Err::<
                        (Seq<Seq<u8>>, int),
                        DecodeError,
                    >(e));
                    lemma_bulk_frames_error_stays(body, (i + 1) as nat, count as nat);
                }
                return Err(e);
            },
        }
        i += 1;
    }
    Ok(tokens)
}

/// The command that a request names.  `tokens` are the elements of the
/// request: the command name first, then the arguments.  Names and options
/// are recognised whatever the case of their letters.
///
/// A request that names no supported command, or gives one a number of
/// arguments that it does not take, is `Unknown`.  The one failure is a
/// `SET` with the option `PX` whose time to live is not a number.
pub open spec fn command_of(tokens: Seq<Seq<char>>) -> Result<CommandView, DecodeError> {
    let args = tokens.len() - 1;
    if tokens.len() == 0 {
        Ok(CommandView::Unknown)
    } else if keyword_is(tokens[0], "ping"@) {
        if args == 0 {
            Ok(CommandView::Ping)
        } else {
            Ok(CommandView::Unknown)
        }
    } else if keyword_is(tokens[0], "echo"@) {
        if args == 1 {
            Ok(CommandView::Echo(tokens[1]))
        } else {
            Ok(CommandView::Unknown)
        }
    } else if keyword_is(tokens[0], "set"@) {
        if args == 2 {
            Ok(CommandView::SetKey(tokens[1], tokens[2], None))
        } else if args == 4 && keyword_is(tokens[3], "px"@) {
            match decimal_u64(tokens[4]) {
                Some(ttl) => Ok(CommandView::SetKey(tokens[1], tokens[2], Some(ttl))),
                None => Err(DecodeError::InvalidExpiry),
            }
        } else {
            Ok(CommandView::Unknown)
        }
    } else if keyword_is(tokens[0], "get"@) {
        if args == 1 {
            Ok(CommandView::Get(tokens[1]))
        } else {
            Ok(CommandView::Unknown)
        }
    } else if keyword_is(tokens[0], "keys"@) {
        if args == 1 {
            Ok(CommandView::Keys(tokens[1]))
        } else {
            Ok(CommandView::Unknown)
        }
    } else if keyword_is(tokens[0], "config"@) {
        if args >= 2 && keyword_is(tokens[1], "get"@) {
            Ok(CommandView::ConfigGet(tokens[2]))
        } else {
            Ok(CommandView::Unknown)
        }
    } else {
        Ok(CommandView::Unknown)
    }
}

/// A token is at most one keyword.
proof fn lemma_one_keyword(token: Seq<char>, first: Seq<char>, second: Seq<char>)
    requires
        keyword_is(token, first),
        keyword_is(token, second),
    ensures
        first == second,
{
}

/// A request is never refused for what it names or for how many arguments
/// it brings.  The one request that fails to resolve is a `SET` of four
/// arguments with the option `PX` whose last argument is no number.
pub proof fn lemma_only_a_bad_expiry_fails(tokens: Seq<Seq<char>>)
    ensures
        command_of(tokens) is Err <==> {
            &&& tokens.len() == 5
            &&& keyword_is(tokens[0], "set"@)
            &&& keyword_is(tokens[3], "px"@)
            &&& decimal_u64(tokens[4]) is None
        },
        command_of(tokens) matches Err(e) ==> e == DecodeError::InvalidExpiry,
{
    reveal_strlit("ping");
    reveal_strlit("echo");
    reveal_strlit("set");
    assert("set"@.len() != "ping"@.len() && "set"@.len() != "echo"@.len());
    if tokens.len() > 0 && keyword_is(tokens[0], "set"@) {
        if keyword_is(tokens[0], "ping"@) {
            lemma_one_keyword(tokens[0], "set"@, "ping"@);
        }
        if keyword_is(tokens[0], "echo"@) {
            lemma_one_keyword(tokens[0], "set"@, "echo"@);
        }
    }
}

/// `ECHO` takes one argument: with one it echoes that argument, and with
/// any other number of arguments it is an unsupported request, not an
/// error.
pub proof fn lemma_echo_takes_one_argument(name: Seq<char>, arguments: Seq<Seq<char>>)
    requires
        keyword_is(name, "echo"@),
    ensures
        command_of(seq![name] + arguments) == Ok::<CommandView, DecodeError>(
            if arguments.len() == 1 {
                CommandView::Echo(arguments[0])
            } else {
                CommandView::Unknown
            },
        ),
{
    reveal_strlit("ping");
    reveal_strlit("echo");
    if keyword_is(name, "ping"@) {
        lemma_one_keyword(name, "echo"@, "ping"@);
        assert("ping"@[0] != "echo"@[0]);
    }
}

/// `SET` with the option `PX` and a number stores the value with that
/// number of milliseconds to live.
pub proof fn lemma_set_with_px(
    name: Seq<char>,
    key: Seq<char>,
    value: Seq<char>,
    option: Seq<char>,
    number: Seq<char>,
)
    requires
        keyword_is(name, "set"@),
        keyword_is(option, "px"@),
        decimal_u64(number) is Some,
    ensures
        command_of(seq![name, key, value, option, number]) == Ok::<CommandView, DecodeError>(
            CommandView::SetKey(key, value, decimal_u64(number)),
        ),
{
    reveal_strlit("ping");
    reveal_strlit("echo");
    reveal_strlit("set");
    assert("set"@.len() != "ping"@.len() && "set"@.len() != "echo"@.len());
    if keyword_is(name, "ping"@) {
        lemma_one_keyword(name, "set"@, "ping"@);
    }
    if keyword_is(name, "echo"@) {
        lemma_one_keyword(name, "set"@, "echo"@);
    }
}

/// The request that the bytes of `input` encode.
pub open spec fn decode(input: Seq<u8>) -> Result<CommandView, DecodeError> {
    match array_frame(input) {
        Err(e) => Err(e),
        Ok(payloads) => command_of(texts_of(payloads)),
    }
}

/// Picks the command that `tokens` name.
pub fn resolve_command(tokens: &Vec<String>) -> (r: Result<Command, DecodeError>)
    ensures
        match r {
            Ok(command) => command_of(tokens.deep_view()) == Ok::<CommandView, DecodeError>(
                command@,
            ),
            Err(e) => command_of(tokens.deep_view()) == Err::<CommandView, DecodeError>(e),
        },
{
    let count = tokens.len();
    if count == 0 {
        return Ok(Command::Unknown);
    }
    let args = count - 1;
    let name = tokens[0].as_str();
    let command = if is_keyword(name, "ping") {
        if args == 0 {
            Command::Ping
        } else {
            Command::Unknown
        }
    } else if is_keyword(name, "echo") {
        if args == 1 {
            Command::Echo(tokens[1].clone())
        } else {
            Command::Unknown
        }
    } else if is_keyword(name, "set") {
        if args == 2 {
            Command::SetKey(tokens[1].clone(), tokens[2].clone(), None)
        } else if args == 4 && is_keyword(tokens[3].as_str(), "px") {
            match parse_u64(tokens[4].as_str()) {
                Some(ttl) => Command::SetKey(tokens[1].clone(), tokens[2].clone(), Some(ttl)),
                None => {
                    return Err(DecodeError::InvalidExpiry);
                },
            }
        } else {
            Command::Unknown
        }
    } else if is_keyword(name, "get") {
        if args == 1 {
            Command::Get(tokens[1].clone())
        } else {
            Command::Unknown
        }
    } else if is_keyword(name, "keys") {
        if args == 1 {
            Command::Keys(tokens[1].clone())
        } else {
            Command::Unknown
        }
    } else if is_keyword(name, "config") {
        if args >= 2 && is_keyword(tokens[1].as_str(), "get") {
            Command::ConfigGet(tokens[2].clone())
        } else {
            Command::Unknown
        }
    } else {
        Command::Unknown
    };
    Ok(command)
}

/// Decodes one request from `input`.
///
/// The request is the array frame at the start of `input`; its first
/// element names the command, whatever the case of its letters.  Malformed
/// framing is an error; a well-framed request that this store does not
/// support is `Command::Unknown`.
pub fn parse_command(input: &[u8]) -> (r: Result<Command, DecodeError>)
    ensures
        match r {
            Ok(command) => decode(input@) == Ok::<CommandView, DecodeError>(command@),
            Err(e) => decode(input@) == Err::<CommandView, DecodeError>(e),
        },
{
    let tokens = match parse_array(input) {
        Ok(tokens) => tokens,
        Err(e) => {
            return Err(e);
        },
    };
    resolve_command(&tokens)
}

} // verus!

//! How a request is written on the wire, and the proof that the decoder
//! reads back what was written, whatever bytes the payloads hold and
//! whatever follows the request.

use vstd::prelude::*;
use vstd::utf8::*;
use crate::command::{CommandView, DecodeError};
use crate::reply::{array_reply, bulk_replies, bulk_reply};
use crate::text::{decimal, digit_char, lemma_decoded_text_of_encoding};
use crate::parse::{array_frame, bulk_frame, bulk_frames, decimal_value, digits_end, is_digit, length_prefix};
use crate::parse::{command_of, decode, texts_of};
use crate::parse::{ARRAY_MARKER, BULK_MARKER, CR, LF};

verus! {

/// The shortest run of ASCII digits that writes `n`.
pub open spec fn decimal_bytes(n: nat) -> Seq<u8>
    decreases n,
{
    if n < 10 {
        seq![(0x30 + n) as u8]
    } else {
        decimal_bytes(n / 10).push((0x30 + n % 10) as u8)
    }
}

/// A length prefix: the digits of `n` and a line end.
pub open spec fn prefix_bytes(n: nat) -> Seq<u8> {
    decimal_bytes(n) + seq![CR, LF]
}

/// A bulk string with the given payload.
pub open spec fn bulk_bytes(payload: Seq<u8>) -> Seq<u8> {
    seq![BULK_MARKER] + prefix_bytes(payload.len()) + payload + seq![CR, LF]
}

/// The bulk strings with the given payloads, one after the other.
pub open spec fn bulks_bytes(payloads: Seq<Seq<u8>>) -> Seq<u8>
    decreases payloads.len(),
{
    if payloads.len() == 0 {
        Seq::empty()
    } else {
        bulks_bytes(payloads.drop_last()) + bulk_bytes(payloads.last())
    }
}

/// A request: the array frame whose elements have the given payloads.
pub open spec fn request_bytes(payloads: Seq<Seq<u8>>) -> Seq<u8> {
    seq![ARRAY_MARKER] + prefix_bytes(payloads.len()) + bulks_bytes(payloads)
}

proof fn lemma_decimal_bytes(n: nat)
    ensures
        decimal_bytes(n).len() > 0,
        forall|i: int| 0 <= i < decimal_bytes(n).len() ==> is_digit(#[trigger] decimal_bytes(n)[i]),
        decimal_value(decimal_bytes(n)) == n,
    decreases n,
{
    if n < 10 {
        let digits = decimal_bytes(n);
        assert(digits.drop_last() == Seq::<u8>::empty());
        assert(decimal_value(digits.drop_last()) == 0);
    } else {
        lemma_decimal_bytes(n / 10);
        let digits = decimal_bytes(n);
        assert(digits.drop_last() == decimal_bytes(n / 10));
        assert forall|i: int| 0 <= i < digits.len() implies is_digit(#[trigger] digits[i]) by {
            if i < digits.len() - 1 {
                assert(digits[i] == decimal_bytes(n / 10)[i]);
            }
        }
    }
}

proof fn lemma_digits_run(input: Seq<u8>, from: int, end: int)
    requires
        0 <= from <= end <= input.len(),
        forall|i: int| from <= i < end ==> is_digit(#[trigger] input[i]),
        end < input.len() ==> !is_digit(input[end]),
    ensures
        digits_end(input, from) == end,
    decreases end - from,
{
    if from < end {
        lemma_digits_run(input, from + 1, end);
    }
}

/// A written length is read back, and reading stops just after its line end.
pub proof fn lemma_length_prefix_reads_back(n: nat, rest: Seq<u8>)
    ensures
        length_prefix(prefix_bytes(n) + rest) == Ok::<(nat, int), DecodeError>(
            (n, prefix_bytes(n).len() as int),
        ),
{
    let digits = decimal_bytes(n);
    let input = prefix_bytes(n) + rest;
    lemma_decimal_bytes(n);
    assert forall|i: int| 0 <= i < digits.len() implies is_digit(#[trigger] input[i]) by {
        assert(input[i] == digits[i]);
    }
    assert(input[digits.len() as int] == CR);
    assert(input[digits.len() as int + 1] == LF);
    lemma_digits_run(input, 0, digits.len() as int);
    assert(input.take(digits.len() as int) == digits);
}

/// A written bulk string is read back with the payload that was written,
/// and reading stops just after it.
pub proof fn lemma_bulk_frame_reads_back(payload: Seq<u8>, rest: Seq<u8>)
    ensures
        bulk_frame(bulk_bytes(payload) + rest) == Ok::<(Seq<u8>, int), DecodeError>(
            (payload, bulk_bytes(payload).len() as int),
        ),
{
    let input = bulk_bytes(payload) + rest;
    let prefix = prefix_bytes(payload.len());
    let after = payload + seq![CR, LF] + rest;
    assert(input.skip(1) == prefix + after);
    lemma_length_prefix_reads_back(payload.len(), after);
    let start = 1 + prefix.len() as int;
    let end = start + payload.len() as int;
    assert(input[0] == BULK_MARKER);
    assert(input[end] == CR);
    assert(input[end + 1] == LF);
    assert(input.subrange(start, end) == payload);
}

proof fn lemma_bulks_bytes_split(payloads: Seq<Seq<u8>>, count: int)
    requires
        0 <= count <= payloads.len(),
    ensures
        bulks_bytes(payloads) == bulks_bytes(payloads.take(count)) + bulks_bytes(
            payloads.skip(count),
        ),
    decreases payloads.len() - count,
{
    if count == payloads.len() {
        assert(payloads.take(count) == payloads);
        assert(payloads.skip(count) == Seq::<Seq<u8>>::empty());
        assert(bulks_bytes(payloads) == bulks_bytes(payloads) + Seq::<u8>::empty());
    } else {
        let tail = payloads.skip(count);
        lemma_bulks_bytes_split(payloads, count + 1);
        lemma_bulks_bytes_first(tail);
        assert(tail.drop_first() == payloads.skip(count + 1));
        assert(payloads.take(count + 1).drop_last() == payloads.take(count));
        assert(payloads.take(count + 1).last() == payloads[count]);
        assert(bulks_bytes(payloads) == bulks_bytes(payloads.take(count)) + (bulk_bytes(
            payloads[count],
        ) + bulks_bytes(payloads.skip(count + 1))));
    }
}

proof fn lemma_bulks_bytes_first(payloads: Seq<Seq<u8>>)
    requires
        payloads.len() > 0,
    ensures
        bulks_bytes(payloads) == bulk_bytes(payloads[0]) + bulks_bytes(payloads.drop_first()),
    decreases payloads.len(),
{
    if payloads.len() == 1 {
        assert(payloads.drop_last() == Seq::<Seq<u8>>::empty());
        assert(payloads.drop_first() == Seq::<Seq<u8>>::empty());
        assert(bulks_bytes(payloads.drop_last()) == Seq::<u8>::empty());
        assert(payloads.last() == payloads[0]);
        assert(Seq::<u8>::empty() + bulk_bytes(payloads[0]) == bulk_bytes(payloads[0])
            + Seq::<u8>::empty());
    } else {
        lemma_bulks_bytes_first(payloads.drop_last());
        assert(payloads.drop_last().drop_first() == payloads.drop_first().drop_last());
        assert(payloads.drop_last()[0] == payloads[0]);
        assert(payloads.drop_first().last() == payloads.last());
        assert(bulks_bytes(payloads) == bulk_bytes(payloads[0]) + (bulks_bytes(
            payloads.drop_first().drop_last(),
        ) + bulk_bytes(payloads.last())));
    }
}

/// The first `count` of a run of written bulk strings are read back with
/// the payloads that were written.
pub proof fn lemma_bulk_frames_read_back(payloads: Seq<Seq<u8>>, rest: Seq<u8>, count: nat)
    requires
        count <= payloads.len(),
    ensures
        bulk_frames(bulks_bytes(payloads) + rest, count) == Ok::<(Seq<Seq<u8>>, int), DecodeError>(
            (payloads.take(count as int), bulks_bytes(payloads.take(count as int)).len() as int),
        ),
    decreases count,
{
    let input = bulks_bytes(payloads) + rest;
    if count == 0 {
        assert(payloads.take(0) == Seq::<Seq<u8>>::empty());
    } else {
        let before = (count - 1) as nat;
        lemma_bulk_frames_read_back(payloads, rest, before);
        let read = payloads.take(before as int);
        let pos = bulks_bytes(read).len() as int;
        let tail = payloads.skip(before as int);
        lemma_bulks_bytes_split(payloads, before as int);
        lemma_bulks_bytes_first(tail);
        let following = bulks_bytes(tail.drop_first()) + rest;
        assert(input.skip(pos) == bulk_bytes(payloads[before as int]) + following);
        lemma_bulk_frame_reads_back(payloads[before as int], following);
        assert(payloads.take(count as int) == read.push(payloads[before as int]));
        assert(payloads.take(count as int).drop_last() == read);
    }
}

proof fn lemma_bulks_bytes_len(payloads: Seq<Seq<u8>>)
    ensures
        bulks_bytes(payloads).len() >= payloads.len(),
    decreases payloads.len(),
{
    if payloads.len() > 0 {
        lemma_bulks_bytes_len(payloads.drop_last());
    }
}

/// A written request is read back as the payloads that were written: any
/// byte may stand in a payload, and what follows the request is not read.
pub proof fn lemma_request_reads_back(payloads: Seq<Seq<u8>>, rest: Seq<u8>)
    ensures
        array_frame(request_bytes(payloads) + rest) == Ok::<Seq<Seq<u8>>, DecodeError>(payloads),
{
    let input = request_bytes(payloads) + rest;
    let prefix = prefix_bytes(payloads.len());
    let body = bulks_bytes(payloads) + rest;
    assert(input[0] == ARRAY_MARKER);
    assert(input.skip(1) == prefix + body);
    lemma_length_prefix_reads_back(payloads.len(), body);
    assert(input.skip(1 + prefix.len() as int) == body);
    lemma_bulks_bytes_len(payloads);
    lemma_bulk_frames_read_back(payloads, rest, payloads.len());
    assert(payloads.take(payloads.len() as int) == payloads);
}

/// The encodings of `texts`, text by text.
pub open spec fn encodings_of(texts: Seq<Seq<char>>) -> Seq<Seq<u8>> {
    texts.map_values(|text: Seq<char>| encode_utf8(text))
}

proof fn lemma_encoding_of_joined(a: Seq<char>, b: Seq<char>)
    ensures
        encode_utf8(a + b) == encode_utf8(a) + encode_utf8(b),
    decreases a.len(),
{
    if a.len() == 0 {
        assert(a + b == b);
        assert(encode_utf8(a) + encode_utf8(b) == encode_utf8(b));
    } else {
        lemma_encoding_of_joined(a.drop_first(), b);
        assert((a + b).drop_first() == a.drop_first() + b);
        assert(encode_utf8(a + b) == encode_scalar(a[0] as u32) + (encode_utf8(a.drop_first())
            + encode_utf8(b)));
    }
}

proof fn lemma_encoding_of_ascii(c: char)
    requires
        c as u32 <= 0x7f,
    ensures
        encode_utf8(seq![c]) == seq![c as u8],
{
    let text = seq![c];
    assert(is_ascii_chars(text));
    is_ascii_chars_encode_utf8(text);
    assert(encode_utf8(text)[0] == text[0] as u8);
    assert(encode_utf8(text) == seq![c as u8]);
}

proof fn lemma_encoding_of_decimal(n: nat)
    ensures
        encode_utf8(decimal(n)) == decimal_bytes(n),
    decreases n,
{
    if n < 10 {
        lemma_encoding_of_ascii(digit_char(n));
    } else {
        lemma_encoding_of_decimal(n / 10);
        lemma_encoding_of_ascii(digit_char(n % 10));
        assert(decimal(n) == decimal(n / 10) + seq![digit_char(n % 10)]);
        lemma_encoding_of_joined(decimal(n / 10), seq![digit_char(n % 10)]);
        assert(decimal_bytes(n) == decimal_bytes(n / 10) + seq![(0x30 + n % 10) as u8]);
    }
}

proof fn lemma_encoding_of_marks()
    ensures
        encode_utf8("$"@) == seq![BULK_MARKER],
        encode_utf8("*"@) == seq![ARRAY_MARKER],
        encode_utf8("\r\n"@) == seq![CR, LF],
{
    reveal_strlit("$");
    reveal_strlit("*");
    reveal_strlit("\r\n");
    lemma_encoding_of_ascii('$');
    lemma_encoding_of_ascii('*');
    lemma_encoding_of_ascii('\r');
    lemma_encoding_of_ascii('\n');
    assert("$"@ == seq!['$']);
    assert("*"@ == seq!['*']);
    assert("\r\n"@ == seq!['\r'] + seq!['\n']);
    lemma_encoding_of_joined(seq!['\r'], seq!['\n']);
    assert(seq![CR] + seq![LF] == seq![CR, LF]);
}

/// A request that is written from texts decodes to the command that those
/// texts name, whatever characters the texts hold and whatever follows the
/// request.
pub proof fn lemma_written_request_decodes(tokens: Seq<Seq<char>>, rest: Seq<u8>)
    ensures
        decode(request_bytes(encodings_of(tokens)) + rest) == command_of(tokens),
{
    lemma_request_reads_back(encodings_of(tokens), rest);
    assert(texts_of(encodings_of(tokens)) == tokens) by {
        assert forall|i: int| 0 <= i < tokens.len() implies texts_of(encodings_of(tokens))[i]
            == tokens[i] by {
            lemma_decoded_text_of_encoding(tokens[i]);
        }
    }
}

/// A bulk string in a reply is, byte for byte, the bulk string of the
/// request grammar whose payload is the encoded text.
pub proof fn lemma_bulk_reply_is_a_bulk_string(text: Seq<char>)
    ensures
        encode_utf8(bulk_reply(text)) == bulk_bytes(encode_utf8(text)),
{
    let payload = encode_utf8(text);
    let numeral = decimal(payload.len());
    lemma_encoding_of_marks();
    lemma_encoding_of_decimal(payload.len());
    lemma_encoding_of_joined("$"@, numeral);
    lemma_encoding_of_joined("$"@ + numeral, "\r\n"@);
    lemma_encoding_of_joined("$"@ + numeral + "\r\n"@, text);
    lemma_encoding_of_joined("$"@ + numeral + "\r\n"@ + text, "\r\n"@);
    assert(bulk_bytes(payload) == seq![BULK_MARKER] + decimal_bytes(payload.len()) + seq![CR, LF]
        + payload + seq![CR, LF]);
}

proof fn lemma_bulk_replies_are_bulk_strings(texts: Seq<Seq<char>>)
    ensures
        encode_utf8(bulk_replies(texts)) == bulks_bytes(encodings_of(texts)),
    decreases texts.len(),
{
    if texts.len() > 0 {
        lemma_bulk_replies_are_bulk_strings(texts.drop_last());
        lemma_bulk_reply_is_a_bulk_string(texts.last());
        lemma_encoding_of_joined(bulk_replies(texts.drop_last()), bulk_reply(texts.last()));
        assert(encodings_of(texts).drop_last() == encodings_of(texts.drop_last()));
    }
}

/// An array in a reply is, byte for byte, a frame of the request grammar:
/// who reads it by that grammar reads the encoded texts back, each byte of
/// them, whatever follows the reply.
pub proof fn lemma_array_reply_is_an_array_frame(texts: Seq<Seq<char>>, rest: Seq<u8>)
    ensures
        encode_utf8(array_reply(texts)) == request_bytes(encodings_of(texts)),
        array_frame(encode_utf8(array_reply(texts)) + rest) == Ok::<Seq<Seq<u8>>, DecodeError>(
            encodings_of(texts),
        ),
{
    let numeral = decimal(texts.len());
    lemma_encoding_of_marks();
    lemma_encoding_of_decimal(texts.len());
    lemma_bulk_replies_are_bulk_strings(texts);
    lemma_encoding_of_joined("*"@, numeral);
    lemma_encoding_of_joined("*"@ + numeral, "\r\n"@);
    lemma_encoding_of_joined("*"@ + numeral + "\r\n"@, bulk_replies(texts));
    assert(request_bytes(encodings_of(texts)) == seq![ARRAY_MARKER] + decimal_bytes(texts.len())
        + seq![CR, LF] + bulks_bytes(encodings_of(texts)));
    lemma_request_reads_back(encodings_of(texts), rest);
}

} // verus!

//! The replies, as the text that goes back over the wire.  Every reply ends
//! with a line end.

use vstd::prelude::*;
use vstd::utf8::*;
use crate::text::{decimal, push_decimal};

verus! {

/// A one-line reply that carries `text`.
pub open spec fn simple_reply(text: Seq<char>) -> Seq<char> {
    "+"@ + text + "\r\n"@
}

/// A bulk string: the number of bytes that `text` takes, then `text`.
pub open spec fn bulk_reply(text: Seq<char>) -> Seq<char> {
    "$"@ + decimal(encode_utf8(text).len()) + "\r\n"@ + text + "\r\n"@
}

/// The bulk strings for `texts`, one after the other.
pub open spec fn bulk_replies(texts: Seq<Seq<char>>) -> Seq<char>
    decreases texts.len(),
{
    if texts.len() == 0 {
        Seq::empty()
    } else {
        bulk_replies(texts.drop_last()) + bulk_reply(texts.last())
    }
}

/// An array: the number of elements, then each of `texts` as a bulk string.
pub open spec fn array_reply(texts: Seq<Seq<char>>) -> Seq<char> {
    "*"@ + decimal(texts.len()) + "\r\n"@ + bulk_replies(texts)
}

/// The reply to a read that found nothing.
pub open spec fn null_reply() -> Seq<char> {
    "$-1\r\n"@
}

/// The reply to a request that the store does not support.
pub open spec fn unknown_reply() -> Seq<char> {
    "-ERR unknown command\r\n"@
}

/// Writes the one-line reply that carries `text`.
pub fn encode_simple(text: &str) -> (reply: String)
    ensures
        reply@ == simple_reply(text@),
{
    let mut reply = "+".to_owned();
    reply.append(text);
    reply.append("\r\n");
    reply
}

/// Appends `text` to `out` as a bulk string.
pub fn push_bulk(out: &mut String, text: &str)
    ensures
        final(out)@ == old(out)@ + bulk_reply(text@),
{
    out.append("$");
    push_decimal(out, text.as_bytes().len());
    out.append("\r\n");
    out.append(text);
    out.append("\r\n");
}

/// Writes `texts` as an array of bulk strings.
pub fn encode_array(texts: &Vec<String>) -> (reply: String)
    ensures
        reply@ == array_reply(texts.deep_view()),
{
    let ghost all = texts.deep_view();
    let mut reply = "*".to_owned();
    push_decimal(&mut reply, texts.len());
    reply.append("\r\n");
    let ghost head = reply@;
    let mut i: usize = 0;
    while i < texts.len()
        invariant
            i <= texts@.len(),
            all == texts.deep_view(),
            head == "*"@ + decimal(all.len()) + "\r\n"@,
            reply@ == head + bulk_replies(all.take(i as int)),
        decreases texts@.len() - i,
    {
        push_bulk(&mut reply, texts[i].as_str());
        proof {
            assert(all.take(i + 1).drop_last() == all.take(i as int));
        }
        i += 1;
    }
    assert(all.take(i as int) == all);
    reply
}

} // verus!

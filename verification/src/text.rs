//! Text helpers shared by the decoder, the store and the reply encoder:
//! comparing and ordering texts, decimal numerals, decoding bytes into
//! text, and recognising keywords whatever their case.
//!
//! Two steps are left to the standard library and are not proved here:
//! replacing what is not UTF-8 in a byte string, and lowercasing a text
//! that holds other characters than ASCII.  What they return is given a
//! name, and the functions that call them say exactly how they use it.

use vstd::prelude::*;
use vstd::utf8::*;

verus! {

/// Collects the characters of `s` in order.
pub fn chars_of(s: &str) -> (out: Vec<char>)
    ensures
        out@ == s@,
{
    let mut out: Vec<char> = Vec::new();
    for c in it: s.chars()
        invariant
            out@ == it.seq().take(it.index() as int),
            it.seq() == s@,
    {
        out.push(c);
    }
    out
}

/// Two texts are equal exactly when their encodings are.
pub proof fn lemma_encoding_is_injective(a: Seq<char>, b: Seq<char>)
    requires
        encode_utf8(a) == encode_utf8(b),
    ensures
        a == b,
{
    encode_utf8_decode_utf8(a);
    encode_utf8_decode_utf8(b);
}

/// Whether `a` and `b` hold the same text.
pub fn same_text(a: &str, b: &str) -> (same: bool)
    ensures
        same == (a@ == b@),
{
    let x = a.as_bytes();
    let y = b.as_bytes();
    if x.len() != y.len() {
        return false;
    }
    let mut i: usize = 0;
    while i < x.len()
        invariant
            i <= x@.len(),
            x@.len() == y@.len(),
            x@ == encode_utf8(a@),
            y@ == encode_utf8(b@),
            x@.take(i as int) == y@.take(i as int),
        decreases x@.len() - i,
    {
        if x[i] != y[i] {
            return false;
        }
        assert(x@.take(i + 1) == x@.take(i as int).push(x@[i as int]));
        assert(y@.take(i + 1) == y@.take(i as int).push(y@[i as int]));
        i += 1;
    }
    proof {
        assert(x@ == x@.take(i as int));
        assert(y@ == y@.take(i as int));
        lemma_encoding_is_injective(a@, b@);
    }
    true
}

/// Lexicographic order on byte strings: the first differing byte decides,
/// and a proper prefix comes first.
pub open spec fn bytes_leq(a: Seq<u8>, b: Seq<u8>) -> bool
    decreases a.len(),
{
    if a.len() == 0 {
        true
    } else if b.len() == 0 {
        false
    } else if a[0] != b[0] {
        a[0] < b[0]
    } else {
        bytes_leq(a.drop_first(), b.drop_first())
    }
}

/// The order in which texts are listed: lexicographic by encoded bytes.
pub open spec fn text_leq(a: Seq<char>, b: Seq<char>) -> bool {
    bytes_leq(encode_utf8(a), encode_utf8(b))
}

/// Every byte string is at or before itself.
pub proof fn lemma_bytes_leq_reflexive(a: Seq<u8>)
    ensures
        bytes_leq(a, a),
    decreases a.len(),
{
    if a.len() > 0 {
        lemma_bytes_leq_reflexive(a.drop_first());
    }
}

/// Two byte strings that are each at or before the other are equal.
pub proof fn lemma_bytes_leq_antisymmetric(a: Seq<u8>, b: Seq<u8>)
    requires
        bytes_leq(a, b),
        bytes_leq(b, a),
    ensures
        a == b,
    decreases a.len(),
{
    if a.len() > 0 && b.len() > 0 {
        lemma_bytes_leq_antisymmetric(a.drop_first(), b.drop_first());
        assert(a == seq![a[0]] + a.drop_first());
        assert(b == seq![b[0]] + b.drop_first());
    } else {
        assert(a == b);
    }
}

/// The order on byte strings is transitive.
pub proof fn lemma_bytes_leq_transitive(a: Seq<u8>, b: Seq<u8>, c: Seq<u8>)
    requires
        bytes_leq(a, b),
        bytes_leq(b, c),
    ensures
        bytes_leq(a, c),
    decreases a.len(),
{
    if a.len() > 0 && b.len() > 0 && c.len() > 0 && a[0] == b[0] && b[0] == c[0] {
        lemma_bytes_leq_transitive(a.drop_first(), b.drop_first(), c.drop_first());
    }
}

/// Of two byte strings, one is at or before the other.
pub proof fn lemma_bytes_leq_connected(a: Seq<u8>, b: Seq<u8>)
    ensures
        bytes_leq(a, b) || bytes_leq(b, a),
    decreases a.len(),
{
    if a.len() > 0 && b.len() > 0 && a[0] == b[0] {
        lemma_bytes_leq_connected(a.drop_first(), b.drop_first());
    }
}

/// `text_leq` is a total order on texts.
pub proof fn lemma_text_leq_is_total_order()
    ensures
        vstd::relations::total_ordering(text_order()),
{
    let leq = text_order();
    assert forall|a: Seq<char>| #[trigger] leq(a, a) by {
        lemma_bytes_leq_reflexive(encode_utf8(a));
    }
    assert forall|a: Seq<char>, b: Seq<char>| #[trigger] leq(a, b) && #[trigger] leq(b, a) implies a
        == b by {
        lemma_bytes_leq_antisymmetric(encode_utf8(a), encode_utf8(b));
        lemma_encoding_is_injective(a, b);
    }
    assert forall|a: Seq<char>, b: Seq<char>, c: Seq<char>| #[trigger]
        leq(a, b) && #[trigger] leq(b, c) implies leq(a, c) by {
        lemma_bytes_leq_transitive(encode_utf8(a), encode_utf8(b), encode_utf8(c));
    }
    assert forall|a: Seq<char>, b: Seq<char>| #[trigger] leq(a, b) || #[trigger] leq(b, a) by {
        lemma_bytes_leq_connected(encode_utf8(a), encode_utf8(b));
    }
}

/// Whether `a` comes before `b`, or is equal to it, in the listing order.
pub fn text_le(a: &str, b: &str) -> (le: bool)
    ensures
        le == text_leq(a@, b@),
{
    let x = a.as_bytes();
    let y = b.as_bytes();
    let mut i: usize = 0;
    proof {
        assert(x@.skip(0) == x@);
        assert(y@.skip(0) == y@);
    }
    while i < x.len() && i < y.len()
        invariant
            i <= x@.len(),
            i <= y@.len(),
            x@ == encode_utf8(a@),
            y@ == encode_utf8(b@),
            bytes_leq(x@, y@) == bytes_leq(x@.skip(i as int), y@.skip(i as int)),
        decreases x@.len() - i,
    {
        proof {
            assert(x@.skip(i as int).drop_first() == x@.skip(i + 1));
            assert(y@.skip(i as int).drop_first() == y@.skip(i + 1));
        }
        if x[i] != y[i] {
            return x[i] < y[i];
        }
        i += 1;
    }
    i == x.len()
}

/// `text_leq` as a relation, for the sequence operations that take one.
pub open spec fn text_order() -> spec_fn(Seq<char>, Seq<char>) -> bool {
    |a: Seq<char>, b: Seq<char>| text_leq(a, b)
}

/// Sorts texts into the listing order.
pub fn sort_texts(texts: Vec<String>) -> (sorted: Vec<String>)
    ensures
        sorted.deep_view() == texts.deep_view().sort_by(text_order()),
{
    let ghost given = texts.deep_view();
    let mut sorted: Vec<String> = Vec::new();
    let mut i: usize = 0;
    proof {
        lemma_text_leq_is_total_order();
        assert(given.take(0) == Seq::<Seq<char>>::empty());
        assert(sorted.deep_view() == Seq::<Seq<char>>::empty());
    }
    while i < texts.len()
        invariant
            i <= texts@.len(),
            given == texts.deep_view(),
            vstd::relations::total_ordering(text_order()),
            vstd::relations::sorted_by(sorted.deep_view(), text_order()),
            sorted.deep_view().to_multiset() == given.take(i as int).to_multiset(),
        decreases texts@.len() - i,
    {
        let ghost text = given[i as int];
        let ghost placed = sorted.deep_view();
        let mut at: usize = 0;
        while at < sorted.len() && text_le(sorted[at].as_str(), texts[i].as_str())
            invariant
                at <= sorted@.len(),
                i < texts@.len(),
                given == texts.deep_view(),
                text == given[i as int],
                placed == sorted.deep_view(),
                forall|k: int| 0 <= k < at ==> text_leq(#[trigger] placed[k], text),
            decreases sorted@.len() - at,
        {
            at += 1;
        }
        sorted.insert(at, texts[i].clone());
        proof {
            let grown = sorted.deep_view();
            assert(grown == placed.insert(at as int, text));
            vstd::seq_lib::to_multiset_insert(placed, at as int, text);
            assert(given.take(i + 1) == given.take(i as int).push(text));
            vstd::seq_lib::to_multiset_build(given.take(i as int), text);
            let leq = text_order();
            assert forall|a: int, b: int| 0 <= a < b < grown.len() implies #[trigger] leq(
                grown[a],
                grown[b],
            ) by {
                if b == at {
                    assert(text_leq(placed[a], text));
                } else if a == at {
                    assert(!text_leq(placed[at as int], text));
                    assert(leq(placed[at as int], text) || leq(text, placed[at as int]));
                    if b - 1 > at {
                        assert(leq(placed[at as int], placed[b - 1]));
                        assert(leq(text, placed[at as int]) && leq(placed[at as int], placed[b - 1]));
                    }
                } else {
                    let a0 = if a < at { a } else { a - 1 };
                    let b0 = if b < at { b } else { b - 1 };
                    assert(leq(placed[a0], placed[b0]));
                }
            }
        }
        i += 1;
    }
    proof {
        assert(given.take(i as int) == given);
        given.lemma_sort_by_ensures(text_order());
        vstd::seq_lib::lemma_sorted_unique(
            sorted.deep_view(),
            given.sort_by(text_order()),
            text_order(),
        );
    }
    sorted
}

/// The character that writes the decimal digit `d`.
pub open spec fn digit_char(d: nat) -> char
    recommends
        d < 10,
{
    ((0x30 + d) as u8) as char
}

/// The shortest decimal numeral for `n`.
pub open spec fn decimal(n: nat) -> Seq<char>
    decreases n,
{
    if n < 10 {
        seq![digit_char(n)]
    } else {
        decimal(n / 10).push(digit_char(n % 10))
    }
}

/// The text of one decimal digit.
fn digit_text(d: usize) -> (s: &'static str)
    requires
        d < 10,
    ensures
        s@ == seq![digit_char(d as nat)],
{
    proof {
        reveal_strlit("0");
        reveal_strlit("1");
        reveal_strlit("2");
        reveal_strlit("3");
        reveal_strlit("4");
        reveal_strlit("5");
        reveal_strlit("6");
        reveal_strlit("7");
        reveal_strlit("8");
        reveal_strlit("9");
    }
    let s = if d == 0 {
        "0"
    } else if d == 1 {
        "1"
    } else if d == 2 {
        "2"
    } else if d == 3 {
        "3"
    } else if d == 4 {
        "4"
    } else if d == 5 {
        "5"
    } else if d == 6 {
        "6"
    } else if d == 7 {
        "7"
    } else if d == 8 {
        "8"
    } else {
        "9"
    };
    assert(s@ =~= seq![digit_char(d as nat)]);
    s
}

/// Appends the decimal numeral for `n` to `out`.
pub fn push_decimal(out: &mut String, n: usize)
    ensures
        final(out)@ == old(out)@ + decimal(n as nat),
    decreases n,
{
    if n >= 10 {
        push_decimal(out, n / 10);
    }
    out.append(digit_text(n % 10));
    assert(old(out)@ + decimal(n as nat) =~= out@);
}

/// Whether `c` is one of the ten decimal digits.
pub open spec fn is_digit_char(c: char) -> bool {
    0x30 <= c as u32 <= 0x39
}

/// The number that a run of decimal digits writes.
pub open spec fn digits_value(digits: Seq<char>) -> nat
    decreases digits.len(),
{
    if digits.len() == 0 {
        0
    } else {
        digits_value(digits.drop_last()) * 10 + (digits.last() as u32 - 0x30) as nat
    }
}

/// Whether every character of `digits` is a decimal digit.
pub open spec fn all_digits(digits: Seq<char>) -> bool {
    forall|i: int| 0 <= i < digits.len() ==> is_digit_char(#[trigger] digits[i])
}

/// The text without one leading plus sign.
pub open spec fn unsigned_part(text: Seq<char>) -> Seq<char> {
    if text.len() > 0 && text[0] == '+' {
        text.drop_first()
    } else {
        text
    }
}

/// The number that `text` writes in decimal: an optional plus sign, then
/// one or more digits and nothing else, with a value that fits 64 bits.
pub open spec fn decimal_u64(text: Seq<char>) -> Option<u64> {
    let digits = unsigned_part(text);
    if digits.len() > 0 && all_digits(digits) && digits_value(digits) <= u64::MAX {
        Some(digits_value(digits) as u64)
    } else {
        None
    }
}

/// The numeral for `n` is made of digits, and writes `n`.
pub proof fn lemma_decimal_writes_its_number(n: nat)
    ensures
        decimal(n).len() > 0,
        all_digits(decimal(n)),
        digits_value(decimal(n)) == n,
    decreases n,
{
    if n < 10 {
        let numeral = seq![digit_char(n)];
        assert(numeral.drop_last() == Seq::<char>::empty());
        assert(digits_value(numeral.drop_last()) == 0);
    } else {
        lemma_decimal_writes_its_number(n / 10);
        let numeral = decimal(n / 10).push(digit_char(n % 10));
        assert(numeral.drop_last() == decimal(n / 10));
        assert forall|i: int| 0 <= i < numeral.len() implies is_digit_char(
            #[trigger] numeral[i],
        ) by {
            if i < numeral.len() - 1 {
                assert(numeral[i] == decimal(n / 10)[i]);
            }
        }
    }
}

/// Reading the numeral for a number of 64 bits gives the number back.
pub proof fn lemma_decimal_reads_back(n: u64)
    ensures
        decimal_u64(decimal(n as nat)) == Some(n),
{
    lemma_decimal_writes_its_number(n as nat);
    let numeral = decimal(n as nat);
    assert(numeral[0] != '+') by {
        assert(is_digit_char(numeral[0]));
    }
}

/// A run of digits writes at least what any of its prefixes writes.
proof fn lemma_digits_value_grows(digits: Seq<char>, k: int)
    requires
        0 <= k <= digits.len(),
        all_digits(digits),
    ensures
        digits_value(digits.take(k)) <= digits_value(digits),
    decreases digits.len() - k,
{
    if k < digits.len() {
        lemma_digits_value_grows(digits, k + 1);
        assert(digits.take(k + 1).drop_last() == digits.take(k));
        assert(is_digit_char(digits[k]));
    } else {
        assert(digits.take(k) == digits);
    }
}

/// Reads `text` as a decimal number of at most 64 bits.
pub fn parse_u64(text: &str) -> (parsed: Option<u64>)
    ensures
        parsed == decimal_u64(text@),
{
    let chars = chars_of(text);
    let start: usize = if chars.len() > 0 && chars[0] == '+' {
        1
    } else {
        0
    };
    let ghost digits = unsigned_part(text@);
    assert(digits == chars@.skip(start as int));
    if start == chars.len() {
        return None;
    }
    let mut value: u64 = 0;
    let mut i: usize = start;
    assert(digits.take(0) == Seq::<char>::empty());
    while i < chars.len()
        invariant
            start <= i <= chars@.len(),
            digits == chars@.skip(start as int),
            digits == unsigned_part(text@),
            digits.len() > 0,
            all_digits(digits.take(i - start)),
            value == digits_value(digits.take(i - start)),
        decreases chars@.len() - i,
    {
        let c = chars[i];
        assert(c == digits[i - start]);
        let code: u32 = c as u32;
        if !(0x30 <= code && code <= 0x39) {
            assert(!is_digit_char(digits[i - start]));
            return None;
        }
        let d: u64 = (code - 0x30) as u64;
        proof {
            assert(digits.take(i + 1 - start).drop_last() == digits.take(i - start));
            assert(all_digits(digits.take(i + 1 - start))) by {
                assert forall|j: int| 0 <= j < i + 1 - start implies is_digit_char(
                    #[trigger] digits.take(i + 1 - start)[j],
                ) by {
                    if j < i - start {
                        assert(digits.take(i - start)[j] == digits[j]);
                    }
                }
            }
            if all_digits(digits) {
                lemma_digits_value_grows(digits, i + 1 - start);
            }
        }
        let tens = match value.checked_mul(10) {
            Some(tens) => tens,
            None => {
                return None;
            },
        };
        value = match tens.checked_add(d) {
            Some(sum) => sum,
            None => {
                return None;
            },
        };
        i += 1;
    }
    assert(digits.take(i - start) == digits);
    Some(value)
}

/// The text that `String::from_utf8_lossy` makes of a byte string: the
/// bytes read as UTF-8, with each malformed stretch replaced by U+FFFD.
pub uninterp spec fn lossy_text(bytes: Seq<u8>) -> Seq<char>;

/// Calls `String::from_utf8_lossy` and takes ownership of what it returns.
///
/// Trusted: the result is `lossy_text` of the bytes, and well-formed UTF-8
/// is decoded as it stands.
#[verifier::external_body]
fn text_from_bytes(bytes: &[u8]) -> (text: String)
    ensures
        text@ == lossy_text(bytes@),
        valid_utf8(bytes@) ==> text@ == decode_utf8(bytes@),
{
    String::from_utf8_lossy(bytes).into_owned()
}

/// The text that bytes stand for: what they encode, where they are
/// well-formed UTF-8, and else what lossy decoding makes of them.
pub open spec fn decoded_text(bytes: Seq<u8>) -> Seq<char> {
    if valid_utf8(bytes) {
        decode_utf8(bytes)
    } else {
        lossy_text(bytes)
    }
}

/// Decodes `bytes` into text.  No byte string is refused: what is not
/// UTF-8 is replaced.
pub fn decode_text(bytes: &[u8]) -> (text: String)
    ensures
        text@ == decoded_text(bytes@),
{
    text_from_bytes(bytes)
}

/// What was encoded is decoded as it was.
pub proof fn lemma_decoded_text_of_encoding(text: Seq<char>)
    ensures
        decoded_text(encode_utf8(text)) == text,
{
    encode_utf8_valid_utf8(text);
    encode_utf8_decode_utf8(text);
}

/// The lowercase form that `str::to_lowercase` gives a text.
pub uninterp spec fn lowercase_of(text: Seq<char>) -> Seq<char>;

/// Calls `str::to_lowercase`.
///
/// Trusted: the result is `lowercase_of` of the text.
#[verifier::external_body]
fn lowercase(text: &str) -> (lowered: String)
    ensures
        lowered@ == lowercase_of(text@),
{
    text.to_lowercase()
}

/// The lowercase of an ASCII capital letter, and every other character as
/// it is.
pub open spec fn ascii_lower_char(c: char) -> char {
    if 0x41 <= c as u32 <= 0x5a {
        ((c as u32 + 0x20) as u8) as char
    } else {
        c
    }
}

/// The text with its ASCII capital letters in lowercase.
pub open spec fn ascii_lower(text: Seq<char>) -> Seq<char> {
    text.map_values(|c: char| ascii_lower_char(c))
}

/// Whether `token` is the keyword `word`, whatever the case of its
/// letters.  In an ASCII token the capital letters are folded here; a token
/// with other characters is lowercased by the standard library.
pub open spec fn keyword_is(token: Seq<char>, word: Seq<char>) -> bool {
    if is_ascii_chars(token) {
        ascii_lower(token) == word
    } else {
        lowercase_of(token) == word
    }
}

/// ASCII tokens that differ only in the case of their letters are the same
/// keyword.
pub proof fn lemma_ascii_case_is_ignored(a: Seq<char>, b: Seq<char>, word: Seq<char>)
    requires
        is_ascii_chars(a),
        is_ascii_chars(b),
        ascii_lower(a) == ascii_lower(b),
    ensures
        keyword_is(a, word) == keyword_is(b, word),
{
}

/// Whether `c` is one of the letters `a` to `z`.
pub open spec fn is_lower_letter(c: char) -> bool {
    0x61 <= c as u32 <= 0x7a
}

/// A small letter, and the capital letter that goes with it, both fold to
/// the small letter.
proof fn lemma_letter_folds(c: char, letter: char)
    requires
        is_lower_letter(letter),
        c == letter || c as u32 + 0x20 == letter as u32,
    ensures
        ascii_lower_char(c) == letter,
        ascii_lower_char(letter) == letter,
        '\0' <= c <= '\u{7f}',
        '\0' <= letter <= '\u{7f}',
{
}

/// A word of small ASCII letters is recognised in every way of writing it
/// in capital and small letters.
pub proof fn lemma_keyword_in_any_case(token: Seq<char>, word: Seq<char>)
    requires
        forall|i: int| 0 <= i < word.len() ==> is_lower_letter(#[trigger] word[i]),
        token.len() == word.len(),
        forall|i: int|
            0 <= i < word.len() ==> (#[trigger] token[i]) == word[i] || token[i] as u32 + 0x20
                == word[i] as u32,
    ensures
        keyword_is(token, word),
{
    assert forall|i: int| 0 <= i < word.len() implies ascii_lower_char(#[trigger] token[i])
        == word[i] && '\0' <= token[i] <= '\u{7f}' by {
        assert(is_lower_letter(word[i]));
        lemma_letter_folds(token[i], word[i]);
    }
    assert(ascii_lower(token) =~= word);
}

/// Folds one character.
fn lower_ascii(c: char) -> (lowered: char)
    ensures
        lowered == ascii_lower_char(c),
{
    let code: u32 = c as u32;
    if 0x41 <= code && code <= 0x5a {
        ((code + 0x20) as u8) as char
    } else {
        c
    }
}

/// Whether `token` is the keyword `word`, whatever the case of its letters.
pub fn is_keyword(token: &str, word: &str) -> (is: bool)
    ensures
        is == keyword_is(token@, word@),
{
    if token.is_ascii() {
        let given = chars_of(token);
        let wanted = chars_of(word);
        if given.len() != wanted.len() {
            return false;
        }
        let mut i: usize = 0;
        while i < given.len()
            invariant
                i <= given@.len(),
                given@ == token@,
                wanted@ == word@,
                is_ascii_chars(token@),
                given@.len() == wanted@.len(),
                forall|k: int| 0 <= k < i ==> ascii_lower_char(#[trigger] given@[k]) == wanted@[k],
            decreases given@.len() - i,
        {
            if lower_ascii(given[i]) != wanted[i] {
                assert(ascii_lower(given@)[i as int] != wanted@[i as int]);
                return false;
            }
            i += 1;
        }
        assert(ascii_lower(given@) =~= wanted@);
        true
    } else {
        let lowered = lowercase(token);
        same_text(lowered.as_str(), word)
    }
}

} // verus!

use resp_store::text::{
    chars_of, decode_text, is_keyword, parse_u64, push_decimal, same_text, sort_texts, text_le,
};

fn texts(items: &[&str]) -> Vec<String> {
    items.iter().map(|item| item.to_string()).collect()
}

fn decimal_of(n: usize) -> String {
    let mut out = String::new();
    push_decimal(&mut out, n);
    out
}

#[test]
fn chars_come_in_order() {
    assert_eq!(chars_of("a\u{e9}z"), vec!['a', '\u{e9}', 'z']);
    assert_eq!(chars_of(""), Vec::<char>::new());
}

#[test]
fn same_text_compares_whole_texts() {
    assert!(same_text("ping", "ping"));
    assert!(same_text("", ""));
    assert!(!same_text("ping", "pinG"));
    assert!(!same_text("ping", "pin"));
    assert!(!same_text("pin", "ping"));
    assert!(!same_text("", "a"));
    assert!(same_text("\u{4e16}\u{754c}", "\u{4e16}\u{754c}"));
}

#[test]
fn order_is_lexicographic_by_bytes() {
    assert!(text_le("a", "b"));
    assert!(!text_le("b", "a"));
    assert!(text_le("a", "a"));
    assert!(text_le("", "a"));
    assert!(!text_le("a", ""));
    assert!(text_le("a", "ab"));
    assert!(!text_le("ab", "a"));
    assert!(text_le("B", "a"));
    assert!(text_le("ab", "b"));
    assert!(text_le("z", "\u{e9}"));
    assert!(!text_le("\u{e9}", "z"));
    assert!(text_le("10", "9"));
}

#[test]
fn order_agrees_with_the_order_of_strings() {
    let samples = ["", "a", "A", "ab", "b", "a\u{e9}", "\u{e9}", "\u{10348}", "~", "aa", "0", "9"];
    for a in samples.iter() {
        for b in samples.iter() {
            assert_eq!(text_le(a, b), a <= b);
        }
    }
}

#[test]
fn sort_orders_and_keeps_every_text() {
    assert_eq!(sort_texts(texts(&["b", "a", "c"])), texts(&["a", "b", "c"]));
    assert_eq!(sort_texts(texts(&[])), texts(&[]));
    assert_eq!(sort_texts(texts(&["x"])), texts(&["x"]));
    assert_eq!(
        sort_texts(texts(&["b", "a", "b", "", "ab", "a"])),
        texts(&["", "a", "a", "ab", "b", "b"])
    );
    assert_eq!(
        sort_texts(texts(&["key10", "key9", "Key", "key"])),
        texts(&["Key", "key", "key10", "key9"])
    );
}

#[test]
fn sort_agrees_with_the_sort_of_strings() {
    let given = texts(&["delta", "alpha", "\u{e9}t\u{e9}", "charlie", "bravo", "Zulu", "alpha2", ""]);
    let mut expected = given.clone();
    expected.sort();
    assert_eq!(sort_texts(given), expected);
}

#[test]
fn decimal_numerals() {
    assert_eq!(decimal_of(0), "0");
    assert_eq!(decimal_of(7), "7");
    assert_eq!(decimal_of(10), "10");
    assert_eq!(decimal_of(123), "123");
    assert_eq!(decimal_of(1000), "1000");
    assert_eq!(decimal_of(9876543210), "9876543210");
    assert_eq!(decimal_of(usize::MAX), usize::MAX.to_string());
}

#[test]
fn decimal_is_appended() {
    let mut out = String::from("$");
    push_decimal(&mut out, 42);
    assert_eq!(out, "$42");
}

#[test]
fn parse_u64_reads_decimal() {
    assert_eq!(parse_u64("100"), Some(100));
    assert_eq!(parse_u64("0"), Some(0));
    assert_eq!(parse_u64("007"), Some(7));
    assert_eq!(parse_u64("+5"), Some(5));
    assert_eq!(parse_u64("18446744073709551615"), Some(u64::MAX));
    assert_eq!(parse_u64("00018446744073709551615"), Some(u64::MAX));
}

#[test]
fn parse_u64_rejects_everything_else() {
    assert_eq!(parse_u64(""), None);
    assert_eq!(parse_u64("+"), None);
    assert_eq!(parse_u64("-"), None);
    assert_eq!(parse_u64("-1"), None);
    assert_eq!(parse_u64("-0"), None);
    assert_eq!(parse_u64("++1"), None);
    assert_eq!(parse_u64("1+"), None);
    assert_eq!(parse_u64("1a"), None);
    assert_eq!(parse_u64("a1"), None);
    assert_eq!(parse_u64(" 1"), None);
    assert_eq!(parse_u64("1 "), None);
    assert_eq!(parse_u64("1_000"), None);
    assert_eq!(parse_u64("1.0"), None);
    assert_eq!(parse_u64("\u{663}"), None);
    assert_eq!(parse_u64("18446744073709551616"), None);
    assert_eq!(parse_u64("99999999999999999999999999"), None);
}

#[test]
fn parse_u64_agrees_with_the_parser_of_integers() {
    let samples = [
        "", "0", "1", "+1", "-1", "12345", "+", "18446744073709551615", "18446744073709551616",
        "0x10", "1e3", "000", "+000", "9", " 9", "\u{ff11}",
    ];
    for sample in samples.iter() {
        assert_eq!(parse_u64(sample), sample.parse::<u64>().ok());
    }
}

#[test]
fn keyword_in_ascii_is_folded() {
    assert!(is_keyword("ping", "ping"));
    assert!(is_keyword("PING", "ping"));
    assert!(is_keyword("PiNg", "ping"));
    assert!(is_keyword("", ""));
    assert!(!is_keyword("ping", "PING"));
    assert!(!is_keyword("pin", "ping"));
    assert!(!is_keyword("pingg", "ping"));
    assert!(!is_keyword("p1ng", "ping"));
    assert!(!is_keyword("", "ping"));
    assert!(!is_keyword("ping", ""));
    assert!(is_keyword("A-Z_09", "a-z_09"));
    assert!(is_keyword("@[`{", "@[`{"));
    assert!(!is_keyword("@", "`"));
    assert!(!is_keyword("[", "{"));
}

#[test]
fn keyword_with_other_characters_is_lowercased() {
    assert!(is_keyword("\u{c9}COLE", "\u{e9}cole"));
    assert!(is_keyword("\u{e9}cole", "\u{e9}cole"));
    assert!(is_keyword("\u{212a}EYS", "keys"));
    assert!(!is_keyword("\u{e9}cole", "ecole"));
    assert!(!is_keyword("\u{c9}COLE", "\u{c9}COLE"));
}

#[test]
fn keyword_agrees_with_lowercasing() {
    let tokens = [
        "", "GET", "get", "GeT", "G\u{c9}T", "\u{212a}", "\u{1c5}", "\u{130}",
        "\u{3a3}\u{391}\u{3a3}", "\u{df}", "a b", "A\tB",
    ];
    let words = [
        "", "get", "g\u{e9}t", "k", "\u{1c6}", "i\u{307}", "\u{3c3}\u{3b1}\u{3c2}", "\u{df}",
        "a b", "a\tb",
    ];
    for token in tokens.iter() {
        for word in words.iter() {
            assert_eq!(is_keyword(token, word), token.to_lowercase() == *word);
        }
    }
}

#[test]
fn bytes_are_decoded_as_utf8() {
    assert_eq!(decode_text(b""), "");
    assert_eq!(decode_text(b"plain"), "plain");
    assert_eq!(decode_text("h\u{e9}llo \u{4e16}\u{754c} \u{1f600}".as_bytes()), "h\u{e9}llo \u{4e16}\u{754c} \u{1f600}");
    assert_eq!(decode_text(b"line\r\nend\0"), "line\r\nend\0");
}

#[test]
fn malformed_bytes_are_replaced() {
    assert_eq!(decode_text(b"\xff"), "\u{fffd}");
    assert_eq!(decode_text(b"a\xc3"), "a\u{fffd}");
    assert_eq!(decode_text(b"\xc3(ok"), "\u{fffd}(ok");
    assert_eq!(decode_text(b"\xed\xa0\x80"), "\u{fffd}\u{fffd}\u{fffd}");
    assert_eq!(decode_text(b"\xc0\x80"), "\u{fffd}\u{fffd}");
}

use resp_store::glob::matches_glob;

#[test]
fn star_matches_every_text() {
    assert!(matches_glob("*", ""));
    assert!(matches_glob("*", "a"));
    assert!(matches_glob("*", "foo"));
    assert!(matches_glob("*", "with space and * star"));
    assert!(matches_glob("*", "\u{4e16}\u{754c}"));
}

#[test]
fn plain_pattern_matches_itself_only() {
    assert!(matches_glob("foo", "foo"));
    assert!(!matches_glob("foo", "fo"));
    assert!(!matches_glob("foo", "fooo"));
    assert!(!matches_glob("foo", "Foo"));
    assert!(!matches_glob("foo", ""));
    assert!(matches_glob("", ""));
    assert!(!matches_glob("", "a"));
}

#[test]
fn star_stands_for_any_run() {
    assert!(matches_glob("a*c", "ac"));
    assert!(matches_glob("a*c", "abc"));
    assert!(matches_glob("a*c", "abbbc"));
    assert!(matches_glob("a*c", "acac"));
    assert!(!matches_glob("a*c", "ab"));
    assert!(!matches_glob("a*c", "bc"));
    assert!(!matches_glob("a*c", "abcd"));
    assert!(matches_glob("foo*", "foo"));
    assert!(matches_glob("foo*", "foobar"));
    assert!(!matches_glob("foo*", "fo"));
    assert!(matches_glob("*bar", "bar"));
    assert!(matches_glob("*bar", "foobar"));
    assert!(!matches_glob("*bar", "barx"));
    assert!(matches_glob("*o*", "foo"));
    assert!(!matches_glob("*o*", "bar"));
}

#[test]
fn several_stars() {
    assert!(matches_glob("**", ""));
    assert!(matches_glob("**", "abc"));
    assert!(matches_glob("a**b", "ab"));
    assert!(matches_glob("*a*b*", "xxaxxbxx"));
    assert!(!matches_glob("*a*b*", "xxbxxaxx"));
    assert!(matches_glob("a*b*c", "abbbcabc"));
    assert!(!matches_glob("a*b*c", "abbbcab"));
}

#[test]
fn other_characters_stand_for_themselves() {
    assert!(matches_glob("a?c", "a?c"));
    assert!(!matches_glob("a?c", "abc"));
    assert!(matches_glob("[ab]", "[ab]"));
    assert!(!matches_glob("[ab]", "a"));
    assert!(matches_glob("a\\*", "a\\"));
    assert!(matches_glob("a\\*", "a\\bc"));
}

#[test]
fn pattern_matches_by_characters() {
    assert!(matches_glob("\u{e9}*", "\u{e9}t\u{e9}"));
    assert!(matches_glob("*\u{754c}", "\u{4e16}\u{754c}"));
    assert!(!matches_glob("\u{e9}", "e"));
}

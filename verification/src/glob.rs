//! Key patterns.  A pattern is matched against a whole key: `*` stands for
//! any run of characters, the empty run included, and every other character
//! stands for itself.

use vstd::prelude::*;
use crate::text::chars_of;

verus! {

/// Whether `pattern` matches the whole of `text`.
pub open spec fn glob_matches(pattern: Seq<char>, text: Seq<char>) -> bool
    decreases pattern.len(), text.len(),
{
    if pattern.len() == 0 {
        text.len() == 0
    } else if pattern[0] == '*' {
        glob_matches(pattern.drop_first(), text) || (text.len() > 0 && glob_matches(
            pattern,
            text.drop_first(),
        ))
    } else {
        text.len() > 0 && text[0] == pattern[0] && glob_matches(
            pattern.drop_first(),
            text.drop_first(),
        )
    }
}

/// The pattern `*` matches every text.
pub proof fn lemma_star_matches_everything(text: Seq<char>)
    ensures
        glob_matches(seq!['*'], text),
    decreases text.len(),
{
    let star = seq!['*'];
    if text.len() == 0 {
        assert(glob_matches(star.drop_first(), text));
    } else {
        lemma_star_matches_everything(text.drop_first());
    }
}

/// A pattern without `*` matches exactly the text that is equal to it.
pub proof fn lemma_plain_pattern_matches_itself_only(pattern: Seq<char>, text: Seq<char>)
    requires
        !pattern.contains('*'),
    ensures
        glob_matches(pattern, text) <==> pattern == text,
    decreases pattern.len(),
{
    if pattern.len() == 0 {
        if text.len() == 0 {
            assert(pattern =~= text);
        }
    } else {
        let rest = pattern.drop_first();
        assert(forall|i: int| 0 <= i < rest.len() ==> rest[i] != '*');
        if text.len() > 0 {
            lemma_plain_pattern_matches_itself_only(rest, text.drop_first());
            assert(pattern == seq![pattern[0]] + rest);
            assert(text == seq![text[0]] + text.drop_first());
        }
    }
}

/// Whether `pattern` matches the whole of `text`.
pub fn matches_glob(pattern: &str, text: &str) -> (matched: bool)
    ensures
        matched == glob_matches(pattern@, text@),
{
    let p = chars_of(pattern);
    let t = chars_of(text);
    let n = t.len();
    // row[j] tells whether the rest of the pattern from i matches the rest of the text from j.
    let mut row: Vec<bool> = Vec::new();
    let mut j: usize = 0;
    while j < n
        invariant
            j <= n,
            n == t@.len(),
            row@.len() == j,
            forall|k: int| 0 <= k < j ==> !(#[trigger] row[k]),
        decreases n - j,
    {
        row.push(false);
        j += 1;
    }
    row.push(true);
    let mut i: usize = p.len();
    assert(forall|k: int|
        0 <= k <= n ==> #[trigger] row[k] == glob_matches(p@.skip(i as int), t@.skip(k)));
    while i > 0
        invariant
            i <= p@.len(),
            n == t@.len(),
            row@.len() == n + 1,
            forall|k: int|
                0 <= k <= n ==> #[trigger] row[k] == glob_matches(p@.skip(i as int), t@.skip(k)),
        decreases i,
    {
        i -= 1;
        let star = p[i] == '*';
        let ghost here = p@.skip(i as int);
        let ghost after = p@.skip(i + 1);
        assert(here.drop_first() == after);
        let mut old_next = row[n];
        let mut new_next = star && old_next;
        row.set(n, new_next);
        let mut j: usize = n;
        while j > 0
            invariant
                j <= n,
                i < p@.len(),
                n == t@.len(),
                row@.len() == n + 1,
                here == p@.skip(i as int),
                after == p@.skip(i + 1),
                here.drop_first() == after,
                here.len() > 0,
                here[0] == p@[i as int],
                star == (p@[i as int] == '*'),
                forall|k: int| j <= k <= n ==> #[trigger] row[k] == glob_matches(here, t@.skip(k)),
                forall|k: int| 0 <= k < j ==> #[trigger] row[k] == glob_matches(after, t@.skip(k)),
                old_next == glob_matches(after, t@.skip(j as int)),
                new_next == glob_matches(here, t@.skip(j as int)),
            decreases j,
        {
            j -= 1;
            let old_here = row[j];
            let new_here = if star {
                old_here || new_next
            } else {
                t[j] == p[i] && old_next
            };
            proof {
                let rest = t@.skip(j as int);
                assert(rest.drop_first() == t@.skip(j + 1));
            }
            row.set(j, new_here);
            old_next = old_here;
            new_next = new_here;
        }
    }
    proof {
        assert(p@.skip(0) == p@);
        assert(t@.skip(0) == t@);
    }
    row[0]
}

} // verus!

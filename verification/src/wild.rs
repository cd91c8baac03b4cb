//! Wildcard patterns for names and paths.

use crate::text::{contains_char, has_char, lowercase, replace_char, replaced, texts, to_lowercase};
use vstd::prelude::*;
use vstd::string::*;
use wildmatch::WildMatch;

verus! {

/// Whether the wildcard pattern `p` matches the whole of `s`: `*` stands for any characters,
/// also none, `?` for exactly one, and every other character for itself.
pub open spec fn wild_match(p: Seq<char>, s: Seq<char>) -> bool
    decreases p.len() + s.len(),
{
    if p.len() == 0 {
        s.len() == 0
    } else if p[0] == '*' {
        wild_match(p.skip(1), s) || (s.len() > 0 && wild_match(p, s.skip(1)))
    } else {
        s.len() > 0 && (p[0] == '?' || p[0] == s[0]) && wild_match(p.skip(1), s.skip(1))
    }
}

/// `wildmatch::WildMatch::new` and `matches`: the matcher made from `pattern` accepts `text` when
/// the pattern matches the whole text, with the wildcards `*` and `?` and no escapes.
#[verifier::external_body]
pub(crate) fn wild_matches(pattern: &str, text: &str) -> (accepted: bool)
    ensures
        accepted == wild_match(pattern@, text@),
{
    WildMatch::new(pattern).matches(text)
}

/// Whether one of the patterns matches `s`.
pub open spec fn any_match(patterns: Seq<Seq<char>>, s: Seq<char>) -> bool {
    exists|i: int| 0 <= i < patterns.len() && #[trigger] wild_match(patterns[i], s)
}

/// Whether one of `patterns` matches `text`.
pub fn any_matches(patterns: &Vec<String>, text: &str) -> (found: bool)
    ensures
        found == any_match(texts(patterns@), text@),
{
    let mut i: usize = 0;
    while i < patterns.len()
        invariant
            i <= patterns@.len(),
            forall|j: int| 0 <= j < i ==> !#[trigger] wild_match(texts(patterns@)[j], text@),
        decreases patterns@.len() - i,
    {
        if wild_matches(patterns[i].as_str(), text) {
            assert(wild_match(texts(patterns@)[i as int], text@));
            return true;
        }
        i += 1;
    }
    false
}

/// A path as the directory patterns see it: lowercase, with `/` for `\`.
pub open spec fn folded(path: Seq<char>) -> Seq<char> {
    lowercase(replaced(path, '\\', '/'))
}

/// `path` in lowercase, with `/` for `\`.
pub fn fold_path(path: &str) -> (r: String)
    ensures
        r@ == folded(path@),
{
    let slashed = replace_char(path, '\\', '/');
    to_lowercase(slashed.as_str())
}

/// The pattern that a folded entry of the directory list stands for: an entry without wildcards
/// matches anywhere in a path.
pub open spec fn anywhere(entry: Seq<char>) -> Seq<char> {
    if has_char(entry, '*') || has_char(entry, '?') {
        entry
    } else {
        seq!['*'] + entry + seq!['*']
    }
}

/// The pattern that a folded entry of the directory list stands for.
pub fn widen_entry(entry: String) -> (pattern: String)
    ensures
        pattern@ == anywhere(entry@),
{
    if contains_char(entry.as_str(), '*') || contains_char(entry.as_str(), '?') {
        entry
    } else {
        let mut pattern = String::new();
        pattern.push('*');
        pattern.append(entry.as_str());
        pattern.push('*');
        assert(pattern@ == seq!['*'] + entry@ + seq!['*']);
        pattern
    }
}

/// The patterns of a list of directories to ignore.
pub open spec fn dir_patterns(entries: Seq<Seq<char>>) -> Seq<Seq<char>> {
    entries.map_values(|e: Seq<char>| anywhere(folded(e)))
}

/// The patterns of a list of directories to ignore.
pub fn make_dir_patterns(entries: &Vec<String>) -> (patterns: Vec<String>)
    ensures
        texts(patterns@) == dir_patterns(texts(entries@)),
{
    let mut patterns: Vec<String> = Vec::new();
    let mut i: usize = 0;
    while i < entries.len()
        invariant
            i <= entries@.len(),
            patterns@.len() == i,
            forall|j: int| 0 <= j < i ==> texts(patterns@)[j] == dir_patterns(texts(entries@))[j],
        decreases entries@.len() - i,
    {
        let ghost before = patterns@;
        patterns.push(widen_entry(fold_path(entries[i].as_str())));
        assert forall|j: int| 0 <= j < i + 1 implies texts(patterns@)[j] == dir_patterns(
            texts(entries@),
        )[j] by {
            if j < i {
                assert(texts(patterns@)[j] == texts(before)[j]);
            }
        }
        i += 1;
    }
    assert(texts(patterns@) =~= dir_patterns(texts(entries@)));
    patterns
}

} // verus!

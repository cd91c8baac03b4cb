//! What wildcard patterns promise.

use crate::text::lowercase;
use crate::wild::{any_match, anywhere, dir_patterns, folded, wild_match};
use vstd::prelude::*;

verus! {

/// A pattern without wildcards matches itself and nothing else.
pub proof fn plain_pattern_matches_itself(p: Seq<char>, s: Seq<char>)
    requires
        !p.contains('*'),
        !p.contains('?'),
    ensures
        wild_match(p, s) == (p == s),
    decreases p.len(),
{
    if p.len() > 0 {
        assert(p.contains(p[0]));
        let rest = p.skip(1);
        assert forall|c: char| rest.contains(c) implies p.contains(c) by {
            let i = choose|i: int| 0 <= i < rest.len() && rest[i] == c;
            assert(p[i + 1] == c);
        }
        if s.len() > 0 {
            plain_pattern_matches_itself(rest, s.skip(1));
            if p[0] == s[0] && rest == s.skip(1) {
                assert(p =~= seq![p[0]] + rest);
                assert(s =~= seq![s[0]] + s.skip(1));
            }
        }
    } else if s.len() == 0 {
        assert(p =~= s);
    }
}

/// Two patterns after each other match a text exactly where the text parts into one that the first
/// matches and one that the second does.
pub proof fn patterns_part_the_text(p: Seq<char>, q: Seq<char>, s: Seq<char>)
    ensures
        wild_match(p + q, s) == exists|k: int|
            0 <= k <= s.len() && wild_match(p, #[trigger] s.take(k)) && wild_match(q, s.skip(k)),
    decreases p.len() + s.len(),
{
    let all = p + q;
    if p.len() == 0 {
        assert(all =~= q);
        assert(s.skip(0) =~= s);
        assert(s.take(0).len() == 0);
        if exists|k: int|
            0 <= k <= s.len() && wild_match(p, #[trigger] s.take(k)) && wild_match(q, s.skip(k)) {
            let k = choose|k: int|
                0 <= k <= s.len() && wild_match(p, #[trigger] s.take(k)) && wild_match(
                    q,
                    s.skip(k),
                );
            assert(k == 0);
        }
        if wild_match(q, s) {
            assert(wild_match(p, s.take(0)) && wild_match(q, s.skip(0)));
        }
    } else {
        assert(all[0] == p[0]);
        assert(all.skip(1) =~= p.skip(1) + q);
        if p[0] == '*' {
            patterns_part_the_text(p.skip(1), q, s);
            if s.len() > 0 {
                patterns_part_the_text(p, q, s.skip(1));
            }
            lemma_part_star(p, q, s);
        } else if s.len() > 0 {
            patterns_part_the_text(p.skip(1), q, s.skip(1));
            lemma_part_one(p, q, s);
        } else {
            if exists|k: int|
                0 <= k <= s.len() && wild_match(p, #[trigger] s.take(k)) && wild_match(
                    q,
                    s.skip(k),
                ) {
                let k = choose|k: int|
                    0 <= k <= s.len() && wild_match(p, #[trigger] s.take(k)) && wild_match(
                        q,
                        s.skip(k),
                    );
                assert(s.take(k).len() == 0);
            }
        }
    }
}

proof fn lemma_part_star(p: Seq<char>, q: Seq<char>, s: Seq<char>)
    requires
        p.len() > 0,
        p[0] == '*',
        wild_match(p.skip(1) + q, s) == exists|k: int|
            0 <= k <= s.len() && wild_match(p.skip(1), #[trigger] s.take(k)) && wild_match(
                q,
                s.skip(k),
            ),
        s.len() > 0 ==> wild_match(p + q, s.skip(1)) == exists|k: int|
            0 <= k <= s.len() - 1 && wild_match(p, #[trigger] s.skip(1).take(k)) && wild_match(
                q,
                s.skip(1).skip(k),
            ),
        (p + q).skip(1) == p.skip(1) + q,
    ensures
        wild_match(p + q, s) == exists|k: int|
            0 <= k <= s.len() && wild_match(p, #[trigger] s.take(k)) && wild_match(q, s.skip(k)),
{
    assert((p + q)[0] == '*');
    if wild_match(p.skip(1) + q, s) {
        let k = choose|k: int|
            0 <= k <= s.len() && wild_match(p.skip(1), #[trigger] s.take(k)) && wild_match(
                q,
                s.skip(k),
            );
        assert(wild_match(p, s.take(k)));
    }
    if s.len() > 0 && wild_match(p + q, s.skip(1)) {
        let k = choose|k: int|
            0 <= k <= s.len() - 1 && wild_match(p, #[trigger] s.skip(1).take(k)) && wild_match(
                q,
                s.skip(1).skip(k),
            );
        assert(s.take(k + 1).skip(1) =~= s.skip(1).take(k));
        assert(s.skip(k + 1) =~= s.skip(1).skip(k));
        assert(wild_match(p, s.take(k + 1)));
    }
    if exists|k: int|
        0 <= k <= s.len() && wild_match(p, #[trigger] s.take(k)) && wild_match(q, s.skip(k)) {
        let k = choose|k: int|
            0 <= k <= s.len() && wild_match(p, #[trigger] s.take(k)) && wild_match(q, s.skip(k));
        let t = s.take(k);
        if wild_match(p.skip(1), t) {
            assert(wild_match(p.skip(1), s.take(k)) && wild_match(q, s.skip(k)));
        } else {
            assert(t.len() > 0 && wild_match(p, t.skip(1)));
            assert(t.skip(1) =~= s.skip(1).take(k - 1));
            assert(s.skip(1).skip(k - 1) =~= s.skip(k));
            assert(wild_match(p, s.skip(1).take(k - 1)));
        }
    }
}

proof fn lemma_part_one(p: Seq<char>, q: Seq<char>, s: Seq<char>)
    requires
        p.len() > 0,
        p[0] != '*',
        s.len() > 0,
        wild_match(p.skip(1) + q, s.skip(1)) == exists|k: int|
            0 <= k <= s.len() - 1 && wild_match(p.skip(1), #[trigger] s.skip(1).take(k))
                && wild_match(q, s.skip(1).skip(k)),
        (p + q).skip(1) == p.skip(1) + q,
    ensures
        wild_match(p + q, s) == exists|k: int|
            0 <= k <= s.len() && wild_match(p, #[trigger] s.take(k)) && wild_match(q, s.skip(k)),
{
    assert((p + q)[0] == p[0]);
    if wild_match(p + q, s) {
        let k = choose|k: int|
            0 <= k <= s.len() - 1 && wild_match(p.skip(1), #[trigger] s.skip(1).take(k))
                && wild_match(q, s.skip(1).skip(k));
        assert(s.take(k + 1).skip(1) =~= s.skip(1).take(k));
        assert(s.take(k + 1)[0] == s[0]);
        assert(s.skip(k + 1) =~= s.skip(1).skip(k));
        assert(wild_match(p, s.take(k + 1)));
    }
    if exists|k: int|
        0 <= k <= s.len() && wild_match(p, #[trigger] s.take(k)) && wild_match(q, s.skip(k)) {
        let k = choose|k: int|
            0 <= k <= s.len() && wild_match(p, #[trigger] s.take(k)) && wild_match(q, s.skip(k));
        let t = s.take(k);
        assert(t.len() > 0 && t[0] == s[0]);
        assert(t.skip(1) =~= s.skip(1).take(k - 1));
        assert(s.skip(1).skip(k - 1) =~= s.skip(k));
        assert(wild_match(p.skip(1), s.skip(1).take(k - 1)));
    }
}

/// A star alone matches every text, and a question mark alone every text of one character.
pub proof fn wildcards_alone(s: Seq<char>)
    ensures
        wild_match(seq!['*'], s),
        wild_match(seq!['?'], s) == (s.len() == 1),
    decreases s.len(),
{
    reveal_with_fuel(wild_match, 2);
    if s.len() > 0 {
        wildcards_alone(s.skip(1));
    }
}

/// A text matches a list of patterns exactly where it matches one of them.
pub proof fn one_pattern_is_enough(patterns: Seq<Seq<char>>, p: Seq<char>, s: Seq<char>)
    ensures
        patterns.len() == 0 ==> !any_match(patterns, s),
        any_match(patterns.push(p), s) == (any_match(patterns, s) || wild_match(p, s)),
{
    let all = patterns.push(p);
    if any_match(patterns, s) {
        let i = choose|i: int| 0 <= i < patterns.len() && #[trigger] wild_match(patterns[i], s);
        assert(all[i] == patterns[i]);
    }
    if wild_match(p, s) {
        assert(all[patterns.len() as int] == p);
    }
    if any_match(all, s) {
        let i = choose|i: int| 0 <= i < all.len() && #[trigger] wild_match(all[i], s);
        if i < patterns.len() {
            assert(wild_match(patterns[i], s));
        }
    }
}

/// Paths are compared in lowercase, with `/` for `\`.
pub proof fn paths_are_folded(path: Seq<char>, slashed: Seq<char>)
    requires
        slashed.len() == path.len(),
        forall|i: int|
            0 <= i < path.len() ==> #[trigger] slashed[i] == (if path[i] == '\\' {
                '/'
            } else {
                path[i]
            }),
    ensures
        folded(path) == lowercase(slashed),
{
    assert(crate::text::replaced(path, '\\', '/') =~= slashed);
}

/// A listed directory without wildcards matches every path in which it stands, each of them in
/// lowercase and with `/` for `\`.
pub proof fn plain_entry_matches_anywhere(entry: Seq<char>, s: Seq<char>)
    requires
        !entry.contains('*'),
        !entry.contains('?'),
    ensures
        wild_match(anywhere(entry), s) == exists|i: int|
            0 <= i <= s.len() - entry.len() && #[trigger] s.subrange(i, i + entry.len()) == entry,
{
    if crate::text::has_char(entry, '*') {
        let i = choose|i: int| 0 <= i < entry.len() && entry[i] == '*';
        assert(entry.contains(entry[i]));
    }
    if crate::text::has_char(entry, '?') {
        let i = choose|i: int| 0 <= i < entry.len() && entry[i] == '?';
        assert(entry.contains(entry[i]));
    }
    let star = seq!['*'];
    let n = entry.len() as int;
    assert(anywhere(entry) == star + entry + star);
    assert(star + entry + star =~= star + (entry + star));
    patterns_part_the_text(star, entry + star, s);
    if wild_match(anywhere(entry), s) {
        let k = choose|k: int|
            0 <= k <= s.len() && wild_match(star, #[trigger] s.take(k)) && wild_match(
                entry + star,
                s.skip(k),
            );
        let t = s.skip(k);
        patterns_part_the_text(entry, star, t);
        let m = choose|m: int|
            0 <= m <= t.len() && wild_match(entry, #[trigger] t.take(m)) && wild_match(
                star,
                t.skip(m),
            );
        plain_pattern_matches_itself(entry, t.take(m));
        assert(s.subrange(k, k + n) =~= entry);
    }
    if exists|i: int| 0 <= i <= s.len() - n && #[trigger] s.subrange(i, i + n) == entry {
        let i = choose|i: int| 0 <= i <= s.len() - n && #[trigger] s.subrange(i, i + n) == entry;
        let t = s.skip(i);
        wildcards_alone(s.take(i));
        wildcards_alone(t.skip(n));
        assert(t.take(n) =~= entry);
        plain_pattern_matches_itself(entry, t.take(n));
        patterns_part_the_text(entry, star, t);
        assert(wild_match(entry, t.take(n)) && wild_match(star, t.skip(n)));
        assert(wild_match(star, s.take(i)) && wild_match(entry + star, s.skip(i)));
    }
}

/// A listed directory with wildcards is a pattern for the whole path.
pub proof fn pattern_entry_stands_as_it_is(entry: Seq<char>)
    requires
        entry.contains('*') || entry.contains('?'),
    ensures
        anywhere(entry) == entry,
{
    let c = if entry.contains('*') {
        '*'
    } else {
        '?'
    };
    let i = choose|i: int| 0 <= i < entry.len() && entry[i] == c;
    assert(crate::text::has_char(entry, c));
}

/// Every listed directory gives one pattern, that of its folded text.
pub proof fn every_entry_gives_a_pattern(entries: Seq<Seq<char>>, i: int)
    requires
        0 <= i < entries.len(),
    ensures
        dir_patterns(entries).len() == entries.len(),
        dir_patterns(entries)[i] == anywhere(folded(entries[i])),
{
}

} // verus!

//! Strings as sequences of characters: splitting, trimming, searching and formatting.

use vstd::prelude::*;
use vstd::string::*;
use vstd::utf8::{decode_utf8, valid_utf8};

verus! {

/// `String::push` appends one character to the end of the string.
pub assume_specification[ String::push ](s: &mut String, c: char)
    ensures
        final(s)@ == old(s)@.push(c),
;

/// The text that `str::to_lowercase` gives for `text`.
pub uninterp spec fn lowercase(text: Seq<char>) -> Seq<char>;

/// `str::to_lowercase`: the lowercase equivalent of a text, by the Unicode tables of the
/// standard library. Nothing more is claimed of the mapping than that the text alone decides it.
#[verifier::external_body]
pub(crate) fn to_lowercase(text: &str) -> (lower: String)
    ensures
        lower@ == lowercase(text@),
{
    text.to_lowercase()
}

/// Whether `c` is white space: has the Unicode property White_Space.
pub open spec fn white_space(c: char) -> bool {
    let n = c as u32;
    ||| 0x9 <= n <= 0xd
    ||| n == 0x20
    ||| n == 0x85
    ||| n == 0xa0
    ||| n == 0x1680
    ||| 0x2000 <= n <= 0x200a
    ||| n == 0x2028
    ||| n == 0x2029
    ||| n == 0x202f
    ||| n == 0x205f
    ||| n == 0x3000
}

/// `char::is_whitespace`: whether a character has the Unicode property White_Space, which is a
/// fixed list of characters.
#[verifier::external_body]
pub(crate) fn is_white_space(c: char) -> (white: bool)
    ensures
        white == white_space(c),
{
    c.is_whitespace()
}

/// The text that `String::from_utf8_lossy` gives for `bytes`.
pub uninterp spec fn utf8_lossy(bytes: Seq<u8>) -> Seq<char>;

/// `String::from_utf8_lossy`: bytes that are valid UTF-8 are decoded; of other bytes only that
/// they alone decide the text.
#[verifier::external_body]
pub(crate) fn lossy_text(bytes: &Vec<u8>) -> (text: String)
    ensures
        text@ == utf8_lossy(bytes@),
        valid_utf8(bytes@) ==> text@ == decode_utf8(bytes@),
{
    String::from_utf8_lossy(bytes).into_owned()
}

/// Bytes in which an encoded surrogate, which is no character, gives way to the bytes of the
/// replacement character.
pub open spec fn mended(bytes: Seq<u8>) -> Seq<u8>
    decreases bytes.len(),
{
    if bytes.len() == 0 {
        bytes
    } else if bytes.len() >= 3 && bytes[0] == 0xed && bytes[1] >= 0xa0 {
        seq![0xefu8, 0xbfu8, 0xbdu8] + mended(bytes.skip(3))
    } else {
        seq![bytes[0]] + mended(bytes.skip(1))
    }
}

/// The text of a name. In a `wide` one, whose bytes stand for 16-bit units, each surrogate without
/// a partner is shown as one replacement character.
pub open spec fn name_text(wide: bool, bytes: Seq<u8>) -> Seq<char> {
    utf8_lossy(
        if wide {
            mended(bytes)
        } else {
            bytes
        },
    )
}

/// Bytes in which an encoded surrogate gives way to the bytes of the replacement character.
fn mend(bytes: &Vec<u8>) -> (r: Vec<u8>)
    ensures
        r@ == mended(bytes@),
{
    let mut r: Vec<u8> = Vec::new();
    let mut i: usize = 0;
    let n = bytes.len();
    assert(bytes@.skip(0) == bytes@);
    assert(r@ + mended(bytes@) =~= mended(bytes@));
    while i < n
        invariant
            i <= n == bytes@.len(),
            r@ + mended(bytes@.skip(i as int)) == mended(bytes@),
        decreases n - i,
    {
        let ghost rest = bytes@.skip(i as int);
        let ghost before = r@;
        if n - i >= 3 && bytes[i] == 0xed && bytes[i + 1] >= 0xa0 {
            r.push(0xef);
            r.push(0xbf);
            r.push(0xbd);
            proof {
                assert(rest.skip(3) == bytes@.skip(i + 3));
                assert(r@ == before + seq![0xefu8, 0xbfu8, 0xbdu8]);
                assert(r@ + mended(rest.skip(3)) =~= before + (seq![0xefu8, 0xbfu8, 0xbdu8]
                    + mended(rest.skip(3))));
            }
            i += 3;
        } else {
            r.push(bytes[i]);
            proof {
                assert(rest.skip(1) == bytes@.skip(i + 1));
                assert(r@ == before + seq![rest[0]]);
                assert(r@ + mended(rest.skip(1)) =~= before + (seq![rest[0]] + mended(
                    rest.skip(1),
                )));
            }
            i += 1;
        }
    }
    assert(bytes@.skip(i as int).len() == 0);
    assert(r@ + mended(bytes@.skip(i as int)) =~= r@);
    r
}

/// The text of a name.
pub fn make_name_text(wide: bool, bytes: &Vec<u8>) -> (text: String)
    ensures
        text@ == name_text(wide, bytes@),
{
    if wide {
        let whole = mend(bytes);
        lossy_text(&whole)
    } else {
        lossy_text(bytes)
    }
}

/// Whether `c` occurs in `s`.
pub open spec fn has_char(s: Seq<char>, c: char) -> bool {
    exists|i: int| 0 <= i < s.len() && s[i] == c
}

/// Whether `t` stands in `s` at `i`.
pub open spec fn occurs_at(s: Seq<char>, t: Seq<char>, i: int) -> bool {
    0 <= i && i + t.len() <= s.len() && s.subrange(i, i + t.len()) == t
}

/// Whether `t` stands in `s` at `i` and nowhere before.
pub open spec fn first_at(s: Seq<char>, t: Seq<char>, i: int) -> bool {
    occurs_at(s, t, i) && forall|k: int| 0 <= k < i ==> !#[trigger] occurs_at(s, t, k)
}

/// `s` with every `from` replaced by `to`.
pub open spec fn replaced(s: Seq<char>, from: char, to: char) -> Seq<char> {
    s.map_values(
        |c: char|
            if c == from {
                to
            } else {
                c
            },
    )
}

/// The pieces of `s` between the occurrences of `sep`, in order; one more piece than there are
/// separators.
pub open spec fn split(s: Seq<char>, sep: char) -> Seq<Seq<char>>
    decreases s.len(),
{
    if s.len() == 0 {
        seq![Seq::<char>::empty()]
    } else {
        let before = split(s.drop_last(), sep);
        if s.last() == sep {
            before.push(Seq::<char>::empty())
        } else {
            before.drop_last().push(before.last().push(s.last()))
        }
    }
}

/// `s` without its leading white space.
pub open spec fn trim_start(s: Seq<char>) -> Seq<char>
    decreases s.len(),
{
    if s.len() > 0 && white_space(s[0]) {
        trim_start(s.skip(1))
    } else {
        s
    }
}

/// `s` without its trailing white space.
pub open spec fn trim_end(s: Seq<char>) -> Seq<char>
    decreases s.len(),
{
    if s.len() > 0 && white_space(s.last()) {
        trim_end(s.drop_last())
    } else {
        s
    }
}

/// `s` without leading and trailing white space.
pub open spec fn trim(s: Seq<char>) -> Seq<char> {
    trim_end(trim_start(s))
}

/// The members of `pieces` that are not empty once trimmed, trimmed, in order.
pub open spec fn trimmed_items(pieces: Seq<Seq<char>>) -> Seq<Seq<char>>
    decreases pieces.len(),
{
    if pieces.len() == 0 {
        Seq::empty()
    } else {
        let before = trimmed_items(pieces.drop_last());
        let item = trim(pieces.last());
        if item.len() == 0 {
            before
        } else {
            before.push(item)
        }
    }
}

/// The items of a list written as one text with separators.
pub open spec fn list_items(s: Seq<char>, sep: char) -> Seq<Seq<char>> {
    trimmed_items(split(s, sep))
}

/// `n` in decimal digits, without leading zeros.
pub open spec fn decimal(n: nat) -> Seq<char>
    decreases n,
{
    if n < 10 {
        seq![digit(n)]
    } else {
        decimal(n / 10).push(digit(n % 10))
    }
}

/// The digit of a number below ten.
pub open spec fn digit(n: nat) -> char {
    ((48 + n) as u8) as char
}

/// The contents of a list of strings.
pub open spec fn texts(list: Seq<String>) -> Seq<Seq<char>> {
    list.map_values(|s: String| s@)
}

/// A list with one more member at its end holds what it held, and the new member.
pub(crate) proof fn lemma_pushed(list: Seq<String>, s: String)
    ensures
        texts(list.push(s)) == texts(list).push(s@),
        forall|q: Seq<char>| #[trigger]
            texts(list.push(s)).contains(q) == (texts(list).contains(q) || q == s@),
        texts(list).no_duplicates() && !texts(list).contains(s@) ==> texts(
            list.push(s),
        ).no_duplicates(),
{
    let before = texts(list);
    let after = texts(list.push(s));
    assert(after == before.push(s@));
    assert forall|q: Seq<char>| #[trigger] after.contains(q) == (before.contains(q) || q == s@) by {
        if before.contains(q) {
            let i = choose|i: int| 0 <= i < before.len() && before[i] == q;
            assert(after[i] == q);
        }
        if q == s@ {
            assert(after[before.len() as int] == q);
        }
    }
}

/// `parts` one after the other, with `sep` between them.
pub open spec fn join(parts: Seq<Seq<char>>, sep: Seq<char>) -> Seq<char>
    decreases parts.len(),
{
    if parts.len() == 0 {
        Seq::empty()
    } else if parts.len() == 1 {
        parts[0]
    } else {
        join(parts.drop_last(), sep) + sep + parts.last()
    }
}

/// `parts` one after the other.
pub open spec fn concat(parts: Seq<Seq<char>>) -> Seq<char>
    decreases parts.len(),
{
    if parts.len() == 0 {
        Seq::empty()
    } else {
        concat(parts.drop_last()) + parts.last()
    }
}

/// The characters of `s`.
pub(crate) fn to_chars(s: &str) -> (chars: Vec<char>)
    ensures
        chars@ == s@,
{
    let mut chars: Vec<char> = Vec::new();
    for c in it: s.chars()
        invariant
            chars@.len() == it.index(),
            it.seq() == s@,
            forall|i: int| 0 <= i < it.index() ==> chars@[i] == it.seq()[i],
    {
        chars.push(c);
    }
    chars
}

/// The string of the characters `chars[from..to]`.
pub(crate) fn from_chars(chars: &Vec<char>, from: usize, to: usize) -> (s: String)
    requires
        from <= to <= chars@.len(),
    ensures
        s@ == chars@.subrange(from as int, to as int),
{
    let mut s = String::new();
    let mut i: usize = from;
    while i < to
        invariant
            from <= i <= to <= chars@.len(),
            s@ == chars@.subrange(from as int, i as int),
        decreases to - i,
    {
        s.push(chars[i]);
        i += 1;
        assert(chars@.subrange(from as int, i as int) == chars@.subrange(
            from as int,
            i - 1,
        ).push(chars@[i - 1]));
    }
    s
}

/// Whether `c` is one of the characters of `s`.
pub fn contains_char(s: &str, c: char) -> (found: bool)
    ensures
        found == has_char(s@, c),
{
    let chars = to_chars(s);
    let mut i: usize = 0;
    while i < chars.len()
        invariant
            i <= chars@.len(),
            chars@ == s@,
            forall|j: int| 0 <= j < i ==> s@[j] != c,
        decreases chars@.len() - i,
    {
        if chars[i] == c {
            return true;
        }
        i += 1;
    }
    false
}

/// The place where `t` first stands in `s`.
pub(crate) fn find_first(s: &Vec<char>, t: &Vec<char>) -> (r: Option<usize>)
    ensures
        match r {
            Some(i) => first_at(s@, t@, i as int),
            None => forall|i: int| !#[trigger] occurs_at(s@, t@, i),
        },
{
    let len = s.len();
    if t.len() > len {
        return None;
    }
    let mut i: usize = 0;
    while i <= len - t.len()
        invariant
            t@.len() <= s@.len() == len,
            i <= s@.len() - t@.len() + 1,
            forall|k: int| 0 <= k < i ==> !#[trigger] occurs_at(s@, t@, k),
        decreases s@.len() - t@.len() + 1 - i,
    {
        let mut n: usize = 0;
        while n < t.len() && s[i + n] == t[n]
            invariant
                i + t@.len() <= s@.len() == len,
                n <= t@.len(),
                forall|m: int| 0 <= m < n ==> s@[i + m] == t@[m],
            ensures
                n == t@.len() || s@[i + n] != t@[n as int],
            decreases t@.len() - n,
        {
            n += 1;
        }
        if n == t.len() {
            assert(s@.subrange(i as int, i + t@.len()) == t@);
            return Some(i);
        }
        assert(s@.subrange(i as int, i + t@.len())[n as int] != t@[n as int]);
        if i == len {
            return None;
        }
        i += 1;
    }
    None
}

/// `s` with every `from` replaced by `to`.
pub fn replace_char(s: &str, from: char, to: char) -> (r: String)
    ensures
        r@ == replaced(s@, from, to),
{
    let chars = to_chars(s);
    let mut r = String::new();
    let mut i: usize = 0;
    while i < chars.len()
        invariant
            i <= chars@.len(),
            chars@ == s@,
            r@.len() == i,
            forall|j: int| 0 <= j < i ==> r@[j] == replaced(s@, from, to)[j],
        decreases chars@.len() - i,
    {
        if chars[i] == from {
            r.push(to);
        } else {
            r.push(chars[i]);
        }
        i += 1;
    }
    r
}

proof fn lemma_trim_start(s: Seq<char>, k: int)
    requires
        0 <= k <= s.len(),
        forall|i: int| 0 <= i < k ==> white_space(s[i]),
        k == s.len() || !white_space(s[k]),
    ensures
        trim_start(s) == s.skip(k),
    decreases k,
{
    if k > 0 {
        lemma_trim_start(s.skip(1), k - 1);
        assert(s.skip(1).skip(k - 1) == s.skip(k));
    } else {
        assert(s.skip(0) == s);
    }
}

proof fn lemma_trim_end(s: Seq<char>, k: int)
    requires
        0 <= k <= s.len(),
        forall|i: int| k <= i < s.len() ==> white_space(s[i]),
        k == 0 || !white_space(s[k - 1]),
    ensures
        trim_end(s) == s.take(k),
    decreases s.len(),
{
    if k < s.len() {
        lemma_trim_end(s.drop_last(), k);
        assert(s.drop_last().take(k) == s.take(k));
    } else {
        assert(s.take(k) == s);
    }
}

/// `chars[from..to]` without leading and trailing white space.
fn trim_range(chars: &Vec<char>, from: usize, to: usize) -> (r: String)
    requires
        from <= to <= chars@.len(),
    ensures
        r@ == trim(chars@.subrange(from as int, to as int)),
{
    let ghost s = chars@.subrange(from as int, to as int);
    let mut lo: usize = from;
    while lo < to && is_white_space(chars[lo])
        invariant
            from <= lo <= to <= chars@.len(),
            s == chars@.subrange(from as int, to as int),
            forall|i: int| 0 <= i < lo - from ==> white_space(s[i]),
        ensures
            lo == to || !white_space(chars@[lo as int]),
        decreases to - lo,
    {
        lo += 1;
    }
    proof {
        lemma_trim_start(s, lo - from);
    }
    let ghost t = s.skip(lo - from);
    let mut hi: usize = to;
    while hi > lo && is_white_space(chars[hi - 1])
        invariant
            from <= lo <= hi <= to <= chars@.len(),
            s == chars@.subrange(from as int, to as int),
            t == s.skip(lo - from),
            forall|i: int| hi - lo <= i < t.len() ==> white_space(t[i]),
        ensures
            hi == lo || !white_space(chars@[hi - 1]),
        decreases hi - lo,
    {
        hi -= 1;
    }
    proof {
        lemma_trim_end(t, hi - lo);
        assert(t.take(hi - lo) == chars@.subrange(lo as int, hi as int));
    }
    from_chars(chars, lo, hi)
}

/// `s` without leading and trailing white space.
pub fn trimmed(s: &str) -> (r: String)
    ensures
        r@ == trim(s@),
{
    let chars = to_chars(s);
    let n = chars.len();
    assert(chars@.subrange(0, n as int) == s@);
    trim_range(&chars, 0, n)
}

/// `s` without trailing white space.
pub fn end_trimmed(s: &str) -> (r: String)
    ensures
        r@ == trim_end(s@),
{
    let chars = to_chars(s);
    let mut hi: usize = chars.len();
    while hi > 0 && is_white_space(chars[hi - 1])
        invariant
            hi <= chars@.len(),
            chars@ == s@,
            forall|i: int| hi <= i < s@.len() ==> white_space(s@[i]),
        ensures
            hi == 0 || !white_space(chars@[hi - 1]),
        decreases hi,
    {
        hi -= 1;
    }
    proof {
        lemma_trim_end(s@, hi as int);
        assert(s@.take(hi as int) == chars@.subrange(0, hi as int));
    }
    from_chars(&chars, 0, hi)
}

/// The pieces of `s` between separators, trimmed.
pub fn split_trimmed(s: &str, sep: char) -> (items: Vec<String>)
    ensures
        texts(items@) == split(s@, sep).map_values(|piece: Seq<char>| trim(piece)),
{
    let chars = to_chars(s);
    let mut items: Vec<String> = Vec::new();
    let mut start: usize = 0;
    let mut i: usize = 0;
    let ghost mut done: Seq<Seq<char>> = Seq::empty();
    assert(chars@.take(0) == Seq::<char>::empty());
    assert(chars@.subrange(0, 0) == Seq::<char>::empty());
    assert(split(chars@.take(0), sep) == done.push(chars@.subrange(0, 0)));
    while i < chars.len()
        invariant
            start <= i <= chars@.len(),
            chars@ == s@,
            split(chars@.take(i as int), sep) == done.push(chars@.subrange(start as int, i as int)),
            texts(items@) == done.map_values(|piece: Seq<char>| trim(piece)),
        decreases chars@.len() - i,
    {
        let ghost here = chars@.take(i + 1);
        proof {
            assert(here.drop_last() == chars@.take(i as int));
            assert(here.last() == chars@[i as int]);
        }
        let ghost piece = chars@.subrange(start as int, i as int);
        if chars[i] == sep {
            let item = trim_range(&chars, start, i);
            let ghost before = items@;
            items.push(item);
            proof {
                assert(texts(items@) == texts(before).push(item@));
                done = done.push(piece);
                assert(texts(items@) =~= done.map_values(|piece: Seq<char>| trim(piece)));
            }
            start = i + 1;
            assert(chars@.subrange(start as int, i + 1) == Seq::<char>::empty());
        } else {
            proof {
                let before = done.push(piece);
                assert(before.drop_last() == done);
                assert(piece.push(chars@[i as int]) == chars@.subrange(start as int, i + 1));
            }
        }
        i += 1;
    }
    let item = trim_range(&chars, start, i);
    let ghost piece = chars@.subrange(start as int, i as int);
    let ghost before = items@;
    items.push(item);
    proof {
        assert(texts(items@) == texts(before).push(item@));
        assert(chars@.take(i as int) == s@);
        assert(texts(items@) =~= done.push(piece).map_values(|piece: Seq<char>| trim(piece)));
    }
    items
}

/// Whether `item` is one of the pieces of `s` between separators, once these are trimmed.
pub open spec fn has_item(s: Seq<char>, sep: char, item: Seq<char>) -> bool {
    exists|i: int| 0 <= i < split(s, sep).len() && trim(#[trigger] split(s, sep)[i]) == item
}

/// Whether `item` is one of the pieces of `s` between separators, once these are trimmed.
pub fn contains_item(s: &str, sep: char, item: &str) -> (found: bool)
    ensures
        found == has_item(s@, sep, item@),
{
    let items = split_trimmed(s, sep);
    let wanted = item.to_owned();
    let ghost pieces = split(s@, sep);
    assert(texts(items@).len() == pieces.len());
    let mut i: usize = 0;
    while i < items.len()
        invariant
            wanted@ == item@,
            i <= items@.len() == pieces.len(),
            pieces == split(s@, sep),
            texts(items@) == pieces.map_values(|piece: Seq<char>| trim(piece)),
            forall|j: int| 0 <= j < i ==> trim(#[trigger] pieces[j]) != item@,
        decreases items@.len() - i,
    {
        assert(texts(items@)[i as int] == trim(pieces[i as int]));
        if items[i] == wanted {
            return true;
        }
        i += 1;
    }
    false
}

/// The pieces of `s` between separators, trimmed, without those that are empty then.
pub fn split_list(s: &str, sep: char) -> (items: Vec<String>)
    ensures
        texts(items@) == list_items(s@, sep),
{
    let all = split_trimmed(s, sep);
    let ghost pieces = split(s@, sep);
    assert(texts(all@).len() == pieces.len());
    let mut items: Vec<String> = Vec::new();
    let mut i: usize = 0;
    assert(texts(items@) =~= trimmed_items(pieces.take(0)));
    while i < all.len()
        invariant
            i <= all@.len() == pieces.len(),
            texts(all@) == pieces.map_values(|piece: Seq<char>| trim(piece)),
            texts(items@) == trimmed_items(pieces.take(i as int)),
        decreases all@.len() - i,
    {
        let ghost before = items@;
        proof {
            assert(texts(all@)[i as int] == trim(pieces[i as int]));
            assert(pieces.take(i + 1).drop_last() == pieces.take(i as int));
            assert(pieces.take(i + 1).last() == pieces[i as int]);
        }
        if !all[i].as_str().is_empty() {
            items.push(all[i].clone());
            assert(texts(items@) =~= texts(before).push(all@[i as int]@));
        }
        i += 1;
    }
    assert(pieces.take(i as int) == pieces);
    items
}

/// The decimal digits of `n`.
pub fn decimal_text(n: usize) -> (s: String)
    ensures
        s@ == decimal(n as nat),
    decreases n,
{
    let digit: char = ((48 + n % 10) as u8) as char;
    if n < 10 {
        let mut s = String::new();
        s.push(digit);
        s
    } else {
        let mut s = decimal_text(n / 10);
        s.push(digit);
        s
    }
}

/// `a` followed by `b`.
pub fn cat(a: &str, b: &str) -> (s: String)
    ensures
        s@ == a@ + b@,
{
    let mut s = a.to_owned();
    s.append(b);
    s
}

/// `a`, `b` and `c`, one after the other.
pub fn cat3(a: &str, b: &str, c: &str) -> (s: String)
    ensures
        s@ == a@ + b@ + c@,
{
    let mut s = a.to_owned();
    s.append(b);
    s.append(c);
    s
}

/// The lines `parts`, separated by line breaks.
pub fn join_lines(parts: &Vec<String>) -> (s: String)
    ensures
        s@ == join(texts(parts@), seq!['\n']),
{
    let mut s = String::new();
    let mut i: usize = 0;
    while i < parts.len()
        invariant
            i <= parts@.len(),
            s@ == join(texts(parts@.take(i as int)), seq!['\n']),
        decreases parts@.len() - i,
    {
        let ghost before = s@;
        if i > 0 {
            s.push('\n');
        }
        s.append(parts[i].as_str());
        proof {
            let now = texts(parts@.take(i + 1));
            assert(now.drop_last() == texts(parts@.take(i as int)));
            assert(now.last() == parts@[i as int]@);
            if i == 0 {
                assert(s@ == parts@[0]@);
            } else {
                assert(before.push('\n') == before + seq!['\n']);
            }
        }
        i += 1;
    }
    assert(parts@.take(i as int) == parts@);
    s
}

/// The strings of `parts`, one after the other.
pub fn concat_all(parts: &Vec<String>) -> (s: String)
    ensures
        s@ == concat(texts(parts@)),
{
    let mut s = String::new();
    let mut i: usize = 0;
    while i < parts.len()
        invariant
            i <= parts@.len(),
            s@ == concat(texts(parts@.take(i as int))),
        decreases parts@.len() - i,
    {
        s.append(parts[i].as_str());
        proof {
            let now = texts(parts@.take(i + 1));
            assert(now.drop_last() == texts(parts@.take(i as int)));
            assert(now.last() == parts@[i as int]@);
        }
        i += 1;
    }
    assert(parts@.take(i as int) == parts@);
    s
}

/// A copy of a list of strings.
pub fn copy_texts(list: &Vec<String>) -> (copy: Vec<String>)
    ensures
        copy@ == list@,
{
    let mut copy: Vec<String> = Vec::new();
    let mut i: usize = 0;
    while i < list.len()
        invariant
            i <= list@.len(),
            copy@ == list@.take(i as int),
        decreases list@.len() - i,
    {
        copy.push(list[i].clone());
        assert(list@.take(i + 1) == list@.take(i as int).push(list@[i as int]));
        i += 1;
    }
    assert(list@.take(i as int) == list@);
    copy
}

} // verus!

//! What the functions on texts promise.

use crate::text::{
    concat, decimal, has_item, join, list_items, mended, name_text, replaced, split, texts, trim,
    trim_end, trim_start, trimmed_items, utf8_lossy, white_space,
};
use vstd::prelude::*;

verus! {

/// White space is what Unicode counts as such.
pub proof fn white_space_is_fixed(c: char)
    ensures
        white_space(c) == seq![
            '\t',
            '\n',
            '\u{b}',
            '\u{c}',
            '\r',
            ' ',
            '\u{85}',
            '\u{a0}',
            '\u{1680}',
            '\u{2000}',
            '\u{2001}',
            '\u{2002}',
            '\u{2003}',
            '\u{2004}',
            '\u{2005}',
            '\u{2006}',
            '\u{2007}',
            '\u{2008}',
            '\u{2009}',
            '\u{200a}',
            '\u{2028}',
            '\u{2029}',
            '\u{202f}',
            '\u{205f}',
            '\u{3000}',
        ].contains(c),
{
    let list = seq![
        '\t',
        '\n',
        '\u{b}',
        '\u{c}',
        '\r',
        ' ',
        '\u{85}',
        '\u{a0}',
        '\u{1680}',
        '\u{2000}',
        '\u{2001}',
        '\u{2002}',
        '\u{2003}',
        '\u{2004}',
        '\u{2005}',
        '\u{2006}',
        '\u{2007}',
        '\u{2008}',
        '\u{2009}',
        '\u{200a}',
        '\u{2028}',
        '\u{2029}',
        '\u{202f}',
        '\u{205f}',
        '\u{3000}',
    ];
    if white_space(c) {
        let n = c as u32;
        let i: int = if n <= 0xd {
            n - 9
        } else if n == 0x20 {
            5
        } else if n == 0x85 {
            6
        } else if n == 0xa0 {
            7
        } else if n == 0x1680 {
            8
        } else if n <= 0x200a {
            n - 0x2000 + 9
        } else if n == 0x2028 {
            20
        } else if n == 0x2029 {
            21
        } else if n == 0x202f {
            22
        } else if n == 0x205f {
            23
        } else {
            24
        };
        assert(list[i] as u32 == n);
        assert(list[i] == c);
    }
}

/// To trim a text takes off the white space at both its ends, and nothing else.
pub proof fn trim_leaves_the_core(before: Seq<char>, core: Seq<char>, after: Seq<char>)
    requires
        forall|i: int| 0 <= i < before.len() ==> white_space(#[trigger] before[i]),
        forall|i: int| 0 <= i < after.len() ==> white_space(#[trigger] after[i]),
        core.len() > 0 ==> !white_space(core[0]) && !white_space(core[core.len() - 1]),
    ensures
        trim(before + core + after) == core,
    decreases before.len(),
{
    let all = before + core + after;
    if before.len() > 0 {
        let rest = before.skip(1);
        assert forall|i: int| 0 <= i < rest.len() implies white_space(#[trigger] rest[i]) by {
            assert(rest[i] == before[i + 1]);
        }
        trim_leaves_the_core(rest, core, after);
        assert(all[0] == before[0]);
        assert(all.skip(1) =~= rest + core + after);
    } else if core.len() > 0 {
        assert(all[0] == core[0]);
        assert(all =~= core + after);
        trim_end_leaves_the_beginning(core, after);
    } else {
        assert(all =~= after);
        lemma_all_white(after);
        assert(core =~= Seq::<char>::empty());
    }
}

proof fn lemma_all_white(s: Seq<char>)
    requires
        forall|i: int| 0 <= i < s.len() ==> white_space(#[trigger] s[i]),
    ensures
        trim(s) == Seq::<char>::empty(),
    decreases s.len(),
{
    if s.len() > 0 {
        assert(white_space(s[0]));
        let rest = s.skip(1);
        assert forall|i: int| 0 <= i < rest.len() implies white_space(#[trigger] rest[i]) by {
            assert(rest[i] == s[i + 1]);
        }
        lemma_all_white(rest);
    } else {
        assert(s =~= Seq::<char>::empty());
        assert(trim_start(s) == s);
    }
}

/// To trim the end of a text takes off the white space there, and nothing else.
pub proof fn trim_end_leaves_the_beginning(core: Seq<char>, after: Seq<char>)
    requires
        forall|i: int| 0 <= i < after.len() ==> white_space(#[trigger] after[i]),
        core.len() > 0 ==> !white_space(core[core.len() - 1]),
    ensures
        trim_end(core + after) == core,
    decreases after.len(),
{
    let all = core + after;
    if after.len() > 0 {
        let rest = after.drop_last();
        assert forall|i: int| 0 <= i < rest.len() implies white_space(#[trigger] rest[i]) by {
            assert(rest[i] == after[i]);
        }
        trim_end_leaves_the_beginning(core, rest);
        assert(white_space(after[after.len() - 1]));
        assert(all.drop_last() =~= core + rest);
    } else {
        assert(all =~= core);
    }
}

/// A text without the separator is one piece.
pub proof fn one_piece(s: Seq<char>, sep: char)
    requires
        !s.contains(sep),
    ensures
        split(s, sep) == seq![s],
    decreases s.len(),
{
    if s.len() > 0 {
        let short = s.drop_last();
        assert(!short.contains(sep)) by {
            if short.contains(sep) {
                let i = choose|i: int| 0 <= i < short.len() && short[i] == sep;
                assert(s[i] == sep);
            }
        }
        one_piece(short, sep);
        assert(s.contains(s[s.len() - 1]));
        assert(short.push(s.last()) =~= s);
        assert(split(s, sep) =~= seq![s]);
    } else {
        assert(s =~= Seq::<char>::empty());
    }
}

/// Two texts with a separator between them have the pieces of the one and then those of the other.
pub proof fn pieces_add_up(s: Seq<char>, t: Seq<char>, sep: char)
    ensures
        split(s.push(sep) + t, sep) == split(s, sep) + split(t, sep),
        split(s, sep).len() > 0,
{
    crate::cli_laws::lemma_split_two(s, t, sep);
    crate::cli_laws::lemma_some_piece(s, sep);
}

/// A text without the separator is a list of one item, the text without the white space around it,
/// or, where it is nothing but white space, of none.
pub proof fn one_item(before: Seq<char>, core: Seq<char>, after: Seq<char>, sep: char)
    requires
        forall|i: int| 0 <= i < before.len() ==> white_space(#[trigger] before[i]),
        forall|i: int| 0 <= i < after.len() ==> white_space(#[trigger] after[i]),
        core.len() > 0 ==> !white_space(core[0]) && !white_space(core[core.len() - 1]),
        !(before + core + after).contains(sep),
    ensures
        list_items(before + core + after, sep) == if core.len() > 0 {
            seq![core]
        } else {
            Seq::empty()
        },
{
    let s = before + core + after;
    one_piece(s, sep);
    trim_leaves_the_core(before, core, after);
    let none = seq![s].drop_last();
    assert(none.len() == 0);
    assert(trimmed_items(none) =~= Seq::<Seq<char>>::empty());
    assert(list_items(s, sep) =~= if core.len() > 0 {
        seq![core]
    } else {
        Seq::empty()
    });
}

/// A text without the separator that is not blank is a list of exactly one item.
pub proof fn plain_text_is_one_item(s: Seq<char>, sep: char)
    requires
        !s.contains(sep),
        trim(s).len() > 0,
    ensures
        list_items(s, sep) == seq![trim(s)],
{
    one_piece(s, sep);
    let none = seq![s].drop_last();
    assert(none.len() == 0);
    assert(trimmed_items(none) =~= Seq::<Seq<char>>::empty());
    assert(list_items(s, sep) =~= seq![trim(s)]);
}

/// A list holds an item exactly where one of its two halves does; a text without the separator holds
/// the one that it is without the white space around it.
pub proof fn items_of_halves(s: Seq<char>, t: Seq<char>, sep: char, item: Seq<char>)
    ensures
        has_item(s.push(sep) + t, sep, item) == (has_item(s, sep, item) || has_item(t, sep, item)),
        !s.contains(sep) ==> has_item(s, sep, item) == (trim(s) == item),
{
    pieces_add_up(s, t, sep);
    let x = split(s, sep);
    let y = split(t, sep);
    let all = split(s.push(sep) + t, sep);
    if has_item(s, sep, item) {
        let i = choose|i: int| 0 <= i < x.len() && trim(#[trigger] x[i]) == item;
        assert(all[i] == x[i]);
    }
    if has_item(t, sep, item) {
        let i = choose|i: int| 0 <= i < y.len() && trim(#[trigger] y[i]) == item;
        assert(all[x.len() + i] == y[i]);
    }
    if has_item(s.push(sep) + t, sep, item) {
        let i = choose|i: int| 0 <= i < all.len() && trim(#[trigger] all[i]) == item;
        if i < x.len() {
            assert(x[i] == all[i]);
        } else {
            assert(y[i - x.len()] == all[i]);
        }
    }
    if !s.contains(sep) {
        one_piece(s, sep);
        if trim(s) == item {
            assert(x[0] == s);
        }
    }
}

/// Lines that are joined are found again, all of them and in order.
pub proof fn joined_lines_come_apart(lines: Seq<Seq<char>>, sep: char)
    requires
        lines.len() > 0,
        forall|i: int| 0 <= i < lines.len() ==> !(#[trigger] lines[i]).contains(sep),
    ensures
        split(join(lines, seq![sep]), sep) == lines,
    decreases lines.len(),
{
    let last = lines[lines.len() - 1];
    one_piece(last, sep);
    if lines.len() == 1 {
        assert(lines =~= seq![last]);
    } else {
        let short = lines.drop_last();
        assert forall|i: int| 0 <= i < short.len() implies !(#[trigger] short[i]).contains(sep) by {
            assert(short[i] == lines[i]);
        }
        joined_lines_come_apart(short, sep);
        let s = join(short, seq![sep]);
        pieces_add_up(s, last, sep);
        assert(s + seq![sep] + last =~= s.push(sep) + last);
        assert(short + seq![last] =~= lines);
    }
}

/// To join lines puts exactly one separator between two.
pub proof fn lines_are_joined(lines: Seq<Seq<char>>, line: Seq<char>, sep: Seq<char>)
    ensures
        join(Seq::<Seq<char>>::empty(), sep) == Seq::<char>::empty(),
        join(seq![line], sep) == line,
        lines.len() > 0 ==> join(lines.push(line), sep) == join(lines, sep) + sep + line,
{
    assert(lines.push(line).drop_last() =~= lines);
}

/// The texts of a list, one after the other.
pub proof fn texts_follow_each_other(list: Seq<Seq<char>>, more: Seq<Seq<char>>)
    ensures
        concat(list + more) == concat(list) + concat(more),
        list.len() == 1 ==> concat(list) == list[0],
        list.len() == 0 ==> concat(list) == Seq::<char>::empty(),
    decreases more.len(),
{
    if more.len() == 0 {
        assert(list + more =~= list);
        assert(concat(list) + concat(more) =~= concat(list));
    } else {
        assert((list + more).drop_last() =~= list + more.drop_last());
        texts_follow_each_other(list, more.drop_last());
        assert(concat(list + more) =~= concat(list) + concat(more));
    }
    if list.len() == 1 {
        assert(concat(list.drop_last()) =~= Seq::<char>::empty());
        assert(concat(list) =~= list[0]);
    }
}

/// To replace a character leaves all others in their places.
pub proof fn replacing_touches_one_character(s: Seq<char>, from: char, to: char, i: int)
    requires
        0 <= i < s.len(),
    ensures
        replaced(s, from, to).len() == s.len(),
        s[i] == from ==> replaced(s, from, to)[i] == to,
        s[i] != from ==> replaced(s, from, to)[i] == s[i],
{
}

/// A number is written with the digits of its tens, and then the digit of its ones.
pub proof fn numbers_are_written_in_tens(n: nat, d: nat)
    requires
        d < 10,
    ensures
        n > 0 ==> decimal(10 * n + d) == decimal(n) + decimal(d),
        decimal(d) == seq![seq!['0', '1', '2', '3', '4', '5', '6', '7', '8', '9'][d as int]],
{
    let digits = seq!['0', '1', '2', '3', '4', '5', '6', '7', '8', '9'];
    assert(decimal(d) =~= seq![digits[d as int]]);
    if n > 0 {
        let m = 10 * n + d;
        assert(m / 10 == n && m % 10 == d);
        assert(decimal(m) =~= decimal(n) + decimal(d));
    }
}

/// The texts of strings, one by one.
pub proof fn texts_are_those_of_the_strings(list: Seq<String>, i: int)
    requires
        0 <= i < list.len(),
    ensures
        texts(list).len() == list.len(),
        texts(list)[i] == list[i]@,
{
}

/// Bytes without the mark of a surrogate stand as they are.
proof fn lemma_mended_plain(a: Seq<u8>, b: Seq<u8>)
    requires
        !a.contains(0xedu8),
    ensures
        mended(a + b) == a + mended(b),
    decreases a.len(),
{
    if a.len() == 0 {
        assert(a + b =~= b);
        assert(a + mended(b) =~= mended(b));
    } else {
        let rest = a.skip(1);
        assert(a.contains(a[0]));
        assert(!rest.contains(0xedu8)) by {
            if rest.contains(0xedu8) {
                let i = choose|i: int| 0 <= i < rest.len() && rest[i] == 0xedu8;
                assert(a[i + 1] == 0xedu8);
            }
        }
        lemma_mended_plain(rest, b);
        assert((a + b).skip(1) =~= rest + b);
        assert((a + b)[0] == a[0]);
        assert(mended(a + b) =~= a + mended(b));
    }
}

/// The text of a name that is not wide is that of its bytes, and so is that of a wide one without
/// surrogates.
pub proof fn plain_names_are_read_as_they_are(wide: bool, bytes: Seq<u8>)
    requires
        !wide || !bytes.contains(0xedu8),
    ensures
        name_text(wide, bytes) == utf8_lossy(bytes),
{
    if wide {
        let none = Seq::<u8>::empty();
        lemma_mended_plain(bytes, none);
        assert(bytes + none =~= bytes);
        assert(mended(none) =~= none);
        assert(bytes + mended(none) =~= bytes);
    }
}

/// In a wide name every surrogate, which takes three bytes, is read as the replacement character;
/// other bytes after the same first one stay.
pub proof fn surrogates_are_replaced(a: Seq<u8>, x: u8, y: u8, b: Seq<u8>)
    requires
        !a.contains(0xedu8),
    ensures
        name_text(true, a + seq![0xedu8, x, y] + b) == if x >= 0xa0 {
            utf8_lossy(a + seq![0xefu8, 0xbfu8, 0xbdu8] + mended(b))
        } else {
            utf8_lossy(a + seq![0xedu8] + mended(seq![x, y] + b))
        },
        mended(Seq::<u8>::empty()) == Seq::<u8>::empty(),
{
    let c = seq![0xedu8, x, y] + b;
    lemma_mended_plain(a, c);
    assert(a + seq![0xedu8, x, y] + b =~= a + c);
    assert(c[0] == 0xed && c[1] == x);
    assert(c.skip(3) =~= b);
    assert(c.skip(1) =~= seq![x, y] + b);
    if x >= 0xa0 {
        assert(a + mended(c) =~= a + seq![0xefu8, 0xbfu8, 0xbdu8] + mended(b));
    } else {
        assert(a + mended(c) =~= a + seq![0xedu8] + mended(seq![x, y] + b));
    }
}

} // verus!

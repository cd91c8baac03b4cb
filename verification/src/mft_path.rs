//! Windows paths as texts, as the entries of a file table are matched with each other.

use crate::text::{from_chars, lowercase, to_chars, to_lowercase};
use vstd::prelude::*;
use vstd::string::*;

verus! {

/// Whether `s` begins with `prefix`.
pub open spec fn begins(s: Seq<char>, prefix: Seq<char>) -> bool {
    prefix.len() <= s.len() && s.take(prefix.len() as int) == prefix
}

/// Whether `s` ends with `c`.
pub open spec fn ends(s: Seq<char>, c: char) -> bool {
    s.len() > 0 && s.last() == c
}

/// Whether the path `q` lies below the path `root`: it goes on from it with a new name.
pub open spec fn below(q: Seq<char>, root: Seq<char>) -> bool {
    &&& begins(q, root)
    &&& q != root
    &&& ends(root, '\\') || q[root.len() as int] == '\\'
}

/// Whether `s` ends like the root of a drive, with `:\`.
pub open spec fn ends_at_drive(s: Seq<char>) -> bool {
    s.len() > 1 && s[s.len() - 1] == '\\' && s[s.len() - 2] == ':'
}

/// `s` without the `c` at its end, however many there are.
pub open spec fn strip_end(s: Seq<char>, c: char) -> Seq<char>
    decreases s.len(),
{
    if ends(s, c) {
        strip_end(s.drop_last(), c)
    } else {
        s
    }
}

/// The place of the last `\` in `s`, or -1.
pub open spec fn last_slash(s: Seq<char>) -> int
    decreases s.len(),
{
    if s.len() == 0 {
        -1
    } else if s.last() == '\\' {
        s.len() - 1
    } else {
        last_slash(s.drop_last())
    }
}

/// How many `\` there are in `s`.
pub open spec fn slashes(s: Seq<char>) -> nat
    decreases s.len(),
{
    if s.len() == 0 {
        0
    } else {
        slashes(s.drop_last()) + if s.last() == '\\' {
            1nat
        } else {
            0nat
        }
    }
}

/// The folder that a path lies in; the root of a drive keeps its `\`.
pub open spec fn folder_of(s: Seq<char>) -> Option<Seq<char>> {
    let i = last_slash(s);
    if i < 0 {
        None
    } else if i > 0 && s[i - 1] == ':' {
        Some(s.take(i + 1))
    } else {
        Some(s.take(i))
    }
}

/// The folders above a path, from the nearest up to the root of the drive.
pub open spec fn folders_above(s: Seq<char>) -> Seq<Seq<char>>
    decreases s.len(),
{
    proof {
        folder_is_a_beginning(s);
    }
    match folder_of(s) {
        None => Seq::empty(),
        Some(p) => if p.len() == 0 {
            Seq::empty()
        } else if ends_at_drive(p) {
            seq![p]
        } else {
            seq![p] + folders_above(p)
        },
    }
}

/// The key by which a path is found again: its lowercase text, without a `\` at the end unless it
/// is the root of a drive.
pub open spec fn path_key(text: Seq<char>) -> Seq<char> {
    let s = lowercase(text);
    if ends(s, '\\') && !ends_at_drive(s) {
        strip_end(s, '\\')
    } else {
        s
    }
}

pub(crate) proof fn lemma_last_slash(s: Seq<char>)
    ensures
        -1 <= last_slash(s) < s.len(),
        last_slash(s) >= 0 ==> s[last_slash(s)] == '\\',
        forall|j: int| last_slash(s) < j < s.len() ==> s[j] != '\\',
    decreases s.len(),
{
    if s.len() > 0 && s.last() != '\\' {
        lemma_last_slash(s.drop_last());
        assert forall|j: int| last_slash(s) < j < s.len() implies s[j] != '\\' by {
            if j < s.len() - 1 {
                assert(s.drop_last()[j] == s[j]);
            }
        }
    }
}

/// The folder of a path is a shorter beginning of it, or the root of a drive.
pub proof fn folder_is_a_beginning(s: Seq<char>)
    ensures
        folder_of(s) matches Some(p) ==> {
            &&& begins(s, p)
            &&& p.len() < s.len() || ends_at_drive(p)
        },
{
    lemma_last_slash(s);
}

proof fn lemma_last_slash_at(s: Seq<char>, i: int)
    requires
        0 <= i < s.len(),
        s[i] == '\\',
        forall|j: int| i < j < s.len() ==> s[j] != '\\',
    ensures
        last_slash(s) == i,
{
    lemma_last_slash(s);
}

/// Whether `s` begins with `prefix`.
pub fn begins_with(s: &str, prefix: &str) -> (r: bool)
    ensures
        r == begins(s@, prefix@),
{
    let a = to_chars(s);
    let b = to_chars(prefix);
    if b.len() > a.len() {
        return false;
    }
    let mut i: usize = 0;
    while i < b.len()
        invariant
            i <= b@.len() <= a@.len(),
            a@ == s@,
            b@ == prefix@,
            forall|j: int| 0 <= j < i ==> a@[j] == b@[j],
        decreases b@.len() - i,
    {
        if a[i] != b[i] {
            assert(s@.take(b@.len() as int)[i as int] != prefix@[i as int]);
            return false;
        }
        i += 1;
    }
    assert(s@.take(b@.len() as int) == prefix@);
    true
}

/// Whether the path `q` lies below the path `root`.
pub fn is_below(q: &str, root: &str) -> (r: bool)
    ensures
        r == below(q@, root@),
{
    if !begins_with(q, root) {
        return false;
    }
    let a = to_chars(q);
    let b = to_chars(root);
    let n = b.len();
    if a.len() == n {
        assert(q@.take(n as int) == q@);
        return false;
    }
    (n > 0 && b[n - 1] == '\\') || a[n] == '\\'
}

/// Whether `s` ends like the root of a drive.
pub fn is_at_drive(s: &str) -> (r: bool)
    ensures
        r == ends_at_drive(s@),
{
    let chars = to_chars(s);
    let n = chars.len();
    n > 1 && chars[n - 1] == '\\' && chars[n - 2] == ':'
}

proof fn lemma_strip_end(s: Seq<char>, c: char, k: int)
    requires
        0 <= k <= s.len(),
        forall|i: int| k <= i < s.len() ==> s[i] == c,
        k == 0 || s[k - 1] != c,
    ensures
        strip_end(s, c) == s.take(k),
    decreases s.len(),
{
    if k < s.len() {
        lemma_strip_end(s.drop_last(), c, k);
        assert(s.drop_last().take(k) == s.take(k));
    } else {
        assert(s.take(k) == s);
    }
}

/// `s` without the `c` at its end.
pub fn stripped_end(s: &str, c: char) -> (r: String)
    ensures
        r@ == strip_end(s@, c),
{
    let chars = to_chars(s);
    let mut k: usize = chars.len();
    while k > 0 && chars[k - 1] == c
        invariant
            k <= chars@.len(),
            chars@ == s@,
            forall|i: int| k <= i < s@.len() ==> s@[i] == c,
        ensures
            k == 0 || chars@[k - 1] != c,
        decreases k,
    {
        k -= 1;
    }
    proof {
        lemma_strip_end(s@, c, k as int);
        assert(chars@.subrange(0, k as int) == s@.take(k as int));
    }
    from_chars(&chars, 0, k)
}

/// The key by which a path is found again.
pub fn make_path_key(text: &str) -> (key: String)
    ensures
        key@ == path_key(text@),
{
    let s = to_lowercase(text);
    let chars = to_chars(s.as_str());
    let n = chars.len();
    if n > 0 && chars[n - 1] == '\\' && !is_at_drive(s.as_str()) {
        stripped_end(s.as_str(), '\\')
    } else {
        s
    }
}

/// The folder that a path lies in.
pub fn folder(s: &str) -> (r: Option<String>)
    ensures
        match r {
            Some(p) => folder_of(s@) == Some(p@),
            None => folder_of(s@) is None,
        },
{
    let chars = to_chars(s);
    let mut i: usize = chars.len();
    while i > 0
        invariant
            i <= chars@.len(),
            chars@ == s@,
            forall|j: int| i <= j < s@.len() ==> s@[j] != '\\',
        decreases i,
    {
        i -= 1;
        if chars[i] == '\\' {
            proof {
                lemma_last_slash_at(s@, i as int);
                assert(chars@.subrange(0, i as int) == s@.take(i as int));
                assert(chars@.subrange(0, i + 1) == s@.take(i + 1));
            }
            if i > 0 && chars[i - 1] == ':' {
                return Some(from_chars(&chars, 0, i + 1));
            }
            return Some(from_chars(&chars, 0, i));
        }
    }
    proof {
        lemma_last_slash(s@);
    }
    None
}

/// How many `\` there are in `s`.
pub fn count_slashes(s: &str) -> (n: usize)
    ensures
        n == slashes(s@),
{
    let chars = to_chars(s);
    let mut n: usize = 0;
    let mut i: usize = 0;
    assert(s@.take(0) == Seq::<char>::empty());
    while i < chars.len()
        invariant
            i <= chars@.len(),
            chars@ == s@,
            n == slashes(s@.take(i as int)),
            n <= i,
        decreases chars@.len() - i,
    {
        assert(s@.take(i + 1).drop_last() == s@.take(i as int));
        if chars[i] == '\\' {
            n += 1;
        }
        i += 1;
    }
    assert(s@.take(i as int) == s@);
    n
}

/// The folder of a path has fewer `\` than the path, unless it is the root of a drive.
pub proof fn folder_has_fewer_slashes(s: Seq<char>)
    requires
        folder_of(s) is Some,
        !ends_at_drive(folder_of(s)->0),
    ensures
        slashes(folder_of(s)->0) < slashes(s),
{
    lemma_last_slash(s);
    lemma_slashes_split(s, last_slash(s));
}

/// A beginning of a text has no more `\` than the text.
pub proof fn beginning_has_no_more_slashes(s: Seq<char>, prefix: Seq<char>)
    requires
        begins(s, prefix),
    ensures
        slashes(prefix) <= slashes(s),
    decreases s.len(),
{
    let n = prefix.len() as int;
    if n < s.len() {
        assert(s.drop_last().take(n) == s.take(n));
        beginning_has_no_more_slashes(s.drop_last(), prefix);
    } else {
        assert(s.take(n) == s);
    }
}

proof fn lemma_slashes_split(s: Seq<char>, i: int)
    requires
        0 <= i < s.len(),
        s[i] == '\\',
    ensures
        slashes(s.take(i)) < slashes(s),
    decreases s.len(),
{
    if i == s.len() - 1 {
        assert(s.take(i) == s.drop_last());
    } else {
        lemma_slashes_split(s.drop_last(), i);
        assert(s.drop_last().take(i) == s.take(i));
    }
}

} // verus!

//! Which drive a file table belongs to, and its paths with that drive in front.

use crate::mft_path::{begins, begins_with, strip_end, stripped_end};
use crate::text::{
    cat, cat3, contains_char, find_first, first_at, from_chars, has_char, lowercase, occurs_at,
    to_chars, to_lowercase,
};
use vstd::prelude::*;
use vstd::string::*;

verus! {

/// What the path of a directory to scan begins with.
pub enum VolumePrefix {
    /// A drive letter, as a byte.
    Disk(u8),
    /// A network share.
    Network,
    /// Another kind of device.
    Device,
    /// Nothing of the kind.
    Missing,
}

/// Whether `c` is an ASCII letter.
pub open spec fn ascii_letter(c: char) -> bool {
    ('a' <= c && c <= 'z') || ('A' <= c && c <= 'Z')
}

/// The text that should be a drive letter, where the prefix leaves it open whether it is one.
pub open spec fn letter_text(prefix: VolumePrefix, first: Option<String>) -> Option<Seq<char>> {
    match prefix {
        VolumePrefix::Disk(b) => Some(seq![b as char]),
        VolumePrefix::Missing => match first {
            Some(s) => Some(strip_end(strip_end(s@, '\\'), ':')),
            None => None,
        },
        _ => None,
    }
}

/// Whether `r` is the drive letter of a directory to scan, or says why it has none.
pub open spec fn is_drive_letter(
    prefix: VolumePrefix,
    first: Option<String>,
    r: Result<char, String>,
) -> bool {
    match prefix {
        VolumePrefix::Network => r matches Err(e) && e@
            == "Direct MFT Scan is not supported on network UNC shares."@,
        VolumePrefix::Device => r matches Err(e) && e@
            == "Direct MFT Scan is not supported on this type of device volume."@,
        _ => match letter_text(prefix, first) {
            None => r matches Err(e) && e@ == "Failed to parse volume drive letter from path"@,
            Some(t) => if t.len() == 1 && ascii_letter(t[0]) {
                r == Ok::<char, String>(t[0])
            } else {
                r matches Err(e) && e@ == "Invalid drive letter extracted: '"@ + t
                    + "'. Direct MFT Scan requires a local disk drive (e.g., C:)."@
            },
        },
    }
}

/// The drive letter of a directory to scan, from the prefix of its full path and, where that has
/// none, the first component of the path as it was given.
pub fn drive_letter(prefix: VolumePrefix, first: Option<String>) -> (r: Result<char, String>)
    ensures
        is_drive_letter(prefix, first, r),
{
    let text = match prefix {
        VolumePrefix::Disk(b) => {
            let mut s = String::new();
            s.push(b as char);
            assert(s@ == seq![b as char]);
            s
        },
        VolumePrefix::Network => {
            return Err("Direct MFT Scan is not supported on network UNC shares.".to_owned());
        },
        VolumePrefix::Device => {
            return Err("Direct MFT Scan is not supported on this type of device volume.".to_owned());
        },
        VolumePrefix::Missing => match first {
            Some(s) => {
                let t = stripped_end(s.as_str(), '\\');
                stripped_end(t.as_str(), ':')
            },
            None => {
                return Err("Failed to parse volume drive letter from path".to_owned());
            },
        },
    };
    let chars = to_chars(text.as_str());
    if chars.len() == 1 {
        let c = chars[0];
        if ('a' <= c && c <= 'z') || ('A' <= c && c <= 'Z') {
            return Ok(c);
        }
    }
    Err(
        cat3(
            "Invalid drive letter extracted: '",
            text.as_str(),
            "'. Direct MFT Scan requires a local disk drive (e.g., C:).",
        ),
    )
}

/// The root of a drive: the letter, `:` and `\`.
pub open spec fn drive_root(letter: char) -> Seq<char> {
    seq![letter, ':', '\\']
}

/// The root of a drive.
pub fn make_drive_root(letter: char) -> (s: String)
    ensures
        s@ == drive_root(letter),
{
    let mut s = String::new();
    s.push(letter);
    s.push(':');
    s.push('\\');
    assert(s@ == drive_root(letter));
    s
}

/// The name under which the volume of a drive is opened.
pub fn volume_name(letter: char) -> (s: String)
    ensures
        s@ == seq!['\\', '\\', '.', '\\', letter, ':'],
{
    let mut s = String::new();
    s.push('\\');
    s.push('\\');
    s.push('.');
    s.push('\\');
    s.push(letter);
    s.push(':');
    assert(s@ == seq!['\\', '\\', '.', '\\', letter, ':']);
    s
}

/// The report that a volume could not be opened.
pub fn volume_error(error: &str) -> (s: String)
    ensures
        s@ == "Failed to open physical NTFS volume (Requires Administrator privileges): "@ + error@,
{
    cat("Failed to open physical NTFS volume (Requires Administrator privileges): ", error)
}

/// The report that the file table could not be read.
pub fn table_error(error: &str) -> (s: String)
    ensures
        s@ == "Failed to initialize Master File Table parser: "@ + error@,
{
    cat("Failed to initialize Master File Table parser: ", error)
}

/// How the path of a file table entry becomes a whole path.
#[derive(PartialEq, Eq, Structural, Clone, Copy, Debug)]
pub enum RawPath {
    /// It starts at the root of the volume: without its first `\` it goes behind the drive root.
    FromRoot,
    /// It has no drive: it goes behind the drive root.
    Relative,
    /// It is whole.
    Whole,
}

/// How the path of a file table entry becomes a whole path.
pub open spec fn raw_form(raw: Seq<char>) -> RawPath {
    if begins(raw, seq!['\\']) && !begins(raw, seq!['\\', '\\', '.', '\\']) {
        RawPath::FromRoot
    } else if !has_char(raw, ':') {
        RawPath::Relative
    } else {
        RawPath::Whole
    }
}

/// How the path of a file table entry becomes a whole path.
pub fn raw_path_form(raw: &str) -> (form: RawPath)
    ensures
        form == raw_form(raw@),
{
    proof {
        reveal_strlit("\\");
        reveal_strlit("\\\\.\\");
        assert("\\"@ == seq!['\\']);
        assert("\\\\.\\"@ == seq!['\\', '\\', '.', '\\']);
    }
    if begins_with(raw, "\\") && !begins_with(raw, "\\\\.\\") {
        RawPath::FromRoot
    } else if !contains_char(raw, ':') {
        RawPath::Relative
    } else {
        RawPath::Whole
    }
}

/// How many bytes `c` takes in UTF-8.
pub open spec fn char_bytes(c: char) -> nat {
    if (c as u32) < 0x80 {
        1
    } else if (c as u32) < 0x800 {
        2
    } else if (c as u32) < 0x10000 {
        3
    } else {
        4
    }
}

/// How many bytes `s` takes in UTF-8.
pub open spec fn byte_len(s: Seq<char>) -> nat
    decreases s.len(),
{
    if s.len() == 0 {
        0
    } else {
        byte_len(s.drop_last()) + char_bytes(s.last())
    }
}

/// Whether the character `j` of `text` begins at the byte where the character `i` of `other` does.
pub open spec fn same_byte(text: Seq<char>, j: int, other: Seq<char>, i: int) -> bool {
    0 <= j <= text.len() && byte_len(text.take(j)) == byte_len(other.take(i))
}

fn bytes_of(c: char) -> (n: u128)
    ensures
        n == char_bytes(c),
{
    let code = c as u32;
    if code < 0x80 {
        1
    } else if code < 0x800 {
        2
    } else if code < 0x10000 {
        3
    } else {
        4
    }
}

proof fn lemma_byte_len_grows(s: Seq<char>, i: int, j: int)
    requires
        0 <= i < j <= s.len(),
    ensures
        byte_len(s.take(i)) < byte_len(s.take(j)),
    decreases j - i,
{
    assert(s.take(j).drop_last() == s.take(j - 1));
    if i < j - 1 {
        lemma_byte_len_grows(s, i, j - 1);
    }
}

/// The place of the character of `text` that begins at the byte where the character `i` of
/// `other` does.
fn find_same_byte(text: &Vec<char>, other: &Vec<char>, i: usize) -> (r: Option<usize>)
    requires
        i <= other@.len(),
    ensures
        match r {
            Some(j) => same_byte(text@, j as int, other@, i as int),
            None => forall|j: int| !#[trigger] same_byte(text@, j, other@, i as int),
        },
{
    let mut target: u128 = 0;
    let mut k: usize = 0;
    assert(other@.take(0) == Seq::<char>::empty());
    while k < i
        invariant
            k <= i <= other@.len(),
            target == byte_len(other@.take(k as int)),
            target <= 4 * k,
        decreases i - k,
    {
        assert(other@.take(k + 1).drop_last() == other@.take(k as int));
        target = target + bytes_of(other[k]);
        k += 1;
    }
    let mut here: u128 = 0;
    let mut j: usize = 0;
    assert(text@.take(0) == Seq::<char>::empty());
    while j < text.len() && here < target
        invariant
            j <= text@.len(),
            i <= other@.len(),
            target == byte_len(other@.take(i as int)),
            here == byte_len(text@.take(j as int)),
            here <= 4 * j,
            forall|m: int| 0 <= m < j ==> byte_len(#[trigger] text@.take(m)) < target,
        ensures
            j == text@.len() || here >= target,
        decreases text@.len() - j,
    {
        assert(text@.take(j + 1).drop_last() == text@.take(j as int));
        here = here + bytes_of(text[j]);
        j += 1;
    }
    if here == target {
        Some(j)
    } else {
        proof {
            assert forall|m: int| !#[trigger] same_byte(text@, m, other@, i as int) by {
                if j < m <= text@.len() {
                    lemma_byte_len_grows(text@, j as int, m);
                }
                if m == j {
                    assert(byte_len(text@.take(m)) == here);
                }
            }
        }
        None
    }
}

/// `text` from the byte on where `target` first stands in `lower`; all of it where `target` does
/// not stand there.
pub fn cut_at(text: &str, lower: &str, target: &str) -> (r: String)
    requires
        forall|i: int|
            first_at(lower@, target@, i) ==> exists|j: int| #[trigger]
                same_byte(text@, j, lower@, i),
    ensures
        forall|i: int, j: int|
            first_at(lower@, target@, i) && #[trigger] same_byte(text@, j, lower@, i) ==> r@
                == text@.skip(j),
        (forall|i: int| !#[trigger] occurs_at(lower@, target@, i)) ==> r@ == text@,
{
    let chars = to_chars(text);
    let low = to_chars(lower);
    let sought = to_chars(target);
    match find_first(&low, &sought) {
        None => {
            let n = chars.len();
            assert(chars@.subrange(0, n as int) == text@);
            from_chars(&chars, 0, n)
        },
        Some(i) => {
            assert(first_at(lower@, target@, i as int));
            match find_same_byte(&chars, &low, i) {
                Some(j) => {
                    let n = chars.len();
                    proof {
                        assert(chars@.subrange(j as int, n as int) == text@.skip(j as int));
                        assert forall|k: int, m: int|
                            first_at(lower@, target@, k) && #[trigger] same_byte(
                                text@,
                                m,
                                lower@,
                                k,
                            ) implies m == j by {
                            assert(k == i) by {
                                if k < i {
                                    assert(occurs_at(lower@, target@, k));
                                } else if i < k {
                                    assert(occurs_at(lower@, target@, i as int));
                                }
                            }
                            if m < j {
                                lemma_byte_len_grows(text@, m, j as int);
                            } else if j < m {
                                lemma_byte_len_grows(text@, j as int, m);
                            }
                        }
                    }
                    from_chars(&chars, j, n)
                },
                None => {
                    assert(false);
                    String::new()
                },
            }
        },
    }
}

/// `text` from the root of the drive on, if it holds one, in whatever case; all of it if not.
/// `None` where the drive root stands, in the lowercase text, at a byte that is not the beginning
/// of a character of `text`.
pub fn from_drive_root(text: &str, letter: char) -> (r: Option<String>)
    ensures
        ({
            let lower = lowercase(text@);
            let target = lowercase(drive_root(letter));
            &&& r is None == exists|i: int|
                first_at(lower, target, i) && !exists|j: int| #[trigger]
                    same_byte(text@, j, lower, i)
            &&& r matches Some(s) ==> forall|i: int, j: int|
                first_at(lower, target, i) && #[trigger] same_byte(text@, j, lower, i) ==> s@
                    == text@.skip(j)
            &&& r matches Some(s) ==> (forall|i: int| !#[trigger] occurs_at(lower, target, i))
                ==> s@ == text@
        }),
{
    let root = make_drive_root(letter);
    let target = to_lowercase(root.as_str());
    let lower = to_lowercase(text);
    let chars = to_chars(text);
    let low = to_chars(lower.as_str());
    let sought = to_chars(target.as_str());
    if let Some(i) = find_first(&low, &sought) {
        assert forall|k: int| first_at(lower@, target@, k) implies k == i by {
            if k < i {
                assert(occurs_at(lower@, target@, k));
            } else if i < k {
                assert(occurs_at(lower@, target@, i as int));
            }
        }
        match find_same_byte(&chars, &low, i) {
            None => {
                assert(first_at(lower@, target@, i as int));
                return None;
            },
            Some(j) => {
                assert(same_byte(text@, j as int, lower@, i as int));
            },
        }
    }
    Some(cut_at(text, lower.as_str(), target.as_str()))
}

} // verus!

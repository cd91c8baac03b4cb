//! What the program takes for the drive of a path, and what it asks of the operating system.

use crate::mft_drive::{
    ascii_letter, byte_len, char_bytes, drive_root, is_drive_letter, letter_text, raw_form,
    same_byte, RawPath, VolumePrefix,
};
use crate::mft_path::strip_end;
use crate::sys::{background_key, folder_key, menu_command, RegistryValue};
use crate::table_laws::stripping_leaves_the_core;
use crate::text::{first_at, has_char, occurs_at};
use vstd::prelude::*;

verus! {

/// A drive is named by its letter: by the byte of the prefix, or by the first component of the path
/// without the `\` and then the `:` at its end. Shares and other devices have none.
pub proof fn drive_is_named_by_its_letter(byte: u8, first: Option<String>, core: Seq<char>, n: nat, m: nat)
    ensures
        letter_text(VolumePrefix::Disk(byte), first) == Some(seq![byte as char]),
        letter_text(VolumePrefix::Network, first) is None,
        letter_text(VolumePrefix::Device, first) is None,
        first is None ==> letter_text(VolumePrefix::Missing, first) is None,
        (first matches Some(s) && s@ == core + Seq::new(n, |i: int| ':') + Seq::new(m, |i: int| '\\'))
            && (core.len() > 0 ==> core[core.len() - 1] != ':') && (n == 0 && core.len() > 0
            ==> core[core.len() - 1] != '\\') ==> letter_text(VolumePrefix::Missing, first) == Some(
            core,
        ),
{
    if (core.len() > 0 ==> core[core.len() - 1] != ':') && (n == 0 && core.len() > 0
        ==> core[core.len() - 1] != '\\') {
        let mid = core + Seq::new(n, |i: int| ':');
        stripping_leaves_the_core(mid, '\\', m);
        stripping_leaves_the_core(core, ':', n);
        if let Some(s) = first {
            if s@ == mid + Seq::new(m, |i: int| '\\') {
                assert(strip_end(s@, '\\') == mid);
            }
        }
    }
}

/// The letters of drives are those from A to Z, large or small.
pub proof fn drive_letters_are_ascii(c: char)
    ensures
        ascii_letter(c) <==> (65 <= c as u32 && c as u32 <= 90) || (97 <= c as u32 && c as u32
            <= 122),
        drive_root(c) == seq![c, ':', '\\'],
{
}

/// A path of the table that begins with `\`, but not as that of a device does, starts at the root of
/// the volume; any other without `:` goes behind the root of the drive; the rest are whole.
pub proof fn paths_of_the_table(raw: Seq<char>, rest: Seq<char>)
    ensures
        raw == seq!['\\'] + rest && !(rest.len() >= 3 && rest[0] == '\\' && rest[1] == '.' && rest[2]
            == '\\') ==> raw_form(raw) == RawPath::FromRoot,
        raw == seq!['\\'] + rest && rest.len() >= 3 && rest[0] == '\\' && rest[1] == '.' && rest[2]
            == '\\' ==> raw_form(raw) == (if raw.contains(':') {
            RawPath::Whole
        } else {
            RawPath::Relative
        }),
        raw.len() == 0 || raw[0] != '\\' ==> raw_form(raw) == (if raw.contains(':') {
            RawPath::Whole
        } else {
            RawPath::Relative
        }),
{
    assert(has_char(raw, ':') == raw.contains(':'));
    let one = seq!['\\'];
    let four = seq!['\\', '\\', '.', '\\'];
    if raw.len() >= 1 {
        if raw[0] == '\\' {
            assert(raw.take(1) =~= one);
        } else {
            assert(raw.take(1)[0] == raw[0]);
            assert(raw.take(1) != one);
        }
    }
    if raw == seq!['\\'] + rest {
        assert(raw[0] == '\\');
        if raw.len() >= 4 {
            assert(raw[1] == rest[0] && raw[2] == rest[1] && raw[3] == rest[2]);
            if rest[0] == '\\' && rest[1] == '.' && rest[2] == '\\' {
                assert(raw.take(4) =~= four);
            } else {
                let t = raw.take(4);
                assert(t[1] == raw[1] && t[2] == raw[2] && t[3] == raw[3]);
                assert(four[1] == '\\' && four[2] == '.' && four[3] == '\\');
                assert(t != four);
            }
        }
    }
}

/// The bytes of two texts add up; a character takes as many as UTF-8 needs for its number.
pub proof fn bytes_add_up(s: Seq<char>, t: Seq<char>, c: char)
    ensures
        byte_len(s + t) == byte_len(s) + byte_len(t),
        s.len() == 0 ==> byte_len(s) == 0,
        byte_len(seq![c]) == char_bytes(c),
        char_bytes(c) == (if c as u32 <= 0x7f {
            1nat
        } else if c as u32 <= 0x7ff {
            2nat
        } else if c as u32 <= 0xffff {
            3nat
        } else {
            4nat
        }),
    decreases t.len(),
{
    if t.len() == 0 {
        assert(s + t =~= s);
    } else {
        bytes_add_up(s, t.drop_last(), c);
        assert((s + t).drop_last() =~= s + t.drop_last());
        assert((s + t).last() == t.last());
    }
    assert(seq![c].drop_last() =~= Seq::<char>::empty());
    assert(byte_len(Seq::<char>::empty()) == 0);
}

/// The command of a menu entry has the program and the folder in quotes, with a blank between them.
pub proof fn command_is_in_quotes(exe: Seq<char>, folder: Seq<char>)
    ensures
        menu_command(exe, folder) == seq!['"'] + exe + seq!['"', ' ', '"'] + folder + seq!['"'],
{
    reveal_strlit("\"");
    reveal_strlit("\" \"");
    assert("\""@ =~= seq!['"']);
    assert("\" \""@ =~= seq!['"', ' ', '"']);
}

/// A value of the registry has its key, its name and its text, and the menu has an entry for folders
/// and one for their background.
pub proof fn registry_holds_the_entries(
    value: RegistryValue,
    key: Seq<char>,
    name: Seq<char>,
    text: Seq<char>,
)
    ensures
        value.is(key, name, text) <==> value.key@ == key && value.name@ == name && value.text@
            == text,
        folder_key() == "Software\\Classes\\Directory\\shell\\RemoveEmptyDirs"@,
        background_key() == "Software\\Classes\\Directory\\Background\\shell\\RemoveEmptyDirs"@,
{
}

/// A text stands where it was put between two others, and where it stands it parts the text in
/// three.
pub proof fn text_stands_where_it_was_put(
    before: Seq<char>,
    part: Seq<char>,
    after: Seq<char>,
    s: Seq<char>,
    i: int,
)
    ensures
        occurs_at(before + part + after, part, before.len() as int),
        occurs_at(s, part, i) ==> 0 <= i && i + part.len() <= s.len() && s == s.take(i) + part
            + s.skip(i + part.len()),
{
    let whole = before + part + after;
    let n = before.len() as int;
    assert(whole.subrange(n, n + part.len()) =~= part);
    if occurs_at(s, part, i) {
        assert(s =~= s.take(i) + s.subrange(i, i + part.len()) + s.skip(i + part.len()));
    }
}

/// The first place of a text is one, and none comes before it; a text that stands somewhere has a
/// first place.
pub proof fn first_place_comes_first(s: Seq<char>, part: Seq<char>, i: int, k: int)
    ensures
        first_at(s, part, i) && occurs_at(s, part, k) ==> i <= k,
        first_at(s, part, i) ==> occurs_at(s, part, i),
        occurs_at(s, part, k) ==> exists|f: int| f <= k && #[trigger] first_at(s, part, f),
    decreases k,
{
    if occurs_at(s, part, k) {
        if first_at(s, part, k) {
        } else {
            let j = choose|j: int| 0 <= j < k && #[trigger] occurs_at(s, part, j);
            first_place_comes_first(s, part, i, j);
            let f = choose|f: int| f <= j && #[trigger] first_at(s, part, f);
            assert(f <= k && first_at(s, part, f));
        }
    }
}

/// Two places begin at the same byte where what stands before them takes the same number of bytes.
pub proof fn same_byte_by_what_stands_before(
    a: Seq<char>,
    b: Seq<char>,
    rest: Seq<char>,
    more: Seq<char>,
)
    ensures
        same_byte(a + rest, a.len() as int, b + more, b.len() as int) <==> byte_len(a) == byte_len(
            b,
        ),
{
    assert((a + rest).take(a.len() as int) =~= a);
    assert((b + more).take(b.len() as int) =~= b);
}

/// A directory on a local drive has the letter of the drive; one on a share or on another device has
/// none, nor one whose path does not begin with a single letter, and the reason is given.
pub proof fn local_drives_have_a_letter(
    prefix: VolumePrefix,
    first: Option<String>,
    r: Result<char, String>,
    c: char,
)
    requires
        is_drive_letter(prefix, first, r),
    ensures
        prefix is Network ==> r is Err && r->Err_0@
            == "Direct MFT Scan is not supported on network UNC shares."@,
        prefix is Device ==> r is Err && r->Err_0@
            == "Direct MFT Scan is not supported on this type of device volume."@,
        prefix is Missing && first is None ==> r is Err && r->Err_0@
            == "Failed to parse volume drive letter from path"@,
        prefix matches VolumePrefix::Disk(b) ==> (r is Ok == (65 <= b <= 90 || 97 <= b <= 122)) && (
        r matches Ok(letter) ==> letter as u32 == b),
        prefix is Missing && (first matches Some(s) && (s@ == seq![c, ':'] || s@ == seq![
            c,
            ':',
            '\\',
        ])) && c != ':' ==> (r is Ok == ascii_letter(c)) && (r matches Ok(letter) ==> letter == c),
        letter_text(prefix, first) matches Some(t) ==> (r is Err ==> r->Err_0@
            == "Invalid drive letter extracted: '"@ + t
            + "'. Direct MFT Scan requires a local disk drive (e.g., C:)."@),
{
    if let Some(s) = first {
        if c != ':' {
            drive_is_named_by_its_letter(0, first, seq![c], 1, 0);
            drive_is_named_by_its_letter(0, first, seq![c], 1, 1);
            assert(seq![c, ':'] =~= seq![c] + Seq::new(1, |i: int| ':') + Seq::new(
                0,
                |i: int| '\\',
            ));
            assert(seq![c, ':', '\\'] =~= seq![c] + Seq::new(1, |i: int| ':') + Seq::new(
                1,
                |i: int| '\\',
            ));
        }
    }
}

} // verus!

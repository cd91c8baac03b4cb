//! What a scan of a file table looks at and reports, by the entries of the table, what was found on
//! disk, and the settings.

use crate::mft::{Table, Text};
use crate::mft_path::{
    ends_at_drive, folder_of, folders_above, last_slash, path_key, slashes, strip_end,
};
use crate::mft_report::{first_of_path, within_reach, MftEntry};
use crate::mft_scan::{skip_rejected, MftChild, MftState};
use crate::path::{path_before, Names};
use crate::text::{lowercase, texts};
use crate::tree::{DirectoryNode, EMPTY, NORMAL, PROTECTED};
use crate::wild::{any_match, dir_patterns, folded, wild_match};
use vstd::prelude::*;

verus! {

/// The key of a path is its lowercase text without the `\` at its end.
pub proof fn keys_end_without_a_slash(text: Seq<char>, core: Seq<char>, n: nat)
    requires
        lowercase(text) == core + Seq::new(n, |i: int| '\\'),
        core.len() > 0 ==> core[core.len() - 1] != '\\',
        !(n == 1 && core.len() > 0 && core[core.len() - 1] == ':'),
    ensures
        path_key(text) == core,
{
    let s = lowercase(text);
    if n > 0 {
        assert(s[s.len() - 1] == '\\');
        if ends_at_drive(s) && n > 1 {
            assert(s[s.len() - 2] == '\\');
        }
        if ends_at_drive(s) && n == 1 {
            assert(s[s.len() - 2] == core[core.len() - 1]);
        }
        stripping_leaves_the_core(core, '\\', n);
    } else {
        assert(s =~= core);
    }
}

/// The key of the root of a drive keeps its `\`.
pub proof fn keys_of_drives_keep_the_slash(text: Seq<char>)
    requires
        lowercase(text).len() > 1,
        lowercase(text)[lowercase(text).len() - 1] == '\\',
        lowercase(text)[lowercase(text).len() - 2] == ':',
    ensures
        path_key(text) == lowercase(text),
{
}

/// To strip a character off the end of a text takes off all of them there, and nothing else.
pub proof fn stripping_leaves_the_core(core: Seq<char>, c: char, n: nat)
    requires
        core.len() > 0 ==> core[core.len() - 1] != c,
    ensures
        strip_end(core + Seq::new(n, |i: int| c), c) == core,
    decreases n,
{
    let all = core + Seq::new(n, |i: int| c);
    if n > 0 {
        let m = (n - 1) as nat;
        stripping_leaves_the_core(core, c, m);
        assert(all.drop_last() =~= core + Seq::new(m, |i: int| c));
        assert(all.last() == c);
    } else {
        assert(all =~= core);
    }
}

/// A path of a folder, `\` and a name lies in that folder; the root of a drive keeps its `\`. A path
/// without `\` lies in none.
pub proof fn folder_is_what_stands_before_the_name(folder: Seq<char>, name: Seq<char>)
    requires
        !name.contains('\\'),
    ensures
        folder_of(folder + seq!['\\'] + name) == (if folder.len() > 0 && folder[folder.len() - 1]
            == ':' {
            Some(folder + seq!['\\'])
        } else {
            Some(folder)
        }),
        folder_of(name) is None,
{
    let s = folder + seq!['\\'] + name;
    lemma_slash_before_name(folder + seq!['\\'], name);
    let i = folder.len() as int;
    assert((folder + seq!['\\']).last() == '\\');
    assert(last_slash(s) == i);
    assert(s.take(i) =~= folder);
    assert(s.take(i + 1) =~= folder + seq!['\\']);
    if i > 0 {
        assert(s[i - 1] == folder[i - 1]);
    }
    let none = Seq::<char>::empty();
    lemma_slash_before_name(none, name);
    assert(none + name =~= name);
}

proof fn lemma_slash_before_name(before: Seq<char>, name: Seq<char>)
    requires
        !name.contains('\\'),
    ensures
        last_slash(before + name) == last_slash(before),
    decreases name.len(),
{
    if name.len() > 0 {
        let short = name.drop_last();
        assert(!short.contains('\\')) by {
            if short.contains('\\') {
                let i = choose|i: int| 0 <= i < short.len() && short[i] == '\\';
                assert(name[i] == '\\');
            }
        }
        assert(name.contains(name[name.len() - 1]));
        lemma_slash_before_name(before, short);
        assert((before + name).drop_last() =~= before + short);
    } else {
        assert(before + name =~= before);
    }
}

/// The folders above a path are the one that it lies in and those above that one, up to the root of
/// the drive.
pub proof fn folders_go_up_to_the_drive(folder: Seq<char>, name: Seq<char>)
    requires
        !name.contains('\\'),
    ensures
        ({
            let s = folder + seq!['\\'] + name;
            &&& folder.len() == 0 ==> folders_above(s) == Seq::<Text>::empty()
            &&& folder.len() > 0 && folder[folder.len() - 1] == ':' ==> folders_above(s) == seq![
                folder + seq!['\\'],
            ]
            &&& folder.len() > 0 && folder[folder.len() - 1] != ':' && !(folder.len() > 1
                && folder[folder.len() - 1] == '\\' && folder[folder.len() - 2] == ':')
                ==> folders_above(s) == seq![folder] + folders_above(folder)
            &&& folder.len() > 1 && folder[folder.len() - 1] == '\\' && folder[folder.len() - 2]
                == ':' ==> folders_above(s) == seq![folder]
        }),
        folders_above(name) == Seq::<Text>::empty(),
{
    folder_is_what_stands_before_the_name(folder, name);
    let s = folder + seq!['\\'] + name;
    if folder.len() > 0 && folder[folder.len() - 1] == ':' {
        let p = folder + seq!['\\'];
        assert(p[p.len() - 1] == '\\' && p[p.len() - 2] == ':');
        assert(ends_at_drive(p));
    }
}

/// The `\` of two texts add up.
pub proof fn slashes_add_up(s: Seq<char>, t: Seq<char>)
    ensures
        slashes(s + t) == slashes(s) + slashes(t),
        t.len() == 1 ==> slashes(t) == if t[0] == '\\' {
            1nat
        } else {
            0nat
        },
        s.len() == 0 ==> slashes(s) == 0,
    decreases t.len(),
{
    if t.len() == 0 {
        assert(s + t =~= s);
    } else {
        assert((s + t).drop_last() =~= s + t.drop_last());
        assert((s + t).last() == t.last());
        slashes_add_up(s, t.drop_last());
        if t.len() == 1 {
            assert(t.drop_last().len() == 0);
        }
    }
}

/// Every directory that the table lists below the root, no deeper than the scan goes, is looked at
/// and shown, unless something has to stay somewhere under it: a file whose name no pattern matches
/// and that is no empty file that does not count, or a directory that lies deeper than the scan
/// goes.
pub proof fn every_free_directory_is_looked_at(scan: MftState, i: int)
    requires
        scan.wf(),
        0 <= i < scan.table.records.len(),
        scan.table.records[i].is_directory,
        ({
            let t = scan.table;
            let q = path_key(t.records[i].path@);
            let r = path_key(t.root);
            &&& r.is_prefix_of(q)
            &&& q.len() > r.len()
            &&& (r.len() > 0 && r[r.len() - 1] == '\\') || q[r.len() as int] == '\\'
            &&& t.settings.max_depth >= 0 ==> slashes(q) - slashes(r) + (if r.len() > 0 && r[r.len()
                - 1] == '\\' {
                1int
            } else {
                0
            }) <= t.settings.max_depth
            &&& forall|k: int|
                0 <= k < t.records.len() && folders_above(
                    path_key((#[trigger] t.records[k]).path@),
                ).contains(q) ==> if t.records[k].is_directory {
                    ||| t.settings.max_depth < 0
                    ||| !r.is_prefix_of(path_key(t.records[k].path@))
                    ||| path_key(t.records[k].path@).len() == r.len()
                    ||| !((r.len() > 0 && r[r.len() - 1] == '\\') || path_key(
                        t.records[k].path@,
                    )[r.len() as int] == '\\')
                    ||| slashes(path_key(t.records[k].path@)) - slashes(r) + (if r.len() > 0
                        && r[r.len() - 1] == '\\' {
                        1int
                    } else {
                        0
                    }) <= t.settings.max_depth
                } else {
                    ||| exists|p: int|
                        0 <= p < t.settings.ignore_files@.len() && wild_match(
                            (#[trigger] t.settings.ignore_files@[p])@,
                            t.records[k].file_name@,
                        )
                    ||| t.settings.consider_empty_files_empty && t.records[k].size == Some(0u64)
                }
        }),
    ensures
        scan.keys.contains(path_key(scan.table.records[i].path@)),
        scan.shown.contains(path_key(scan.table.records[i].path@)),
        scan.places.contains(scan.table.place(path_key(scan.table.records[i].path@))),
{
    let t = scan.table;
    let q = path_key(t.records[i].path@);
    let r = path_key(t.root);
    lemma_listed_above(t, t.records.len() as int, i);
    assert(q.take(r.len() as int) =~= r);
    assert(t.in_scope(q));
    assert(!t.too_deep(q));
    if t.occupied(q) {
        let k = choose|k: int| #[trigger] t.blocks(k) && folders_above(t.key(k)).contains(q);
        let c = path_key(t.records[k].path@);
        if t.keeps(k) {
            let list = texts(t.settings.ignore_files@);
            assert forall|p: int| 0 <= p < t.settings.ignore_files@.len() implies !wild_match(
                (#[trigger] t.settings.ignore_files@[p])@,
                t.records[k].file_name@,
            ) by {
                if wild_match(t.settings.ignore_files@[p]@, t.records[k].file_name@) {
                    assert(wild_match(list[p], t.records[k].file_name@));
                }
            }
        } else {
            assert(t.too_deep(c));
            assert(r =~= c.subrange(0, r.len() as int));
            if c.len() == r.len() {
                assert(c.take(r.len() as int) =~= c);
            }
        }
    }
    assert(t.vacant(q));
    assert(t.leads(q, q));
    assert(t.shown(q));
    assert(scan.shown.contains(q));
    let k = choose|k: int| 0 <= k < scan.shown.len() && scan.shown[k] == q;
    assert(scan.places[k + 1] == t.place(q));
    assert(scan.places.contains(t.place(q)));
}

proof fn lemma_listed_above(t: Table, n: int, i: int)
    requires
        0 <= i < n <= t.records.len(),
        t.records[i].is_directory,
    ensures
        t.listed(n, path_key(t.records[i].path@)) is Some,
    decreases n,
{
    if n - 1 != i {
        lemma_listed_above(t, n - 1, i);
    } else {
        assert(t.folder(n - 1) && t.key(n - 1) == path_key(t.records[i].path@));
    }
}

/// Only a directory that the table lists below the root, no deeper than the scan goes, is looked at,
/// and none that a file lies in or under whose name no pattern matches and that is no empty file
/// that does not count, nor one that holds a directory that lies deeper than the scan goes.
pub proof fn only_free_directories_are_looked_at(scan: MftState, q: Text, k: int)
    requires
        scan.wf(),
        scan.keys.contains(q),
    ensures
        exists|i: int|
            0 <= i < scan.table.records.len() && (#[trigger] scan.table.records[i]).is_directory
                && path_key(scan.table.records[i].path@) == q,
        ({
            let t = scan.table;
            let r = path_key(t.root);
            &&& r.is_prefix_of(q)
            &&& q.len() > r.len()
            &&& (r.len() > 0 && r[r.len() - 1] == '\\') || q[r.len() as int] == '\\'
            &&& t.settings.max_depth >= 0 ==> slashes(q) - slashes(r) + (if r.len() > 0 && r[r.len()
                - 1] == '\\' {
                1int
            } else {
                0
            }) <= t.settings.max_depth
            &&& 0 <= k < t.records.len() && folders_above(path_key(t.records[k].path@)).contains(q)
                && !t.records[k].is_directory ==> {
                ||| exists|p: int|
                    0 <= p < t.settings.ignore_files@.len() && wild_match(
                        (#[trigger] t.settings.ignore_files@[p])@,
                        t.records[k].file_name@,
                    )
                ||| t.settings.consider_empty_files_empty && t.records[k].size == Some(0u64)
            }
            &&& 0 <= k < t.records.len() && folders_above(path_key(t.records[k].path@)).contains(q)
                && t.records[k].is_directory && t.settings.max_depth >= 0 && r.is_prefix_of(
                path_key(t.records[k].path@),
            ) && path_key(t.records[k].path@).len() > r.len() && ((r.len() > 0 && r[r.len() - 1]
                == '\\') || path_key(t.records[k].path@)[r.len() as int] == '\\') ==> slashes(
                path_key(t.records[k].path@),
            ) - slashes(r) + (if r.len() > 0 && r[r.len() - 1] == '\\' {
                1int
            } else {
                0
            }) <= t.settings.max_depth
        }),
{
    let t = scan.table;
    let r = path_key(t.root);
    assert(t.vacant(q));
    let i = lemma_listed_record(t, t.records.len() as int, q);
    assert(r =~= q.subrange(0, r.len() as int));
    if q.len() == r.len() {
        assert(q.take(r.len() as int) =~= q);
    }
    if 0 <= k < t.records.len() && folders_above(path_key(t.records[k].path@)).contains(q) {
        let c = path_key(t.records[k].path@);
        assert(!t.blocks(k));
        if !t.records[k].is_directory {
            let list = texts(t.settings.ignore_files@);
            if any_match(list, t.records[k].file_name@) {
                let p = choose|p: int|
                    0 <= p < list.len() && #[trigger] wild_match(list[p], t.records[k].file_name@);
                assert(t.settings.ignore_files@[p]@ == list[p]);
            }
        } else if r.is_prefix_of(c) {
            assert(c.take(r.len() as int) =~= r);
        }
    }
}

proof fn lemma_listed_record(t: Table, n: int, q: Text) -> (i: int)
    requires
        t.listed(n, q) is Some,
        n <= t.records.len(),
    ensures
        0 <= i < n,
        t.records[i].is_directory,
        path_key(t.records[i].path@) == q,
    decreases n,
{
    if t.folder(n - 1) && t.key(n - 1) == q {
        n - 1
    } else {
        lemma_listed_record(t, n - 1, q)
    }
}

/// What is shown is the root, every directory that is looked at, and the folders above such a
/// directory that lie below the root; each once, and nothing else.
pub proof fn what_is_shown(scan: MftState, p: Text)
    requires
        scan.wf(),
    ensures
        scan.places.len() == scan.shown.len() + 1,
        scan.places[0] == scan.table.root,
        forall|k: int|
            0 <= k < scan.shown.len() ==> scan.places[k + 1] == scan.table.place(
                #[trigger] scan.shown[k],
            ),
        scan.shown.no_duplicates(),
        scan.shown.contains(p) == exists|c: Text| #[trigger]
            scan.keys.contains(c) && (p == c || (folders_above(c).contains(p) && ({
                let r = path_key(scan.table.root);
                &&& r.is_prefix_of(p)
                &&& p.len() > r.len()
                &&& (r.len() > 0 && r[r.len() - 1] == '\\') || p[r.len() as int] == '\\'
            }))),
{
    let t = scan.table;
    let r = path_key(t.root);
    lemma_scope(t, p);
    if t.shown(p) {
        let c = choose|c: Text| #[trigger] t.leads(c, p);
        assert(scan.keys.contains(c));
    }
    if exists|c: Text| #[trigger]
        scan.keys.contains(c) && (p == c || (folders_above(c).contains(p) && ({
            &&& r.is_prefix_of(p)
            &&& p.len() > r.len()
            &&& (r.len() > 0 && r[r.len() - 1] == '\\') || p[r.len() as int] == '\\'
        }))) {
        let c = choose|c: Text| #[trigger]
            scan.keys.contains(c) && (p == c || (folders_above(c).contains(p) && ({
                &&& r.is_prefix_of(p)
                &&& p.len() > r.len()
                &&& (r.len() > 0 && r[r.len() - 1] == '\\') || p[r.len() as int] == '\\'
            })));
        assert(t.leads(c, p));
    }
}

proof fn lemma_scope(t: Table, p: Text)
    ensures
        t.in_scope(p) == ({
            let r = path_key(t.root);
            &&& r.is_prefix_of(p)
            &&& p.len() > r.len()
            &&& (r.len() > 0 && r[r.len() - 1] == '\\') || p[r.len() as int] == '\\'
        }),
{
    let r = path_key(t.root);
    if t.in_scope(p) {
        assert(r =~= p.subrange(0, r.len() as int));
        if p.len() == r.len() {
            assert(p.take(r.len() as int) =~= p);
        }
    }
    if r.is_prefix_of(p) {
        assert(p.take(r.len() as int) =~= r);
    }
}

/// A key is shown with the path of the last directory that the table lists with it, the root with its
/// own where it is not listed, and any other by itself.
pub proof fn shown_with_its_last_path(t: Table, q: Text, i: int)
    ensures
        0 <= i < t.records.len() && t.records[i].is_directory && path_key(t.records[i].path@) == q
            && (forall|k: int|
            i < k < t.records.len() && (#[trigger] t.records[k]).is_directory ==> path_key(
                t.records[k].path@,
            ) != q) ==> t.place(q) == t.records[i].path@,
        (forall|k: int|
            0 <= k < t.records.len() && (#[trigger] t.records[k]).is_directory ==> path_key(
                t.records[k].path@,
            ) != q) ==> t.place(q) == (if q == path_key(t.root) {
            t.root
        } else {
            q
        }),
{
    let n = t.records.len() as int;
    if 0 <= i < n && t.records[i].is_directory && path_key(t.records[i].path@) == q && (forall|k: int|
        i < k < t.records.len() && (#[trigger] t.records[k]).is_directory ==> path_key(
            t.records[k].path@,
        ) != q) {
        lemma_last_listed(t, n, q, i);
    }
    if forall|k: int|
        0 <= k < t.records.len() && (#[trigger] t.records[k]).is_directory ==> path_key(
            t.records[k].path@,
        ) != q {
        if t.listed(n, q) is Some {
            let k = lemma_listed_record(t, n, q);
        }
    }
}

proof fn lemma_last_listed(t: Table, n: int, q: Text, i: int)
    requires
        0 <= i < n <= t.records.len(),
        t.records[i].is_directory,
        path_key(t.records[i].path@) == q,
        forall|k: int|
            i < k < t.records.len() && (#[trigger] t.records[k]).is_directory ==> path_key(
                t.records[k].path@,
            ) != q,
    ensures
        t.listed(n, q) == Some(t.records[i].path@),
    decreases n,
{
    if n - 1 > i {
        assert(!(t.folder(n - 1) && t.key(n - 1) == q)) by {
            if t.folder(n - 1) {
                assert(t.records[n - 1].is_directory);
            }
        }
        lemma_last_listed(t, n - 1, q, i);
    } else {
        assert(t.folder(n - 1) && t.key(n - 1) == q);
    }
}

/// A directory that is looked at is accepted if and only if it could be read and held nothing but
/// accepted directories, files whose names a pattern matches, and empty files that do not count; else
/// it is rejected, and so is the folder that it lies in.
pub proof fn look_decides(scan: MftState, children: Option<Vec<MftChild>>, q: Text)
    requires
        scan.wf(),
        scan.awaits(),
        q == scan.keys[scan.next],
    ensures
        ({
            let next = scan.checked(children);
            let free = children matches Some(list) && forall|k: int|
                0 <= k < list@.len() ==> if (#[trigger] list@[k]).is_dir {
                    scan.good.contains(path_key(list@[k].path@))
                } else {
                    ||| exists|p: int|
                        0 <= p < scan.table.settings.ignore_files@.len() && wild_match(
                            (#[trigger] scan.table.settings.ignore_files@[p])@,
                            list@[k].name@,
                        )
                    ||| scan.table.settings.consider_empty_files_empty && list@[k].size == Some(
                        0u64,
                    )
                };
            &&& next.next == scan.next + 1
            &&& next.keys == scan.keys
            &&& next.table == scan.table
            &&& next.places == scan.places
            &&& free ==> next.good == scan.good.insert(q) && next.bad == scan.bad
            &&& !free ==> next.good == scan.good && next.bad.contains(q) && (folder_of(
                q,
            ) matches Some(p) ==> next.bad.contains(p)) && forall|x: Text| #[trigger]
                next.bad.contains(x) ==> scan.bad.contains(x) || x == q || folder_of(q) == Some(x)
        }),
{
    if let Some(list) = children {
        assert forall|k: int| 0 <= k < list@.len() implies crate::mft_scan::passes(
            scan.table.settings,
            scan.good,
            #[trigger] list@[k],
        ) == if list@[k].is_dir {
            scan.good.contains(path_key(list@[k].path@))
        } else {
            ||| exists|p: int|
                0 <= p < scan.table.settings.ignore_files@.len() && wild_match(
                    (#[trigger] scan.table.settings.ignore_files@[p])@,
                    list@[k].name@,
                )
            ||| scan.table.settings.consider_empty_files_empty && list@[k].size == Some(0u64)
        } by {
            lemma_some_pattern(scan.table.settings.ignore_files@, list@[k].name@);
        }
    }
}

proof fn lemma_some_pattern(list: Seq<String>, name: Seq<char>)
    ensures
        any_match(texts(list), name) == exists|p: int|
            0 <= p < list.len() && wild_match((#[trigger] list[p])@, name),
{
    if any_match(texts(list), name) {
        let p = choose|p: int|
            0 <= p < texts(list).len() && #[trigger] wild_match(texts(list)[p], name);
        assert(wild_match(list[p]@, name));
    }
    if exists|p: int| 0 <= p < list.len() && wild_match((#[trigger] list[p])@, name) {
        let p = choose|p: int| 0 <= p < list.len() && wild_match((#[trigger] list[p])@, name);
        assert(wild_match(texts(list)[p], name));
    }
}

/// The next directory to look at is the first that is not rejected when its turn comes. Those that
/// are passed over stay rejected, with the folders that they lie in, and nothing else is rejected.
pub proof fn rejected_are_passed_over(scan: MftState, a: int, x: Text)
    requires
        scan.wf(),
    ensures
        ({
            let next = scan.skipped();
            &&& scan.next <= next.next <= scan.keys.len()
            &&& next.next == scan.keys.len() || next.awaits()
            &&& next.keys == scan.keys
            &&& next.good == scan.good
            &&& next.table == scan.table
            &&& scan.bad.contains(x) ==> next.bad.contains(x)
            &&& scan.next <= a < next.next ==> next.bad.contains(scan.keys[a])
            &&& scan.next <= a < next.next && folder_of(scan.keys[a]) == Some(x)
                ==> next.bad.contains(x)
            &&& next.bad.contains(x) && !scan.bad.contains(x) ==> exists|b: int|
                scan.next <= b < next.next && folder_of(#[trigger] scan.keys[b]) == Some(x)
        }),
{
    lemma_skip(scan.keys, scan.bad, scan.next, a, x);
}

proof fn lemma_skip(keys: Seq<Text>, bad: Set<Text>, n: int, a: int, x: Text)
    requires
        0 <= n <= keys.len(),
    ensures
        ({
            let (m, after) = skip_rejected(keys, bad, n);
            &&& n <= m <= keys.len()
            &&& m < keys.len() ==> !after.contains(keys[m])
            &&& bad.contains(x) ==> after.contains(x)
            &&& n <= a < m ==> after.contains(keys[a])
            &&& n <= a < m && folder_of(keys[a]) == Some(x) ==> after.contains(x)
            &&& after.contains(x) && !bad.contains(x) ==> exists|b: int|
                n <= b < m && folder_of(#[trigger] keys[b]) == Some(x)
        }),
    decreases keys.len() - n,
{
    if n < keys.len() && bad.contains(keys[n]) {
        let more = crate::mft_scan::with_folder(bad, keys[n]);
        lemma_skip(keys, more, n + 1, a, x);
        lemma_skip(keys, more, n + 1, a, keys[n]);
        if folder_of(keys[n]) == Some(x) {
            assert(more.contains(x));
        }
    }
}

/// A path that is shown is reported as empty or as protected where its directory was accepted, and as
/// neither where it was not. It is protected if its path matches a listed directory, if it or a
/// directory below the root that it lies in is hidden or part of the operating system and such are
/// skipped, or if it is younger than the given hours.
pub proof fn status_of_a_shown_path(
    scan: MftState,
    root: Names,
    entries: Seq<MftEntry>,
    nodes: Seq<DirectoryNode>,
    i: int,
) -> (a: int)
    requires
        scan.is_report(root, entries, nodes),
        0 <= i < entries.len(),
        forall|j: int| 0 <= j < i ==> (#[trigger] entries[j]).path@ != entries[i].path@,
        scan.table.settings.max_depth < 0 || entries[i].path@.len() - root.len()
            <= scan.table.settings.max_depth,
    ensures
        0 <= a < nodes.len(),
        nodes[a].path@ == entries[i].path@,
        nodes[a].path_str@ == entries[i].text@,
        nodes[a].depth == entries[i].path@.len() - root.len(),
        nodes[a].name@ == (if entries[i].path@ == root {
            scan.table.root
        } else {
            entries[i].name@
        }),
        nodes[a].is_expanded,
        nodes[a].is_symlink == entries[i].is_symlink,
        nodes[a].is_hidden == (entries[i].marked_hidden || (entries[i].name@.len() > 0
            && entries[i].name@[0] == '.')),
        nodes[a].status == (if !scan.good.contains(path_key(entries[i].text@)) {
            NORMAL
        } else if {
            ||| any_match(
                dir_patterns(texts(scan.table.settings.ignore_dirs@)),
                folded(entries[i].text@),
            )
            ||| exists|j: int|
                0 <= j < entries.len() && (#[trigger] entries[j]).path@.len() > root.len()
                    && entries[j].path@.is_prefix_of(entries[i].path@) && ((
                scan.table.settings.ignore_hidden && (entries[j].marked_hidden || (
                entries[j].name@.len() > 0 && entries[j].name@[0] == '.'))) || (
                scan.table.settings.keep_system && entries[j].is_system))
            ||| scan.table.settings.ignore_hidden && (entries[i].marked_hidden || (
            entries[i].name@.len() > 0 && entries[i].name@[0] == '.'))
            ||| scan.table.settings.keep_system && entries[i].is_system
            ||| scan.table.settings.min_age_hours > 0 && (entries[i].age_secs matches Some(s) && s
                < scan.table.settings.min_age_hours * 3600)
        } {
            PROTECTED
        } else {
            EMPTY
        }),
{
    let a = lemma_node_of(scan, root, entries, nodes, i);
    lemma_described(scan, root, entries, i, nodes[a]);
    a
}

proof fn lemma_described(
    scan: MftState,
    root: Names,
    entries: Seq<MftEntry>,
    i: int,
    node: DirectoryNode,
)
    requires
        0 <= i < entries.len(),
        scan.describes(root, entries, entries[i], node),
    ensures
        node.path@ == entries[i].path@,
        node.path_str@ == entries[i].text@,
        node.depth == entries[i].path@.len() - root.len(),
        node.name@ == (if entries[i].path@ == root {
            scan.table.root
        } else {
            entries[i].name@
        }),
        node.is_expanded,
        node.is_symlink == entries[i].is_symlink,
        node.is_hidden == (entries[i].marked_hidden || (entries[i].name@.len() > 0
            && entries[i].name@[0] == '.')),
        node.status == (if !scan.good.contains(path_key(entries[i].text@)) {
            NORMAL
        } else if {
            ||| any_match(
                dir_patterns(texts(scan.table.settings.ignore_dirs@)),
                folded(entries[i].text@),
            )
            ||| exists|j: int|
                0 <= j < entries.len() && (#[trigger] entries[j]).path@.len() > root.len()
                    && entries[j].path@.is_prefix_of(entries[i].path@) && ((
                scan.table.settings.ignore_hidden && (entries[j].marked_hidden || (
                entries[j].name@.len() > 0 && entries[j].name@[0] == '.'))) || (
                scan.table.settings.keep_system && entries[j].is_system))
            ||| scan.table.settings.ignore_hidden && (entries[i].marked_hidden || (
            entries[i].name@.len() > 0 && entries[i].name@[0] == '.'))
            ||| scan.table.settings.keep_system && entries[i].is_system
            ||| scan.table.settings.min_age_hours > 0 && (entries[i].age_secs matches Some(s) && s
                < scan.table.settings.min_age_hours * 3600)
        } {
            PROTECTED
        } else {
            EMPTY
        }),
{
    lemma_shields(scan, root, entries, i);
}

proof fn lemma_node_of(
    scan: MftState,
    root: Names,
    entries: Seq<MftEntry>,
    nodes: Seq<DirectoryNode>,
    i: int,
) -> (a: int)
    requires
        scan.is_report(root, entries, nodes),
        0 <= i < entries.len(),
        forall|j: int| 0 <= j < i ==> (#[trigger] entries[j]).path@ != entries[i].path@,
        scan.table.settings.max_depth < 0 || entries[i].path@.len() - root.len()
            <= scan.table.settings.max_depth,
    ensures
        0 <= a < nodes.len(),
        scan.describes(root, entries, entries[i], nodes[a]),
{
    assert(within_reach(scan.table.settings, root, entries[i]));
    assert(crate::mft_report::has_path(nodes, entries[i].path@));
    let a = choose|a: int|
        0 <= a < nodes.len() && (#[trigger] nodes[a]).path@ == entries[i].path@;
    assert(scan.stems(root, entries, nodes[a]));
    let j = choose|j: int| #[trigger]
        first_of_path(entries, j) && within_reach(scan.table.settings, root, entries[j])
            && scan.describes(root, entries, entries[j], nodes[a]);
    if j < i {
        assert(entries[j].path@ != entries[i].path@);
    }
    if i < j {
        assert(entries[i].path@ != entries[j].path@);
    }
    a
}

proof fn lemma_shields(scan: MftState, root: Names, entries: Seq<MftEntry>, i: int)
    requires
        0 <= i < entries.len(),
    ensures
        scan.shields(root, entries, entries[i]) == ({
            ||| any_match(
                dir_patterns(texts(scan.table.settings.ignore_dirs@)),
                folded(entries[i].text@),
            )
            ||| exists|j: int|
                0 <= j < entries.len() && (#[trigger] entries[j]).path@.len() > root.len()
                    && entries[j].path@.is_prefix_of(entries[i].path@) && ((
                scan.table.settings.ignore_hidden && (entries[j].marked_hidden || (
                entries[j].name@.len() > 0 && entries[j].name@[0] == '.'))) || (
                scan.table.settings.keep_system && entries[j].is_system))
            ||| scan.table.settings.ignore_hidden && (entries[i].marked_hidden || (
            entries[i].name@.len() > 0 && entries[i].name@[0] == '.'))
            ||| scan.table.settings.keep_system && entries[i].is_system
            ||| scan.table.settings.min_age_hours > 0 && (entries[i].age_secs matches Some(s) && s
                < scan.table.settings.min_age_hours * 3600)
        }),
{
    let p = entries[i].path@;
    let s = scan.table.settings;
    if crate::mft_report::skipped(s, root, entries, p) {
        let j = choose|j: int|
            0 <= j < entries.len() && crate::mft_report::skips(s, root, #[trigger] entries[j])
                && crate::path::within(p, entries[j].path@);
        assert(entries[j].path@ =~= p.subrange(0, entries[j].path@.len() as int));
    }
    if exists|j: int|
        0 <= j < entries.len() && (#[trigger] entries[j]).path@.len() > root.len()
            && entries[j].path@.is_prefix_of(p) && ((s.ignore_hidden && (entries[j].marked_hidden
            || (entries[j].name@.len() > 0 && entries[j].name@[0] == '.'))) || (s.keep_system
            && entries[j].is_system)) {
        let j = choose|j: int|
            0 <= j < entries.len() && (#[trigger] entries[j]).path@.len() > root.len()
                && entries[j].path@.is_prefix_of(p) && ((s.ignore_hidden && (
            entries[j].marked_hidden || (entries[j].name@.len() > 0 && entries[j].name@[0] == '.')))
                || (s.keep_system && entries[j].is_system));
        assert(p.take(entries[j].path@.len() as int) =~= entries[j].path@);
        assert(crate::mft_report::skips(s, root, entries[j]));
    }
}

/// The directories are looked at from the bottom up, each once.
pub proof fn looked_at_from_the_bottom(scan: MftState, a: int, b: int)
    requires
        scan.wf(),
        0 <= a < b < scan.keys.len(),
    ensures
        slashes(scan.keys[a]) >= slashes(scan.keys[b]),
        scan.keys[a] != scan.keys[b],
{
}

/// Every node of a report is that of one of the paths to show, and lies no deeper than the scan goes;
/// the nodes stand in path order, one for each path.
pub proof fn every_node_is_that_of_an_entry(
    scan: MftState,
    root: Names,
    entries: Seq<MftEntry>,
    nodes: Seq<DirectoryNode>,
    a: int,
) -> (i: int)
    requires
        scan.is_report(root, entries, nodes),
        0 <= a < nodes.len(),
    ensures
        0 <= i < entries.len(),
        entries[i].path@ == nodes[a].path@,
        entries[i].text@ == nodes[a].path_str@,
        forall|j: int| 0 <= j < i ==> (#[trigger] entries[j]).path@ != entries[i].path@,
        scan.table.settings.max_depth < 0 || entries[i].path@.len() - root.len()
            <= scan.table.settings.max_depth,
        nodes[a].has_children <==> a + 1 < nodes.len() && nodes[a + 1].depth > nodes[a].depth,
{
    assert(scan.stems(root, entries, nodes[a]));
    assert(nodes[a].has_children == crate::tree::opens_subtree(nodes, a));
    choose|i: int| #[trigger]
        first_of_path(entries, i) && within_reach(scan.table.settings, root, entries[i])
            && scan.describes(root, entries, entries[i], nodes[a])
}

/// The nodes of a report stand in path order.
pub proof fn report_is_in_path_order(
    scan: MftState,
    root: Names,
    entries: Seq<MftEntry>,
    nodes: Seq<DirectoryNode>,
    a: int,
    b: int,
)
    requires
        scan.is_report(root, entries, nodes),
        0 <= a < b < nodes.len(),
    ensures
        path_before(nodes[a].path@, nodes[b].path@),
{
    assert(path_before(nodes[a].path@, nodes[b].path@));
}

/// A scan begins with nothing accepted and nothing rejected.
pub proof fn scan_begins_without_results(scan: MftState, t: Table)
    requires
        scan.starts(t),
    ensures
        scan.table == t,
        scan.next == 0,
        forall|q: Text| !scan.good.contains(q) && !scan.bad.contains(q),
{
}

/// Every directory that is accepted had its turn, was read, and held nothing but accepted
/// directories, files whose names a pattern matches, and empty files that do not count.
pub proof fn accepted_held_nothing(scan: MftState, q: Text, k: int)
    requires
        scan.wf(),
        scan.good.contains(q),
    ensures
        exists|a: int| 0 <= a < scan.next && #[trigger] scan.keys[a] == q,
        scan.reads.contains_key(q),
        0 <= k < scan.reads[q].len() && scan.reads[q][k].is_dir ==> scan.good.contains(
            path_key(scan.reads[q][k].path@),
        ),
        0 <= k < scan.reads[q].len() && !scan.reads[q][k].is_dir ==> {
            ||| exists|p: int|
                0 <= p < scan.table.settings.ignore_files@.len() && wild_match(
                    (#[trigger] scan.table.settings.ignore_files@[p])@,
                    scan.reads[q][k].name@,
                )
            ||| scan.table.settings.consider_empty_files_empty && scan.reads[q][k].size == Some(0u64)
        },
{
    let a = choose|a: int| 0 <= a < scan.next && scan.keys[a] == q;
    assert(scan.keys[a] == q);
    if 0 <= k < scan.reads[q].len() {
        assert(crate::mft_scan::passes(scan.table.settings, scan.good, scan.reads[q][k]));
        lemma_some_pattern(scan.table.settings.ignore_files@, scan.reads[q][k].name@);
    }
}

} // verus!

//! What a scan of a file table promises.

use crate::mft::{folders_above_are_beginnings, Table, Text};
use crate::mft_path::{
    beginning_has_no_more_slashes, begins, ends, ends_at_drive, folder_has_fewer_slashes,
    folder_of, folders_above, path_key, slashes,
};
use crate::mft_report::{first_of_path, has_path, skipped, skips, within_reach, MftEntry};
use crate::mft_scan::{passes, MftState};
use crate::path::{within, Names};
use crate::scan_laws::lemma_more_patterns;
use crate::scanner::looser;
use crate::text::texts;
use crate::tree::{DirectoryNode, EMPTY, PROTECTED};
use crate::wild::any_match;
use vstd::prelude::*;

verus! {

/// A directory is reported as empty, or as protected, only if the table shows no kept file and
/// nothing too deep under it, it is in scope, and when it was looked at it held nothing but ignored files, empty files
/// that do not count, and directories that were found to hold nothing themselves.
pub proof fn reported_was_looked_at(
    scan: MftState,
    root: Names,
    entries: Seq<MftEntry>,
    nodes: Seq<DirectoryNode>,
    a: int,
)
    requires
        scan.wf(),
        scan.is_report(root, entries, nodes),
        0 <= a < nodes.len(),
        nodes[a].status == EMPTY || nodes[a].status == PROTECTED,
    ensures
        ({
            let q = path_key(nodes[a].path_str@);
            &&& scan.table.vacant(q)
            &&& scan.reads.contains_key(q)
            &&& forall|k: int|
                0 <= k < scan.reads[q].len() ==> passes(
                    scan.table.settings,
                    scan.good,
                    #[trigger] scan.reads[q][k],
                )
        }),
{
    assert(scan.stems(root, entries, nodes[a]));
    let i = choose|i: int| #[trigger]
        first_of_path(entries, i) && within_reach(scan.table.settings, root, entries[i])
            && scan.describes(root, entries, entries[i], nodes[a]);
    let q = path_key(nodes[a].path_str@);
    assert(scan.good.contains(q));
    let b = choose|b: int| 0 <= b < scan.next && scan.keys[b] == q;
    assert(scan.keys.contains(q));
}

/// A directory that the settings protect is never reported as empty.
pub proof fn protected_is_never_empty(
    scan: MftState,
    root: Names,
    entries: Seq<MftEntry>,
    e: MftEntry,
    node: DirectoryNode,
)
    requires
        scan.describes(root, entries, e, node),
        scan.shields(root, entries, e),
    ensures
        node.status != EMPTY,
{
}

/// Nothing at or under a directory below the root that is hidden, or part of the operating system,
/// is reported as empty where such directories are to be skipped.
pub proof fn skipped_is_never_empty(
    scan: MftState,
    root: Names,
    entries: Seq<MftEntry>,
    nodes: Seq<DirectoryNode>,
    j: int,
    a: int,
)
    requires
        scan.is_report(root, entries, nodes),
        0 <= j < entries.len(),
        skips(scan.table.settings, root, entries[j]),
        0 <= a < nodes.len(),
        within(nodes[a].path@, entries[j].path@),
    ensures
        nodes[a].status != EMPTY,
{
    assert(scan.stems(root, entries, nodes[a]));
    let i = choose|i: int| #[trigger]
        first_of_path(entries, i) && within_reach(scan.table.settings, root, entries[i])
            && scan.describes(root, entries, entries[i], nodes[a]);
    assert(skipped(scan.table.settings, root, entries, entries[i].path@));
}

/// No node of a report lies deeper than the scan goes.
pub proof fn report_stays_within_reach(
    scan: MftState,
    root: Names,
    entries: Seq<MftEntry>,
    nodes: Seq<DirectoryNode>,
    a: int,
)
    requires
        scan.is_report(root, entries, nodes),
        scan.table.settings.max_depth >= 0,
        0 <= a < nodes.len(),
    ensures
        nodes[a].depth <= scan.table.settings.max_depth,
{
    assert(scan.stems(root, entries, nodes[a]));
}

/// A directory that was found to hold nothing is reported, as empty or, where the settings protect
/// it, as protected.
pub proof fn accepted_is_reported(
    scan: MftState,
    root: Names,
    entries: Seq<MftEntry>,
    nodes: Seq<DirectoryNode>,
    i: int,
)
    requires
        scan.is_report(root, entries, nodes),
        first_of_path(entries, i),
        within_reach(scan.table.settings, root, entries[i]),
        scan.good.contains(path_key(entries[i].text@)),
    ensures
        exists|a: int|
            0 <= a < nodes.len() && (#[trigger] nodes[a]).path@ == entries[i].path@
                && nodes[a].path_str@ == entries[i].text@ && nodes[a].status == (
            if scan.shields(root, entries, entries[i]) {
                PROTECTED
            } else {
                EMPTY
            }),
{
    assert(has_path(nodes, entries[i].path@));
    let a = choose|a: int|
        0 <= a < nodes.len() && (#[trigger] nodes[a]).path@ == entries[i].path@;
    assert(scan.stems(root, entries, nodes[a]));
    let j = choose|j: int| #[trigger]
        first_of_path(entries, j) && within_reach(scan.table.settings, root, entries[j])
            && scan.describes(root, entries, entries[j], nodes[a]);
    if j < i {
        assert(entries[j].path@ != entries[i].path@);
    }
    if i < j {
        assert(entries[i].path@ != entries[j].path@);
    }
    assert(nodes[a].path@ == entries[i].path@);
}

/// Whether `entries` tell of the paths to show, one of each, and none has the components of
/// another.
pub open spec fn tell_of(places: Seq<Text>, entries: Seq<MftEntry>) -> bool {
    &&& entries.len() == places.len()
    &&& forall|i: int| 0 <= i < entries.len() ==> (#[trigger] entries[i]).text@ == places[i]
    &&& forall|i: int, j: int|
        0 <= i < j < entries.len() ==> (#[trigger] entries[i]).path@ != (
        #[trigger] entries[j]).path@
}

/// From entries that tell of the paths to show, every directory within reach that was found to hold
/// nothing is reported as empty or as protected, and nothing else is.
pub proof fn every_accepted_is_reported(
    scan: MftState,
    root: Names,
    entries: Seq<MftEntry>,
    nodes: Seq<DirectoryNode>,
    q: Text,
)
    requires
        scan.wf(),
        tell_of(scan.places, entries),
        forall|i: int|
            0 <= i < entries.len() && path_key((#[trigger] entries[i]).text@) == q ==> within_reach(
                scan.table.settings,
                root,
                entries[i],
            ),
        scan.is_report(root, entries, nodes),
    ensures
        scan.good.contains(q) == exists|a: int|
            0 <= a < nodes.len() && path_key((#[trigger] nodes[a]).path_str@) == q && (
            nodes[a].status == EMPTY || nodes[a].status == PROTECTED),
{
    if scan.good.contains(q) {
        let t = scan.table;
        let b = choose|b: int| 0 <= b < scan.next && scan.keys[b] == q;
        assert(scan.keys.contains(q));
        assert(t.vacant(q));
        assert(t.leads(q, q));
        assert(t.shown(q));
        assert(scan.shown.contains(q));
        let k = choose|k: int| 0 <= k < scan.shown.len() && scan.shown[k] == q;
        assert(scan.places[k + 1] == t.place(q));
        t.lemma_place(q);
        let i = k + 1;
        assert(entries[i].text@ == t.place(q));
        assert forall|j: int| 0 <= j < i implies (#[trigger] entries[j]).path@
            != entries[i].path@ by {}
        assert(first_of_path(entries, i));
        assert(within_reach(t.settings, root, entries[i]));
        accepted_is_reported(scan, root, entries, nodes, i);
    }
    if exists|a: int|
        0 <= a < nodes.len() && path_key((#[trigger] nodes[a]).path_str@) == q && (nodes[a].status
            == EMPTY || nodes[a].status == PROTECTED) {
        let a = choose|a: int|
            0 <= a < nodes.len() && path_key((#[trigger] nodes[a]).path_str@) == q && (
            nodes[a].status == EMPTY || nodes[a].status == PROTECTED);
        assert(scan.stems(root, entries, nodes[a]));
    }
}

/// A kept file, or a directory that lies deeper than the scan goes, keeps every folder that it is
/// somewhere under from counting as vacant.
pub proof fn what_blocks_keeps_folders(t: Table, i: int, q: Text)
    requires
        t.blocks(i),
        folders_above(t.key(i)).contains(q),
    ensures
        !t.vacant(q),
{
    assert(t.occupied(q));
}

/// Looser rules make no directory count as less vacant.
pub proof fn looser_rules_find_no_fewer_vacant(s: Table, t: Table, q: Text)
    requires
        s.root == t.root,
        s.records == t.records,
        looser(s.settings, t.settings),
        s.vacant(q),
    ensures
        t.vacant(q),
{
    lemma_same_listed(s, t, s.records.len() as int, q);
    if t.occupied(q) {
        let i = choose|i: int| #[trigger] t.blocks(i) && folders_above(t.key(i)).contains(q);
        let name = t.records[i].file_name@;
        if any_match(texts(s.settings.ignore_files@), name) {
            lemma_more_patterns(
                texts(s.settings.ignore_files@),
                texts(t.settings.ignore_files@),
                name,
            );
        }
        assert(s.blocks(i) && folders_above(s.key(i)).contains(q));
    }
}

proof fn lemma_same_listed(s: Table, t: Table, n: int, q: Text)
    requires
        s.records == t.records,
    ensures
        s.listed(n, q) == t.listed(n, q),
    decreases n,
{
    if n > 0 {
        lemma_same_listed(s, t, n - 1, q);
    }
}

/// A scan that has looked at everything has accepted or rejected every vacant directory.
pub proof fn every_vacant_is_decided(scan: MftState, q: Text)
    requires
        scan.wf(),
        scan.done(),
        scan.table.vacant(q),
    ensures
        scan.good.contains(q) || scan.bad.contains(q),
{
    assert(scan.keys.contains(q));
    let a = choose|a: int| 0 <= a < scan.keys.len() && scan.keys[a] == q;
    assert(scan.good.contains(scan.keys[a]) || scan.bad.contains(scan.keys[a]));
}

/// The folder of a vacant directory that was not accepted is not accepted either, unless it is the
/// root of a drive.
pub proof fn rejected_keeps_its_folder(scan: MftState, q: Text, p: Text)
    requires
        scan.wf(),
        scan.done(),
        scan.table.vacant(q),
        !scan.good.contains(q),
        folder_of(q) == Some(p),
        !ends_at_drive(p),
    ensures
        !scan.good.contains(p),
{
    if scan.good.contains(p) {
        let keys = scan.keys;
        assert(keys.contains(q));
        let a = choose|a: int| 0 <= a < keys.len() && keys[a] == q;
        let b = choose|b: int| 0 <= b < scan.next && keys[b] == p;
        folder_has_fewer_slashes(q);
        if b <= a {
            assert(slashes(keys[b]) >= slashes(keys[a]));
        }
        assert(folder_of(keys[a]) != Some(keys[b]));
    }
}

/// Every path that is shown, but for the root, is that of a vacant directory or of a folder above
/// one, lies below the root, and lies no deeper than the scan goes.
pub proof fn shown_is_in_scope(t: Table, q: Text)
    requires
        t.shown(q),
    ensures
        begins(q, t.root_key()),
        q != t.root_key(),
        ends(t.root_key(), '\\') || q[t.root_key().len() as int] == '\\',
        t.settings.max_depth >= 0 ==> t.depth(q) <= t.settings.max_depth,
        exists|c: Text| #[trigger] t.vacant(c) && begins(c, q),
{
    let c = choose|c: Text| #[trigger] t.leads(c, q);
    if q == c {
        assert(c.take(c.len() as int) == c);
    } else {
        folders_above_are_beginnings(c, q);
        beginning_has_no_more_slashes(c, q);
    }
    assert(t.vacant(c) && begins(c, q));
}

} // verus!

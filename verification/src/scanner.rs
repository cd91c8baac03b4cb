//! Finding empty directories in the list of what a walk of the file system met.

use crate::collections::{
    map_get, map_insert, map_new, set_contains, set_insert, set_into_vec, set_new,
};
use crate::order::{sorted_order, Descending};
use crate::path::{
    copy_bytes, copy_names, name_view, names_view, order_below_root, path_before,
    path_order_is_total, within, DirPath, Names,
};
use crate::text::{
    cat, cat3, decimal, decimal_text, make_name_text, name_text, texts, to_chars,
};
use crate::tree::{
    compute_tree_relationships, ends_level, flags_by_depths, opens_subtree, DirectoryNode, EMPTY,
    NORMAL, PROTECTED,
};
use crate::wild::{any_match, any_matches, dir_patterns, fold_path, folded, make_dir_patterns};
use rustc_hash::{FxHashMap, FxHashSet};
use std::sync::atomic::{AtomicBool, Ordering};
use vstd::prelude::*;

verus! {

/// What a scan looks for and what it leaves alone.
#[derive(Clone, Debug)]
pub struct ScanSettings {
    pub ignore_files: Vec<String>,
    pub ignore_dirs: Vec<String>,
    pub ignore_hidden: bool,
    pub keep_system: bool,
    pub min_age_hours: u32,
    pub max_depth: i32,
    pub consider_empty_files_empty: bool,
    /// Whether the errors of a walk are summed up in one line.
    pub hide_search_errors: bool,
}

/// The directory where a scan starts.
pub struct ScanRoot {
    /// The components of the directory's path.
    pub path: DirPath,
    /// The bytes of the path as it is shown.
    pub text: Vec<u8>,
    /// What stands between `text` and the first name under the root.
    pub lead: Vec<u8>,
    /// What stands between two names.
    pub sep: u8,
    /// Whether the bytes of names stand for 16-bit units.
    pub wide: bool,
}

/// What a walk met at one place under the root.
pub struct WalkEntry {
    /// The names that lead from the root to the entry; none for the root itself.
    pub path: DirPath,
    /// The entry's own name.
    pub file_name: Vec<u8>,
    pub is_dir: bool,
    pub is_file: bool,
    pub is_symlink: bool,
    /// Whether the file system marks the entry as hidden.
    pub marked_hidden: bool,
    /// Whether the file system marks the entry as part of the operating system.
    pub is_system: bool,
    /// The seconds since the entry was made, where they are known.
    pub age_secs: Option<u64>,
    /// The size in bytes, where it is known.
    pub size: Option<u64>,
}

/// Whether a directory is younger than `min_age_hours`; one of unknown age is not.
pub open spec fn too_young(age_secs: Option<u64>, min_age_hours: u32) -> bool {
    min_age_hours > 0 && age_secs is Some && age_secs->0 < min_age_hours * 3600
}

/// Whether a name, or the mark of the file system, makes an entry hidden.
pub open spec fn hidden_name(name: Seq<char>, marked_hidden: bool) -> bool {
    (name.len() > 0 && name[0] == '.') || marked_hidden
}

/// Whether the settings, and the patterns of the directories to ignore, protect a directory that
/// holds nothing.
pub open spec fn protects(
    settings: ScanSettings,
    patterns: Seq<Seq<char>>,
    path_text: Seq<char>,
    is_hidden: bool,
    is_young: bool,
    is_system: bool,
) -> bool {
    ||| any_match(patterns, folded(path_text))
    ||| settings.ignore_hidden && is_hidden
    ||| settings.keep_system && is_system
    ||| is_young
}

/// `names` with `sep` between them.
pub open spec fn join_names(names: Names, sep: u8) -> Seq<u8>
    decreases names.len(),
{
    if names.len() == 0 {
        Seq::empty()
    } else if names.len() == 1 {
        names[0]
    } else {
        join_names(names.drop_last(), sep).push(sep) + names.last()
    }
}

/// The bytes of the path `below` the root, as it is shown.
pub open spec fn path_bytes(root: ScanRoot, below: Names) -> Seq<u8> {
    if below.len() == 0 {
        root.text@
    } else {
        root.text@ + root.lead@ + join_names(below, root.sep)
    }
}

/// A scan: the root, what the walk met, and the settings.
pub struct Walk {
    pub root: ScanRoot,
    pub entries: Seq<WalkEntry>,
    pub settings: ScanSettings,
}

impl Walk {
    /// Whether entry `i` is a directory.
    pub open spec fn dir(self, i: int) -> bool {
        0 <= i < self.entries.len() && self.entries[i].is_dir
    }

    /// The path of entry `i` under the root.
    pub open spec fn at(self, i: int) -> Names {
        self.entries[i].path@
    }

    /// The text of a path under the root.
    pub open spec fn text(self, below: Names) -> Seq<char> {
        name_text(self.root.wide, path_bytes(self.root, below))
    }

    /// Whether entry `i` is something other than a directory that is neither ignored by its name
    /// nor an empty file that does not count.
    pub open spec fn keeps(self, i: int) -> bool {
        let e = self.entries[i];
        &&& 0 <= i < self.entries.len()
        &&& !e.is_dir
        &&& !any_match(texts(self.settings.ignore_files@), name_text(self.root.wide, e.file_name@))
        &&& !(e.is_file && self.settings.consider_empty_files_empty && e.size == Some(0u64))
    }

    /// Whether such an entry lies directly in the directory `d`.
    pub open spec fn occupied(self, d: Names) -> bool {
        exists|i: int| #[trigger] self.keeps(i) && self.at(i).len() > 0 && self.at(i).drop_last() == d
    }

    /// Whether directory `i` is hidden.
    pub open spec fn hidden(self, i: int) -> bool {
        hidden_name(
            name_text(self.root.wide, self.entries[i].file_name@),
            self.entries[i].marked_hidden,
        )
    }

    /// Whether directory `i` lies deeper than the scan goes.
    pub open spec fn too_deep(self, i: int) -> bool {
        self.settings.max_depth >= 0 && self.at(i).len() > self.settings.max_depth
    }

    /// Whether the scan skips directory `j`, which lies below the root: it is hidden, or part of
    /// the operating system, and such directories are to be skipped.
    pub open spec fn skips(self, j: int) -> bool {
        &&& self.dir(j)
        &&& self.at(j).len() > 0
        &&& {
            ||| self.settings.ignore_hidden && self.hidden(j)
            ||| self.settings.keep_system && self.entries[j].is_system
        }
    }

    /// Whether the path `d` is that of a directory that is skipped, or lies under one.
    pub open spec fn skipped(self, d: Names) -> bool {
        exists|j: int| #[trigger] self.skips(j) && within(d, self.at(j))
    }

    /// Whether the settings protect directory `i`, for its own sake or for that of a directory
    /// that it lies in.
    pub open spec fn shielded(self, i: int) -> bool {
        ||| self.skipped(self.at(i))
        ||| protects(
            self.settings,
            dir_patterns(texts(self.settings.ignore_dirs@)),
            self.text(self.at(i)),
            self.hidden(i),
            too_young(self.entries[i].age_secs, self.settings.min_age_hours),
            self.entries[i].is_system,
        )
    }

    /// The directories of the walk.
    pub open spec fn dirs(self) -> Set<int> {
        Set::new(|i: int| self.dir(i))
    }

    /// Whether the walk met a directory at `d`.
    pub open spec fn listed(self, d: Names) -> bool {
        exists|i: int| #[trigger] self.dir(i) && self.at(i) == d
    }

    /// Whether directory `j` is directory `i` or lies under it, with every directory between them
    /// listed.
    pub open spec fn reaches(self, i: int, j: int) -> bool {
        &&& self.dir(i)
        &&& self.dir(j)
        &&& within(self.at(j), self.at(i))
        &&& forall|n: int|
            self.at(i).len() <= n < self.at(j).len() ==> self.listed(#[trigger] self.at(j).take(n))
    }

    /// Whether directory `i` has to stay for a reason of its own.
    pub open spec fn blocks(self, i: int) -> bool {
        self.too_deep(i) || self.occupied(self.at(i)) || self.shielded(i)
    }

    /// Whether directory `i` counts as empty: neither it nor any directory under it has to stay.
    pub open spec fn removable(self, i: int) -> bool {
        forall|j: int| #[trigger] self.reaches(i, j) ==> !self.blocks(j)
    }

    /// Whether directory `i` holds nothing that has to stay.
    pub open spec fn clear(self, i: int) -> bool {
        &&& !self.occupied(self.at(i))
        &&& forall|j: int| #[trigger]
            self.reaches(i, j) && self.at(j) != self.at(i) ==> !self.blocks(j)
    }

    /// Whether directory `i` is under the root and is reported, as empty or as protected.
    pub open spec fn reported(self, i: int) -> bool {
        self.dir(i) && self.at(i).len() > 0 && !self.too_deep(i) && self.clear(i)
    }

    /// Whether directory `i` is reported and `d` is its path or leads to it.
    pub open spec fn shows(self, i: int, d: Names) -> bool {
        self.reported(i) && within(self.at(i), d)
    }

    /// Whether directory `i` lies at `d` and is reported as empty.
    pub open spec fn empties(self, i: int, d: Names) -> bool {
        self.reported(i) && self.at(i) == d && !self.shielded(i)
    }

    /// Whether directory `i` lies at `d` and is reported as protected.
    pub open spec fn shields(self, i: int, d: Names) -> bool {
        self.reported(i) && self.at(i) == d && self.shielded(i)
    }

    /// Whether directory `i` lies at `d`, within reach of the scan, and is hidden.
    pub open spec fn hides(self, i: int, d: Names) -> bool {
        self.dir(i) && self.at(i) == d && !self.too_deep(i) && self.hidden(i)
    }

    /// Whether directory `i` lies at `d`, within reach of the scan, and is a symbolic link.
    pub open spec fn links(self, i: int, d: Names) -> bool {
        self.dir(i) && self.at(i) == d && !self.too_deep(i) && self.entries[i].is_symlink
    }

    /// Whether the tree of the report holds the path `d`.
    pub open spec fn shown(self, d: Names) -> bool {
        exists|i: int| #[trigger] self.shows(i, d)
    }

    /// The status of the path `d` in the report.
    pub open spec fn status(self, d: Names) -> i32 {
        if exists|i: int| #[trigger] self.empties(i, d) {
            EMPTY
        } else if exists|i: int| #[trigger] self.shields(i, d) {
            PROTECTED
        } else {
            NORMAL
        }
    }

    /// Whether `node` is the node of the path `d`, but for how it connects to its neighbours.
    pub open spec fn describes(self, d: Names, node: DirectoryNode) -> bool {
        &&& node.path@ == self.root.path@ + d
        &&& node.name@ == (if d.len() == 0 {
            name_text(self.root.wide, self.root.text@)
        } else {
            name_text(self.root.wide, d.last())
        })
        &&& node.path_str@ == self.text(d)
        &&& node.depth == d.len()
        &&& node.status == self.status(d)
        &&& node.is_expanded
        &&& node.is_hidden == exists|i: int| #[trigger] self.hides(i, d)
        &&& node.is_symlink == exists|i: int| #[trigger] self.links(i, d)
    }

    /// Whether `nodes` is the report of the scan: the nodes of the shown paths, in path order.
    pub open spec fn is_report(self, nodes: Seq<DirectoryNode>) -> bool {
        &&& forall|a: int, b: int|
            0 <= a < b < nodes.len() ==> path_before(
                #[trigger] nodes[a].path@,
                #[trigger] nodes[b].path@,
            )
        &&& forall|a: int|
            0 <= a < nodes.len() ==> {
                let d = (#[trigger] nodes[a]).path@.skip(self.root.path@.len() as int);
                &&& self.shown(d)
                &&& self.describes(d, nodes[a])
                &&& nodes[a].has_children == opens_subtree(nodes, a)
                &&& nodes[a].is_last_sibling == ends_level(nodes, a)
            }
        &&& forall|d: Names| #[trigger]
            self.shown(d) ==> exists|a: int|
                0 <= a < nodes.len() && (#[trigger] nodes[a]).path@ == self.root.path@ + d
    }
}

/// Whether two settings have the same rules: they give the same report of the same walk.
pub open spec fn same_rules(s: ScanSettings, t: ScanSettings) -> bool {
    &&& texts(s.ignore_files@) == texts(t.ignore_files@)
    &&& texts(s.ignore_dirs@) == texts(t.ignore_dirs@)
    &&& s.ignore_hidden == t.ignore_hidden
    &&& s.keep_system == t.keep_system
    &&& s.min_age_hours == t.min_age_hours
    &&& s.max_depth == t.max_depth || (s.max_depth < 0 && t.max_depth < 0)
    &&& s.consider_empty_files_empty == t.consider_empty_files_empty
}

/// Whether the rules of `t` are looser than, or the same as, those of `s`: they ignore no fewer
/// files, reach no less deep and protect no more directories.
pub open spec fn looser(s: ScanSettings, t: ScanSettings) -> bool {
    &&& forall|p: Seq<char>| #[trigger]
        texts(s.ignore_files@).contains(p) ==> texts(t.ignore_files@).contains(p)
    &&& s.consider_empty_files_empty ==> t.consider_empty_files_empty
    &&& t.max_depth < 0 || 0 <= s.max_depth <= t.max_depth
    &&& forall|p: Seq<char>| #[trigger]
        texts(t.ignore_dirs@).contains(p) ==> texts(s.ignore_dirs@).contains(p)
    &&& t.ignore_hidden ==> s.ignore_hidden
    &&& t.keep_system ==> s.keep_system
    &&& t.min_age_hours <= s.min_age_hours
}

/// Whether a walk can be scanned: no directory is listed twice and every depth is a number of
/// the nodes' kind.
pub open spec fn walk_ok(entries: Seq<WalkEntry>) -> bool {
    &&& forall|i: int| 0 <= i < entries.len() ==> (#[trigger] entries[i]).path@.len() <= i32::MAX
    &&& forall|i: int, j: int|
        0 <= i < j < entries.len() && (#[trigger] entries[i]).is_dir && (#[trigger] entries[j]).is_dir
            ==> entries[i].path@ != entries[j].path@
}

/// Whether a directory is younger than `min_age_hours`.
pub fn is_dir_too_young(age_secs: Option<u64>, min_age_hours: u32) -> (young: bool)
    ensures
        young == too_young(age_secs, min_age_hours),
{
    if min_age_hours == 0 {
        return false;
    }
    match age_secs {
        Some(secs) => secs < min_age_hours as u64 * 3600,
        None => false,
    }
}

/// Whether an entry is hidden, by its name or by the mark of the file system.
pub fn is_hidden_dir(name: &str, marked_hidden: bool) -> (hidden: bool)
    ensures
        hidden == hidden_name(name@, marked_hidden),
{
    let chars = to_chars(name);
    (chars.len() > 0 && chars[0] == '.') || marked_hidden
}

/// Whether the attributes that the file system gives mark an entry as hidden.
pub open spec fn hidden_attribute(attributes: Option<u32>) -> bool {
    attributes is Some && attributes->0 & 0x2 != 0
}

/// Whether the attributes that the file system gives mark an entry as part of the operating
/// system.
pub open spec fn system_attribute(attributes: Option<u32>) -> bool {
    attributes is Some && attributes->0 & 0x4 != 0
}

/// Whether the attributes that the file system gives mark an entry as hidden.
pub fn is_marked_hidden(attributes: Option<u32>) -> (hidden: bool)
    ensures
        hidden == hidden_attribute(attributes),
{
    match attributes {
        Some(bits) => bits & 0x2 != 0,
        None => false,
    }
}

/// Whether the attributes that the file system gives mark an entry as part of the operating
/// system.
pub fn is_system_dir(attributes: Option<u32>) -> (system: bool)
    ensures
        system == system_attribute(attributes),
{
    match attributes {
        Some(bits) => bits & 0x4 != 0,
        None => false,
    }
}

/// Whether the settings, and the patterns of the directories to ignore, protect a directory that
/// holds nothing.
pub fn is_directory_protected(
    path_text: &str,
    is_hidden: bool,
    is_young: bool,
    is_system: bool,
    settings: &ScanSettings,
    patterns: &Vec<String>,
) -> (r: bool)
    ensures
        r == protects(*settings, texts(patterns@), path_text@, is_hidden, is_young, is_system),
{
    let matched = if patterns.len() == 0 {
        assert(texts(patterns@).len() == 0);
        false
    } else {
        let lower = fold_path(path_text);
        any_matches(patterns, lower.as_str())
    };
    matched || (settings.ignore_hidden && is_hidden) || (settings.keep_system && is_system)
        || is_young
}

/// The text of the path `below` the root.
pub fn shown_text(root: &ScanRoot, below: &DirPath) -> (text: String)
    ensures
        text@ == name_text(root.wide, path_bytes(*root, below@)),
{
    let mut bytes = copy_bytes(&root.text);
    let n = below.names.len();
    proof {
        names_view(below.names);
    }
    if n > 0 {
        let mut lead = copy_bytes(&root.lead);
        bytes.append(&mut lead);
        let ghost start = bytes@;
        assert(start == root.text@ + root.lead@);
        let mut i: usize = 0;
        assert(below@.take(0).len() == 0);
        assert(bytes@ == start + join_names(below@.take(0), root.sep));
        while i < n
            invariant
                i <= n == below.names@.len(),
                below@ == below.names@.map_values(|v: Vec<u8>| v@),
                bytes@ == start + join_names(below@.take(i as int), root.sep),
            decreases n - i,
        {
            let ghost before = bytes@;
            if i > 0 {
                bytes.push(root.sep);
            }
            let mut name = copy_bytes(&below.names[i]);
            bytes.append(&mut name);
            proof {
                let now = below@.take(i + 1);
                assert(now.drop_last() == below@.take(i as int));
                assert(now.last() == below.names@[i as int]@);
                if i == 0 {
                    assert(bytes@ == start + now[0]);
                } else {
                    assert(bytes@ == start + (join_names(below@.take(i as int), root.sep).push(
                        root.sep,
                    ) + now.last()));
                }
            }
            i += 1;
        }
        assert(below@.take(i as int) == below@);
    }
    make_name_text(root.wide, &bytes)
}

/// Whether a walk can be scanned.
pub fn check_walk(entries: &Vec<WalkEntry>) -> (ok: bool)
    ensures
        ok == walk_ok(entries@),
{
    let mut dirs: FxHashSet<Vec<Vec<u8>>> = set_new();
    let mut i: usize = 0;
    while i < entries.len()
        invariant
            i <= entries@.len(),
            forall|j: int| 0 <= j < i ==> (#[trigger] entries@[j]).path@.len() <= i32::MAX,
            forall|j: int|
                0 <= j < i && (#[trigger] entries@[j]).is_dir ==> dirs.deep_view().contains(
                    entries@[j].path@,
                ),
            forall|d: Names| #[trigger]
                dirs.deep_view().contains(d) ==> exists|j: int|
                    0 <= j < i && (#[trigger] entries@[j]).is_dir && entries@[j].path@ == d,
            forall|j: int, k: int|
                0 <= j < k < i && (#[trigger] entries@[j]).is_dir && (#[trigger] entries@[k]).is_dir
                    ==> entries@[j].path@ != entries@[k].path@,
        decreases entries@.len() - i,
    {
        let e = &entries[i];
        if e.path.names.len() > i32::MAX as usize {
            assert(entries@[i as int].path@.len() > i32::MAX);
            return false;
        }
        if e.is_dir {
            let ghost before = dirs.deep_view();
            if !set_insert(&mut dirs, e.path.copy().names) {
                let ghost j = choose|j: int|
                    0 <= j < i && (#[trigger] entries@[j]).is_dir && entries@[j].path@
                        == entries@[i as int].path@;
                assert(entries@[j].is_dir && entries@[i as int].is_dir);
                return false;
            }
            assert forall|d: Names| #[trigger] dirs.deep_view().contains(d) implies exists|j: int|
                0 <= j < i + 1 && (#[trigger] entries@[j]).is_dir && entries@[j].path@ == d by {
                if d == e.path@ {
                    assert(entries@[i as int].is_dir);
                } else {
                    assert(before.contains(d));
                }
            }
        }
        i += 1;
    }
    true
}

proof fn lemma_reaches_itself(w: Walk, i: int)
    requires
        w.dir(i),
    ensures
        w.reaches(i, i),
{
    assert(w.at(i).take(w.at(i).len() as int) == w.at(i));
}

/// A directory counts as empty exactly when it holds nothing that has to stay, lies within reach
/// of the scan and is not protected.
pub proof fn removable_when_clear(w: Walk, i: int)
    requires
        walk_ok(w.entries),
        w.dir(i),
    ensures
        w.removable(i) == (w.clear(i) && !w.too_deep(i) && !w.shielded(i)),
{
    lemma_reaches_itself(w, i);
    if w.clear(i) && !w.too_deep(i) && !w.shielded(i) {
        assert forall|j: int| #[trigger] w.reaches(i, j) implies !w.blocks(j) by {
            if w.at(j) == w.at(i) && j != i {
                assert(w.entries[i].is_dir && w.entries[j].is_dir);
            }
        }
    }
}

/// A directory holds nothing that has to stay exactly when nothing lies directly in it and each
/// directory directly in it counts as empty.
pub proof fn clear_by_children(w: Walk, i: int)
    requires
        w.dir(i),
    ensures
        w.clear(i) == (!w.occupied(w.at(i)) && forall|j: int|
            #[trigger] w.dir(j) && w.at(j).len() > 0 && w.at(j).drop_last() == w.at(i)
                ==> w.removable(j)),
{
    let p = w.at(i);
    if w.clear(i) {
        assert forall|j: int|
            #[trigger] w.dir(j) && w.at(j).len() > 0 && w.at(j).drop_last() == p implies w.removable(
            j,
        ) by {
            assert forall|k: int| #[trigger] w.reaches(j, k) implies !w.blocks(k) by {
                let q = w.at(j);
                let r = w.at(k);
                assert(r.take(p.len() as int) == r.take(q.len() as int).take(p.len() as int));
                assert(q.take(p.len() as int) == q.drop_last());
                assert forall|n: int| p.len() <= n < r.len() implies w.listed(
                    #[trigger] r.take(n),
                ) by {
                    if n == p.len() {
                        assert(r.take(n) == p);
                    }
                }
                assert(w.reaches(i, k));
            }
        }
    }
    if !w.occupied(p) && forall|j: int|
        #[trigger] w.dir(j) && w.at(j).len() > 0 && w.at(j).drop_last() == p ==> w.removable(j) {
        assert forall|k: int| #[trigger]
            w.reaches(i, k) && w.at(k) != p implies !w.blocks(k) by {
            let r = w.at(k);
            if r.len() == p.len() {
                assert(r.take(p.len() as int) == r);
            }
            let n = p.len() + 1;
            let q = r.take(n as int);
            assert(q.drop_last() == r.take(p.len() as int));
            if n == r.len() {
                assert(q == r);
                assert(w.removable(k));
                lemma_reaches_itself(w, k);
            } else {
                assert(w.listed(q));
                let j = choose|j: int| #[trigger] w.dir(j) && w.at(j) == q;
                assert(w.removable(j));
                assert(w.reaches(j, k));
            }
        }
    }
}

/// The directories with an entry directly in them that has to stay, each marked as not empty.
fn occupied_status(
    root: &ScanRoot,
    entries: &Vec<WalkEntry>,
    settings: &ScanSettings,
) -> (status: FxHashMap<Vec<Vec<u8>>, bool>)
    ensures
        ({
            let w = Walk { root: *root, entries: entries@, settings: *settings };
            &&& forall|d: Names| #[trigger] status.deep_view().contains_key(d) == w.occupied(d)
            &&& forall|d: Names| #[trigger]
                status.deep_view().contains_key(d) ==> !status.deep_view()[d]
        }),
{
    let ghost w = Walk { root: *root, entries: entries@, settings: *settings };
    let mut status: FxHashMap<Vec<Vec<u8>>, bool> = map_new();
    let mut i: usize = 0;
    while i < entries.len()
        invariant
            i <= entries@.len(),
            w == (Walk { root: *root, entries: entries@, settings: *settings }),
            forall|d: Names| #[trigger]
                status.deep_view().contains_key(d) == exists|k: int|
                    k < i && #[trigger] w.keeps(k) && w.at(k).len() > 0 && w.at(k).drop_last() == d,
            forall|d: Names| #[trigger]
                status.deep_view().contains_key(d) ==> !status.deep_view()[d],
        decreases entries@.len() - i,
    {
        let e = &entries[i];
        let ghost before = status.deep_view();
        if !e.is_dir {
            let name = make_name_text(root.wide, &e.file_name);
            let is_ignored = any_matches(&settings.ignore_files, name.as_str());
            let is_empty_file = e.is_file && settings.consider_empty_files_empty && match e.size {
                Some(n) => n == 0,
                None => false,
            };
            assert(w.keeps(i as int) == (!is_ignored && !is_empty_file));
            if !is_ignored && !is_empty_file {
                if let Some(parent) = e.path.parent() {
                    map_insert(&mut status, parent.names, false);
                }
            }
        }
        proof {
            assert forall|d: Names| #[trigger]
                status.deep_view().contains_key(d) == exists|k: int|
                    k < i + 1 && #[trigger] w.keeps(k) && w.at(k).len() > 0 && w.at(k).drop_last()
                        == d by {
                if before.contains_key(d) {
                    let k = choose|k: int|
                        k < i && #[trigger] w.keeps(k) && w.at(k).len() > 0 && w.at(k).drop_last()
                            == d;
                    assert(w.keeps(k));
                } else if status.deep_view().contains_key(d) {
                    assert(w.keeps(i as int));
                }
            }
        }
        i += 1;
    }
    status
}

/// Whether `set` holds the paths of the directories that are skipped.
spec fn holds_skips(w: Walk, set: Set<Names>) -> bool {
    forall|d: Names| #[trigger]
        set.contains(d) == exists|j: int| #[trigger] w.skips(j) && w.at(j) == d
}

/// The paths of the directories that are skipped.
fn skipped_dirs(root: &ScanRoot, entries: &Vec<WalkEntry>, settings: &ScanSettings) -> (set:
    FxHashSet<Vec<Vec<u8>>>)
    ensures
        holds_skips(Walk { root: *root, entries: entries@, settings: *settings }, set.deep_view()),
{
    let ghost w = Walk { root: *root, entries: entries@, settings: *settings };
    let mut set: FxHashSet<Vec<Vec<u8>>> = set_new();
    let mut i: usize = 0;
    while i < entries.len()
        invariant
            i <= entries@.len(),
            w == (Walk { root: *root, entries: entries@, settings: *settings }),
            forall|d: Names| #[trigger]
                set.deep_view().contains(d) == exists|j: int|
                    j < i && #[trigger] w.skips(j) && w.at(j) == d,
        decreases entries@.len() - i,
    {
        let e = &entries[i];
        let ghost before = set.deep_view();
        if e.is_dir && e.path.names.len() > 0 {
            let name = make_name_text(root.wide, &e.file_name);
            let is_hidden = is_hidden_dir(name.as_str(), e.marked_hidden);
            if (settings.ignore_hidden && is_hidden) || (settings.keep_system && e.is_system) {
                assert(w.skips(i as int));
                set_insert(&mut set, e.path.copy().names);
            }
        }
        proof {
            assert forall|d: Names| #[trigger]
                set.deep_view().contains(d) == exists|j: int|
                    j < i + 1 && #[trigger] w.skips(j) && w.at(j) == d by {
                if before.contains(d) {
                    let j = choose|j: int| j < i && #[trigger] w.skips(j) && w.at(j) == d;
                    assert(w.skips(j));
                } else if set.deep_view().contains(d) {
                    assert(w.skips(i as int));
                }
            }
        }
        i += 1;
    }
    set
}

/// Whether `set` holds the path `p` or a path that it lies under.
pub(crate) fn lies_in(set: &FxHashSet<Vec<Vec<u8>>>, p: &DirPath) -> (r: bool)
    ensures
        r == exists|d: Names| #[trigger] set.deep_view().contains(d) && within(p@, d),
{
    let len = p.names.len();
    let mut n: usize = 0;
    loop
        invariant
            n <= len == p@.len(),
            forall|d: Names| #[trigger]
                set.deep_view().contains(d) && within(p@, d) ==> d.len() >= n,
        decreases len - n,
    {
        let names = copy_names(&p.names, n);
        if set_contains(set, &names) {
            assert(within(p@, names.deep_view()));
            return true;
        }
        if n == len {
            return false;
        }
        n += 1;
    }
}

/// The directories of a walk, the deepest first.
fn bottom_up(entries: &Vec<WalkEntry>) -> (queue: Vec<usize>)
    ensures
        queue@.no_duplicates(),
        forall|a: int|
            0 <= a < queue@.len() ==> #[trigger] queue@[a] < entries@.len()
                && entries@[queue@[a] as int].is_dir,
        forall|i: int|
            0 <= i < entries@.len() && (#[trigger] entries@[i]).is_dir ==> queue@.contains(
                i as usize,
            ),
        forall|a: int, b: int|
            0 <= a < b < queue@.len() ==> entries@[#[trigger] queue@[a] as int].path@.len()
                >= entries@[#[trigger] queue@[b] as int].path@.len(),
{
    let mut dirs: Vec<usize> = Vec::new();
    let mut keys: Vec<Descending> = Vec::new();
    let mut i: usize = 0;
    while i < entries.len()
        invariant
            i <= entries@.len(),
            dirs@.len() == keys@.len(),
            forall|a: int|
                0 <= a < dirs@.len() ==> #[trigger] dirs@[a] < i && entries@[dirs@[a] as int].is_dir,
            forall|a: int|
                0 <= a < dirs@.len() ==> (#[trigger] keys@[a]).0
                    == entries@[dirs@[a] as int].path@.len(),
            forall|a: int, b: int|
                0 <= a < b < dirs@.len() ==> #[trigger] dirs@[a] < #[trigger] dirs@[b],
            forall|j: int|
                0 <= j < i && (#[trigger] entries@[j]).is_dir ==> dirs@.contains(j as usize),
        decreases entries@.len() - i,
    {
        let ghost before = dirs@;
        if entries[i].is_dir {
            dirs.push(i);
            keys.push(Descending(entries[i].path.names.len()));
        }
        proof {
            assert forall|j: int|
                0 <= j < i + 1 && (#[trigger] entries@[j]).is_dir implies dirs@.contains(
                j as usize,
            ) by {
                if j == i {
                    assert(dirs@[dirs@.len() - 1] == i);
                } else {
                    let a = choose|a: int| 0 <= a < before.len() && before[a] == j as usize;
                    assert(dirs@[a] == j as usize);
                }
            }
        }
        i += 1;
    }
    let order = sorted_order(&keys);
    let mut queue: Vec<usize> = Vec::new();
    let mut k: usize = 0;
    while k < order.len()
        invariant
            k <= order@.len(),
            crate::order::is_sorted_order(keys@, 0, keys@.len() as int, order@),
            dirs@.len() == keys@.len(),
            queue@.len() == k,
            forall|a: int| 0 <= a < k ==> #[trigger] queue@[a] == dirs@[order@[a] as int],
        decreases order@.len() - k,
    {
        queue.push(dirs[order[k]]);
        k += 1;
    }
    proof {
        assert forall|a: int, b: int| 0 <= a < b < queue@.len() implies queue@[a] != queue@[b]
            && entries@[#[trigger] queue@[a] as int].path@.len()
            >= entries@[#[trigger] queue@[b] as int].path@.len() by {
            assert(crate::order::sorts_before(keys@, order@[a] as int, order@[b] as int));
            assert(order@[a] != order@[b]);
            assert(dirs@[order@[a] as int] != dirs@[order@[b] as int]);
        }
        assert forall|j: int|
            0 <= j < entries@.len() && (#[trigger] entries@[j]).is_dir implies queue@.contains(
            j as usize,
        ) by {
            let a = choose|a: int| 0 <= a < dirs@.len() && dirs@[a] == j as usize;
            assert(order@.contains(a as usize));
            let c = choose|c: int| 0 <= c < order@.len() && order@[c] == a as usize;
            assert(queue@[c] == j as usize);
        }
    }
    queue
}

/// Adds the paths that lead to `start`, down from the root, to a set that with a path holds the
/// paths that lead to it.
fn add_ancestors(included: &mut FxHashSet<Vec<Vec<u8>>>, start: &DirPath)
    requires
        forall|d: Names|
            d.len() > 0 && #[trigger] old(included).deep_view().contains(d) && d != start@
                ==> old(included).deep_view().contains(d.drop_last()),
    ensures
        forall|d: Names| #[trigger]
            final(included).deep_view().contains(d) == (old(included).deep_view().contains(d) || (
            within(start@, d) && d != start@)),
{
    let ghost before = included.deep_view();
    let mut here = start.copy();
    proof {
        assert(start@.take(start@.len() as int) == start@);
    }
    loop
        invariant_except_break
            forall|d: Names| #[trigger]
                included.deep_view().contains(d) == (before.contains(d) || (within(start@, d)
                    && here@.len() <= d.len() < start@.len())),
        invariant
            before == old(included).deep_view(),
            within(start@, here@),
            forall|d: Names|
                d.len() > 0 && #[trigger] before.contains(d) && d != start@ ==> before.contains(
                    d.drop_last(),
                ),
        ensures
            forall|d: Names| #[trigger]
                included.deep_view().contains(d) == (before.contains(d) || (within(start@, d)
                    && d.len() < start@.len())),
        decreases here@.len(),
    {
        match here.parent() {
            None => {
                break;
            },
            Some(par) => {
                let ghost p = par@;
                assert(start@.take(p.len() as int) == here@.take(p.len() as int));
                let next = par.copy();
                let fresh = set_insert(included, par.names);
                proof {
                    assert forall|d: Names| #[trigger]
                        included.deep_view().contains(d) == (before.contains(d) || (within(
                            start@,
                            d,
                        ) && p.len() <= d.len() < start@.len())) by {
                        if within(start@, d) && d.len() == p.len() {
                            assert(d == p);
                        }
                    }
                }
                if !fresh {
                    proof {
                        assert(before.contains(p));
                        assert forall|d: Names| within(start@, d) && d.len() <= p.len() implies #[trigger] before.contains(d) by {
                            lemma_prefixes_held(before, start@, p.len() as int, d.len() as int);
                        }
                    }
                    break;
                }
                here = next;
            },
        }
    }
    assert forall|d: Names| within(start@, d) && d.len() == start@.len() implies #[trigger] start@
        == d by {
        assert(start@.take(d.len() as int) == start@);
    }
}

proof fn lemma_prefixes_held(held: Set<Names>, start: Names, from: int, n: int)
    requires
        0 <= n <= from < start.len(),
        held.contains(start.take(from)),
        forall|d: Names|
            d.len() > 0 && #[trigger] held.contains(d) && d != start ==> held.contains(d.drop_last()),
    ensures
        held.contains(start.take(n)),
    decreases from - n,
{
    if n < from {
        let d = start.take(from);
        assert(held.contains(d));
        assert(d.drop_last() == start.take(from - 1));
        lemma_prefixes_held(held, start, from - 1, n);
    }
}

/// What a scan found out about the directories of a walk, as sets of paths under the root.
struct Findings {
    included: FxHashSet<Vec<Vec<u8>>>,
    marks: Marks,
}

/// The directories with a certain mark.
struct Marks {
    empty: FxHashSet<Vec<Vec<u8>>>,
    protected: FxHashSet<Vec<Vec<u8>>>,
    hidden: FxHashSet<Vec<Vec<u8>>>,
    symlink: FxHashSet<Vec<Vec<u8>>>,
}

impl Findings {
    /// Whether the sets hold what is known from the directories in `seen`.
    spec fn tell(self, w: Walk, seen: Set<int>) -> bool {
        &&& self.marks.tell(w, seen)
        &&& forall|d: Names| #[trigger]
            self.included.deep_view().contains(d) == exists|i: int|
                seen.contains(i) && #[trigger] w.shows(i, d)
    }
}

impl Marks {
    /// Whether the sets hold what is known from the directories in `seen`.
    spec fn tell(self, w: Walk, seen: Set<int>) -> bool {
        &&& forall|d: Names| #[trigger]
            self.empty.deep_view().contains(d) == exists|i: int|
                seen.contains(i) && #[trigger] w.empties(i, d)
        &&& forall|d: Names| #[trigger]
            self.protected.deep_view().contains(d) == exists|i: int|
                seen.contains(i) && #[trigger] w.shields(i, d)
        &&& forall|d: Names| #[trigger]
            self.hidden.deep_view().contains(d) == exists|i: int|
                seen.contains(i) && #[trigger] w.hides(i, d)
        &&& forall|d: Names| #[trigger]
            self.symlink.deep_view().contains(d) == exists|i: int|
                seen.contains(i) && #[trigger] w.links(i, d)
    }
}

/// Whether the directory at `d` is known not to be empty, from what lies in it and from the
/// directories in `seen`.
spec fn known_full(w: Walk, seen: Set<int>, d: Names) -> bool {
    w.occupied(d) || exists|j: int|
        seen.contains(j) && #[trigger] w.dir(j) && w.at(j).len() > 0 && w.at(j).drop_last() == d
            && !w.removable(j)
}

/// Whether `status` says of each directory that is not in `seen` whether it is known not to be
/// empty.
spec fn status_tells(w: Walk, seen: Set<int>, status: Map<Names, bool>) -> bool {
    forall|i: int| #[trigger]
        w.dir(i) && !seen.contains(i) ==> {
            &&& status.contains_key(w.at(i)) == known_full(w, seen, w.at(i))
            &&& status.contains_key(w.at(i)) ==> !status[w.at(i)]
        }
}

proof fn lemma_skipped(w: Walk, set: Set<Names>, p: Names)
    requires
        holds_skips(w, set),
    ensures
        w.skipped(p) == exists|d: Names| #[trigger] set.contains(d) && within(p, d),
{
    if w.skipped(p) {
        let j = choose|j: int| #[trigger] w.skips(j) && within(p, w.at(j));
        assert(set.contains(w.at(j)));
    }
    if exists|d: Names| #[trigger] set.contains(d) && within(p, d) {
        let d = choose|d: Names| #[trigger] set.contains(d) && within(p, d);
        let j = choose|j: int| #[trigger] w.skips(j) && w.at(j) == d;
        assert(w.skips(j));
    }
}

/// Finds out about directory `i`, when all deeper directories have been seen.
fn examine(
    root: &ScanRoot,
    entries: &Vec<WalkEntry>,
    settings: &ScanSettings,
    patterns: &Vec<String>,
    skips: &FxHashSet<Vec<Vec<u8>>>,
    i: usize,
    status: &mut FxHashMap<Vec<Vec<u8>>, bool>,
    found: &mut Findings,
    Ghost(seen): Ghost<Set<int>>,
)
    requires
        walk_ok(entries@),
        texts(patterns@) == dir_patterns(texts(settings.ignore_dirs@)),
        i < entries@.len(),
        entries@[i as int].is_dir,
        !seen.contains(i as int),
        ({
            let w = Walk { root: *root, entries: entries@, settings: *settings };
            &&& forall|j: int| #[trigger]
                w.dir(j) && w.at(j).len() > w.at(i as int).len() ==> seen.contains(j)
            &&& holds_skips(w, skips.deep_view())
            &&& old(found).tell(w, seen)
            &&& status_tells(w, seen, old(status).deep_view())
        }),
    ensures
        ({
            let w = Walk { root: *root, entries: entries@, settings: *settings };
            &&& final(found).tell(w, seen.insert(i as int))
            &&& status_tells(w, seen.insert(i as int), final(status).deep_view())
        }),
{
    let ghost w = Walk { root: *root, entries: entries@, settings: *settings };
    let ghost x = i as int;
    let ghost status0 = status.deep_view();
    let ghost found0 = *found;
    let e = &entries[i];
    proof {
        assert(w.dir(x));
        removable_when_clear(w, x);
        clear_by_children(w, x);
        assert(w.clear(x) == !known_full(w, seen, w.at(x)));
    }
    if settings.max_depth >= 0 && e.path.names.len() > settings.max_depth as usize {
        if let Some(parent) = e.path.parent() {
            map_insert(status, parent.names, false);
        }
        proof {
            lemma_status_step(w, seen, x, status0, status.deep_view());
            lemma_tell_same(w, seen, x, *found);
        }
        return ;
    }
    let name = make_name_text(root.wide, &e.file_name);
    let is_hidden = is_hidden_dir(name.as_str(), e.marked_hidden);
    if is_hidden {
        set_insert(&mut found.marks.hidden, e.path.copy().names);
    }
    if e.is_symlink {
        set_insert(&mut found.marks.symlink, e.path.copy().names);
    }
    let mut is_empty = match map_get(status, &e.path.names) {
        Some(flag) => *flag,
        None => true,
    };
    assert(is_empty == w.clear(x));
    let mut is_protected = false;
    if is_empty {
        let is_young = is_dir_too_young(e.age_secs, settings.min_age_hours);
        let text = shown_text(root, &e.path);
        let is_skipped = lies_in(skips, &e.path);
        proof {
            lemma_skipped(w, skips.deep_view(), e.path@);
        }
        if is_skipped || is_directory_protected(
            text.as_str(),
            is_hidden,
            is_young,
            e.is_system,
            settings,
            patterns,
        ) {
            is_empty = false;
            is_protected = true;
        }
    }
    assert(is_empty == w.removable(x));
    assert(is_protected == (w.clear(x) && w.shielded(x)));
    map_insert(status, e.path.copy().names, is_empty);
    if e.path.names.len() > 0 {
        if is_empty {
            set_insert(&mut found.marks.empty, e.path.copy().names);
            set_insert(&mut found.included, e.path.copy().names);
            proof {
                lemma_included_closed(w, seen, found0, found.included.deep_view(), w.at(x));
            }
            add_ancestors(&mut found.included, &e.path);
        } else {
            if let Some(parent) = e.path.parent() {
                map_insert(status, parent.names, false);
            }
            if is_protected {
                set_insert(&mut found.marks.protected, e.path.copy().names);
                set_insert(&mut found.included, e.path.copy().names);
                proof {
                    lemma_included_closed(w, seen, found0, found.included.deep_view(), w.at(x));
                }
                add_ancestors(&mut found.included, &e.path);
            }
        }
    }
    proof {
        assert(w.at(x).take(w.at(x).len() as int) == w.at(x));
        lemma_status_step(w, seen, x, status0, status.deep_view());
        lemma_tell_step(w, seen, x, found0, *found);
    }
}

/// The step of the map of what is known: it may change at the directory itself, and its parent is
/// marked exactly where the directory does not count as empty.
proof fn lemma_status_step(
    w: Walk,
    seen: Set<int>,
    x: int,
    before: Map<Names, bool>,
    after: Map<Names, bool>,
)
    requires
        walk_ok(w.entries),
        w.dir(x),
        !seen.contains(x),
        status_tells(w, seen, before),
        forall|d: Names|
            d != w.at(x) ==> if !w.removable(x) && w.at(x).len() > 0 && d == w.at(x).drop_last() {
                #[trigger] after.contains_key(d) && !after[d]
            } else {
                after.contains_key(d) == before.contains_key(d) && (after.contains_key(d) ==> after[d]
                    == before[d])
            },
    ensures
        status_tells(w, seen.insert(x), after),
{
    let seen2 = seen.insert(x);
    assert forall|i: int| #[trigger] w.dir(i) && !seen2.contains(i) implies {
        &&& after.contains_key(w.at(i)) == known_full(w, seen2, w.at(i))
        &&& after.contains_key(w.at(i)) ==> !after[w.at(i)]
    } by {
        let d = w.at(i);
        assert(w.entries[i].is_dir && w.entries[x].is_dir);
        assert(d != w.at(x));
        if known_full(w, seen, d) && !w.occupied(d) {
            let j = choose|j: int|
                seen.contains(j) && #[trigger] w.dir(j) && w.at(j).len() > 0 && w.at(j).drop_last()
                    == d && !w.removable(j);
            assert(seen2.contains(j) && w.dir(j));
        }
        if known_full(w, seen2, d) && !known_full(w, seen, d) {
            let j = choose|j: int|
                seen2.contains(j) && #[trigger] w.dir(j) && w.at(j).len() > 0 && w.at(j).drop_last()
                    == d && !w.removable(j);
            assert(j == x);
        }
        if !w.removable(x) && w.at(x).len() > 0 && d == w.at(x).drop_last() {
            assert(seen2.contains(x) && w.dir(x));
            assert(after.contains_key(d));
        }
    }
}

/// A directory beyond the reach of the scan adds nothing to the findings.
proof fn lemma_tell_same(w: Walk, seen: Set<int>, x: int, found: Findings)
    requires
        w.dir(x),
        w.too_deep(x),
        found.tell(w, seen),
    ensures
        found.tell(w, seen.insert(x)),
{
    lemma_tell_step(w, seen, x, found, found);
}

/// With the directory's own path, the set of shown paths still holds, with every other path, the
/// paths that lead to it.
proof fn lemma_included_closed(
    w: Walk,
    seen: Set<int>,
    found: Findings,
    included: Set<Names>,
    p: Names,
)
    requires
        found.tell(w, seen),
        included == found.included.deep_view().insert(p),
    ensures
        forall|d: Names|
            d.len() > 0 && #[trigger] included.contains(d) && d != p ==> included.contains(
                d.drop_last(),
            ),
{
    assert forall|d: Names|
        d.len() > 0 && #[trigger] included.contains(d) && d != p implies included.contains(
        d.drop_last(),
    ) by {
        assert(found.included.deep_view().contains(d));
        let j = choose|j: int| seen.contains(j) && #[trigger] w.shows(j, d);
        let e = d.drop_last();
        assert(w.at(j).take(e.len() as int) == w.at(j).take(d.len() as int).take(e.len() as int));
        assert(d.take(e.len() as int) == e);
        assert(w.shows(j, e));
        assert(found.included.deep_view().contains(e));
    }
}

/// The step of the findings: each set gains what directory `x` adds to it.
proof fn lemma_tell_step(w: Walk, seen: Set<int>, x: int, before: Findings, after: Findings)
    requires
        w.dir(x),
        before.tell(w, seen),
        forall|d: Names| #[trigger]
            after.included.deep_view().contains(d) == (before.included.deep_view().contains(d)
                || w.shows(x, d)),
        forall|d: Names| #[trigger]
            after.marks.empty.deep_view().contains(d) == (before.marks.empty.deep_view().contains(d)
                || w.empties(x, d)),
        forall|d: Names| #[trigger]
            after.marks.protected.deep_view().contains(d) == (before.marks.protected.deep_view().contains(d)
                || w.shields(x, d)),
        forall|d: Names| #[trigger]
            after.marks.hidden.deep_view().contains(d) == (before.marks.hidden.deep_view().contains(d)
                || w.hides(x, d)),
        forall|d: Names| #[trigger]
            after.marks.symlink.deep_view().contains(d) == (before.marks.symlink.deep_view().contains(d)
                || w.links(x, d)),
    ensures
        after.tell(w, seen.insert(x)),
{
    let seen2 = seen.insert(x);
    assert forall|d: Names| #[trigger]
        after.included.deep_view().contains(d) == exists|i: int|
            seen2.contains(i) && #[trigger] w.shows(i, d) by {
        if before.included.deep_view().contains(d) {
            let i = choose|i: int| seen.contains(i) && #[trigger] w.shows(i, d);
            assert(seen2.contains(i) && w.shows(i, d));
        } else if w.shows(x, d) {
            assert(seen2.contains(x));
        }
    }
    assert forall|d: Names| #[trigger]
        after.marks.empty.deep_view().contains(d) == exists|i: int|
            seen2.contains(i) && #[trigger] w.empties(i, d) by {
        if before.marks.empty.deep_view().contains(d) {
            let i = choose|i: int| seen.contains(i) && #[trigger] w.empties(i, d);
            assert(seen2.contains(i) && w.empties(i, d));
        } else if w.empties(x, d) {
            assert(seen2.contains(x));
        }
    }
    assert forall|d: Names| #[trigger]
        after.marks.protected.deep_view().contains(d) == exists|i: int|
            seen2.contains(i) && #[trigger] w.shields(i, d) by {
        if before.marks.protected.deep_view().contains(d) {
            let i = choose|i: int| seen.contains(i) && #[trigger] w.shields(i, d);
            assert(seen2.contains(i) && w.shields(i, d));
        } else if w.shields(x, d) {
            assert(seen2.contains(x));
        }
    }
    assert forall|d: Names| #[trigger]
        after.marks.hidden.deep_view().contains(d) == exists|i: int|
            seen2.contains(i) && #[trigger] w.hides(i, d) by {
        if before.marks.hidden.deep_view().contains(d) {
            let i = choose|i: int| seen.contains(i) && #[trigger] w.hides(i, d);
            assert(seen2.contains(i) && w.hides(i, d));
        } else if w.hides(x, d) {
            assert(seen2.contains(x));
        }
    }
    assert forall|d: Names| #[trigger]
        after.marks.symlink.deep_view().contains(d) == exists|i: int|
            seen2.contains(i) && #[trigger] w.links(i, d) by {
        if before.marks.symlink.deep_view().contains(d) {
            let i = choose|i: int| seen.contains(i) && #[trigger] w.links(i, d);
            assert(seen2.contains(i) && w.links(i, d));
        } else if w.links(x, d) {
            assert(seen2.contains(x));
        }
    }
}

/// Whether `queue` lists the directories of a walk, the deepest first.
spec fn is_queue(entries: Seq<WalkEntry>, queue: Seq<usize>) -> bool {
    &&& queue.no_duplicates()
    &&& forall|a: int|
        0 <= a < queue.len() ==> #[trigger] queue[a] < entries.len()
            && entries[queue[a] as int].is_dir
    &&& forall|i: int|
        0 <= i < entries.len() && (#[trigger] entries[i]).is_dir ==> queue.contains(i as usize)
    &&& forall|a: int, b: int|
        0 <= a < b < queue.len() ==> entries[#[trigger] queue[a] as int].path@.len()
            >= entries[#[trigger] queue[b] as int].path@.len()
}

/// The directories at the first `n` places of a queue.
spec fn first_of(queue: Seq<usize>, n: int) -> Set<int> {
    Set::new(|j: int| exists|a: int| 0 <= a < n && #[trigger] queue[a] == j)
}

/// Before place `k` of the queue all deeper directories have been seen, and after it the directory
/// at that place has.
proof fn lemma_queue_step(w: Walk, queue: Seq<usize>, k: int)
    requires
        is_queue(w.entries, queue),
        w.entries.len() <= usize::MAX,
        0 <= k < queue.len(),
    ensures
        w.dir(queue[k] as int),
        !first_of(queue, k).contains(queue[k] as int),
        forall|j: int| #[trigger]
            w.dir(j) && w.at(j).len() > w.at(queue[k] as int).len() ==> first_of(queue, k).contains(
                j,
            ),
        first_of(queue, k + 1) == first_of(queue, k).insert(queue[k] as int),
{
    let i = queue[k] as int;
    assert forall|j: int| #[trigger] w.dir(j) && w.at(j).len() > w.at(i).len() implies first_of(
        queue,
        k,
    ).contains(j) by {
        assert(w.entries[j].is_dir);
        let a = choose|a: int| 0 <= a < queue.len() && queue[a] == j as usize;
        assert(queue[a] == j);
        if a > k {
            assert(w.entries[queue[k] as int].path@.len() >= w.entries[queue[a] as int].path@.len());
        }
    }
    assert forall|j: int| #[trigger]
        first_of(queue, k + 1).contains(j) == first_of(queue, k).insert(i).contains(j) by {
        if first_of(queue, k).contains(j) {
            let a = choose|a: int| 0 <= a < k && #[trigger] queue[a] == j;
            assert(queue[a] == j);
        }
        if j == i {
            assert(queue[k] == j);
        }
    }
    assert(first_of(queue, k + 1) =~= first_of(queue, k).insert(i));
}

/// At the end of the queue all directories have been seen.
proof fn lemma_queue_end(w: Walk, queue: Seq<usize>)
    requires
        is_queue(w.entries, queue),
        w.entries.len() <= usize::MAX,
    ensures
        first_of(queue, queue.len() as int) == w.dirs(),
{
    let all = w.dirs();
    assert forall|j: int| first_of(queue, queue.len() as int).contains(j) == all.contains(j) by {
        if all.contains(j) {
            assert(w.entries[j].is_dir);
            let a = choose|a: int| 0 <= a < queue.len() && queue[a] == j as usize;
            assert(queue[a] == j);
        }
    }
    assert(first_of(queue, queue.len() as int) =~= all);
}

/// The first `n` places of a queue hold `n` directories.
proof fn lemma_queue_count(w: Walk, queue: Seq<usize>, n: int)
    requires
        is_queue(w.entries, queue),
        w.entries.len() <= usize::MAX,
        0 <= n <= queue.len(),
    ensures
        first_of(queue, n).finite(),
        first_of(queue, n).len() == n,
    decreases n,
{
    if n == 0 {
        assert(first_of(queue, n) =~= Set::<int>::empty());
    } else {
        lemma_queue_count(w, queue, n - 1);
        lemma_queue_step(w, queue, n - 1);
    }
}

/// A scan of a walk, one reading of the flag at a time.
pub struct ScanRun<'a> {
    root: &'a ScanRoot,
    entries: &'a Vec<WalkEntry>,
    settings: &'a ScanSettings,
    patterns: Vec<String>,
    skips: FxHashSet<Vec<Vec<u8>>>,
    /// The directories, the deepest first.
    queue: Vec<usize>,
    status: FxHashMap<Vec<Vec<u8>>, bool>,
    found: Findings,
    /// How often the flag was read. The first reading comes before everything, each further one
    /// before a directory.
    readings: usize,
    model: Ghost<Walk>,
}

impl<'a> ScanRun<'a> {
    /// The walk that is scanned.
    pub closed spec fn walk(self) -> Walk {
        self.model@
    }

    /// How many readings of the flag are left, beside the one that ends the scan.
    pub closed spec fn left(self) -> int {
        self.queue@.len() - self.readings
    }

    /// How many directories have been seen.
    spec fn done(self) -> int {
        if self.readings == 0 {
            0
        } else {
            self.readings - 1
        }
    }

    /// Whether the scan is consistent.
    pub closed spec fn wf(self) -> bool {
        let w = self.walk();
        &&& w == (Walk {
            root: *self.root,
            entries: self.entries@,
            settings: *self.settings,
        })
        &&& walk_ok(w.entries)
        &&& w.entries.len() <= usize::MAX
        &&& texts(self.patterns@) == dir_patterns(texts(self.settings.ignore_dirs@))
        &&& holds_skips(w, self.skips.deep_view())
        &&& is_queue(w.entries, self.queue@)
        &&& self.readings <= self.queue@.len()
        &&& self.found.tell(w, first_of(self.queue@, self.done()))
        &&& status_tells(w, first_of(self.queue@, self.done()), self.status.deep_view())
    }

    /// Finds out about the directory that the last reading of the flag let pass.
    fn step(&mut self)
        requires
            old(self).wf(),
            old(self).readings > 0,
        ensures
            final(self).walk() == old(self).walk(),
            final(self).root == old(self).root,
            final(self).entries == old(self).entries,
            final(self).settings == old(self).settings,
            final(self).patterns == old(self).patterns,
            final(self).skips == old(self).skips,
            final(self).queue == old(self).queue,
            final(self).readings == old(self).readings,
            final(self).found.tell(
                final(self).walk(),
                first_of(final(self).queue@, final(self).readings as int),
            ),
            status_tells(
                final(self).walk(),
                first_of(final(self).queue@, final(self).readings as int),
                final(self).status.deep_view(),
            ),
    {
        let k: usize = self.readings - 1;
        let i: usize = self.queue[k];
        proof {
            lemma_queue_step(self.walk(), self.queue@, k as int);
        }
        examine(
            self.root,
            self.entries,
            self.settings,
            &self.patterns,
            &self.skips,
            i,
            &mut self.status,
            &mut self.found,
            Ghost(first_of(self.queue@, k as int)),
        );
    }

    /// Goes on from a reading of the flag. A set flag ends the scan with an error; otherwise the
    /// scan goes on and, after the last directory, ends with its report.
    pub fn polled(&mut self, cancelled: bool) -> (r: Option<Result<Vec<DirectoryNode>, String>>)
        requires
            old(self).wf(),
        ensures
            final(self).walk() == old(self).walk(),
            cancelled ==> (r matches Some(Err(e)) && e@ == "Operation cancelled by user"@),
            !cancelled && old(self).left() > 0 ==> {
                &&& r is None
                &&& final(self).wf()
                &&& final(self).left() == old(self).left() - 1
            },
            !cancelled && old(self).left() == 0 ==> (r matches Some(Ok(nodes))
                && old(self).walk().is_report(nodes@)),
            old(self).left() >= 0,
    {
        if cancelled {
            return Some(Err("Operation cancelled by user".to_owned()));
        }
        if self.readings > 0 {
            self.step();
        }
        if self.readings < self.queue.len() {
            self.readings = self.readings + 1;
            return None;
        }
        let mut found = no_findings();
        std::mem::swap(&mut found, &mut self.found);
        proof {
            lemma_queue_end(self.walk(), self.queue@);
        }
        Some(Ok(make_report(self.root, found, Ghost(self.model@))))
    }
}

/// Findings about no directory.
fn no_findings() -> (found: Findings)
    ensures
        forall|w: Walk, queue: Seq<usize>| #[trigger] found.tell(w, first_of(queue, 0)),
{
    Findings {
        included: set_new(),
        marks: Marks {
            empty: set_new(),
            protected: set_new(),
            hidden: set_new(),
            symlink: set_new(),
        },
    }
}

/// Begins to scan a walk.
pub fn begin_scan<'a>(
    root: &'a ScanRoot,
    entries: &'a Vec<WalkEntry>,
    settings: &'a ScanSettings,
) -> (run: ScanRun<'a>)
    requires
        walk_ok(entries@),
    ensures
        run.wf(),
        run.walk() == (Walk { root: *root, entries: entries@, settings: *settings }),
        run.left() == run.walk().dirs().len(),
{
    let count = entries.len();
    let run = ScanRun {
        root,
        entries,
        settings,
        patterns: make_dir_patterns(&settings.ignore_dirs),
        skips: skipped_dirs(root, entries, settings),
        queue: bottom_up(entries),
        status: occupied_status(root, entries, settings),
        found: no_findings(),
        readings: 0,
        model: Ghost(Walk { root: *root, entries: entries@, settings: *settings }),
    };
    proof {
        lemma_queue_count(run.walk(), run.queue@, run.queue@.len() as int);
        lemma_queue_end(run.walk(), run.queue@);
    }
    run
}

/// The members of a set of paths, in path order.
fn sorted_paths(set: FxHashSet<Vec<Vec<u8>>>) -> (paths: Vec<DirPath>)
    ensures
        forall|a: int, b: int|
            0 <= a < b < paths@.len() ==> path_before(
                (#[trigger] paths@[a])@,
                (#[trigger] paths@[b])@,
            ),
        forall|a: int|
            0 <= a < paths@.len() ==> set.deep_view().contains((#[trigger] paths@[a])@),
        forall|d: Names| #[trigger]
            set.deep_view().contains(d) ==> exists|a: int|
                0 <= a < paths@.len() && (#[trigger] paths@[a])@ == d,
{
    let ghost members = set.deep_view();
    let list = set_into_vec(set);
    let ghost all = list.deep_view();
    let mut keys: Vec<DirPath> = Vec::new();
    let mut i: usize = 0;
    while i < list.len()
        invariant
            i <= list@.len(),
            all == list.deep_view(),
            keys@.len() == i,
            forall|k: int| 0 <= k < i ==> (#[trigger] keys@[k])@ == all[k],
        decreases list@.len() - i,
    {
        let names = copy_names(&list[i], list[i].len());
        proof {
            assert(list@[i as int].deep_view() == all[i as int]);
            assert(all[i as int].take(all[i as int].len() as int) == all[i as int]);
        }
        keys.push(DirPath { names });
        i += 1;
    }
    let order = sorted_order(&keys);
    let mut paths: Vec<DirPath> = Vec::new();
    let mut k: usize = 0;
    while k < order.len()
        invariant
            k <= order@.len(),
            crate::order::is_sorted_order(keys@, 0, keys@.len() as int, order@),
            paths@.len() == k,
            forall|a: int| 0 <= a < k ==> (#[trigger] paths@[a])@ == keys@[order@[a] as int]@,
        decreases order@.len() - k,
    {
        paths.push(keys[order[k]].copy());
        k += 1;
    }
    proof {
        assert forall|a: int, b: int| 0 <= a < b < paths@.len() implies path_before(
            (#[trigger] paths@[a])@,
            (#[trigger] paths@[b])@,
        ) by {
            let x = order@[a] as int;
            let y = order@[b] as int;
            assert(crate::order::sorts_before(keys@, x, y));
            assert(x != y);
            assert(all[x] != all[y]);
            path_order_is_total(keys@[x]@, keys@[y]@);
        }
        assert forall|a: int| 0 <= a < paths@.len() implies members.contains(
            (#[trigger] paths@[a])@,
        ) by {
            assert(all.contains(all[order@[a] as int]));
            assert(all.to_set().contains(paths@[a]@));
        }
        assert forall|d: Names| #[trigger] members.contains(d) implies exists|a: int|
            0 <= a < paths@.len() && (#[trigger] paths@[a])@ == d by {
            assert(all.to_set().contains(d));
            let x = choose|x: int| 0 <= x < all.len() && all[x] == d;
            assert(order@.contains(x as usize));
            let a = choose|a: int| 0 <= a < order@.len() && order@[a] == x as usize;
            assert(paths@[a]@ == d);
        }
    }
    paths
}

/// The node of the path `d` under the root, with the flags of its neighbourhood unset.
fn make_node(root: &ScanRoot, d: &DirPath, marks: &Marks, Ghost(w): Ghost<Walk>) -> (node:
    DirectoryNode)
    requires
        w.root == *root,
        marks.tell(w, w.dirs()),
        d@.len() <= i32::MAX,
    ensures
        w.describes(d@, node),
        !node.has_children,
{
    let is_empty = set_contains(&marks.empty, &d.names);
    let is_protected = set_contains(&marks.protected, &d.names);
    let is_hidden = set_contains(&marks.hidden, &d.names);
    let is_symlink = set_contains(&marks.symlink, &d.names);
    proof {
        lemma_all_marks(w, *marks, d@);
        names_view(d.names);
    }
    let n = d.names.len();
    let name = if n == 0 {
        make_name_text(root.wide, &root.text)
    } else {
        proof {
            name_view(d.names, n - 1);
        }
        make_name_text(root.wide, &d.names[n - 1])
    };
    DirectoryNode {
        path: root.path.join(d),
        name,
        path_str: shown_text(root, d),
        depth: n as i32,
        status: if is_empty {
            EMPTY
        } else if is_protected {
            PROTECTED
        } else {
            NORMAL
        },
        has_children: false,
        is_expanded: true,
        is_last_sibling: false,
        is_hidden,
        is_symlink,
    }
}

/// When all directories have been seen, the marks are those of the whole walk.
proof fn lemma_all_marks(w: Walk, marks: Marks, d: Names)
    requires
        marks.tell(w, w.dirs()),
    ensures
        marks.empty.deep_view().contains(d) == exists|i: int| #[trigger] w.empties(i, d),
        marks.protected.deep_view().contains(d) == exists|i: int| #[trigger] w.shields(i, d),
        marks.hidden.deep_view().contains(d) == exists|i: int| #[trigger] w.hides(i, d),
        marks.symlink.deep_view().contains(d) == exists|i: int| #[trigger] w.links(i, d),
{
    let all = w.dirs();
    if exists|i: int| #[trigger] w.empties(i, d) {
        let i = choose|i: int| #[trigger] w.empties(i, d);
        assert(all.contains(i) && w.empties(i, d));
    }
    if exists|i: int| #[trigger] w.shields(i, d) {
        let i = choose|i: int| #[trigger] w.shields(i, d);
        assert(all.contains(i) && w.shields(i, d));
    }
    if exists|i: int| #[trigger] w.hides(i, d) {
        let i = choose|i: int| #[trigger] w.hides(i, d);
        assert(all.contains(i) && w.hides(i, d));
    }
    if exists|i: int| #[trigger] w.links(i, d) {
        let i = choose|i: int| #[trigger] w.links(i, d);
        assert(all.contains(i) && w.links(i, d));
    }
}

/// The report of a scan, from what it found out.
fn make_report(root: &ScanRoot, found: Findings, Ghost(w): Ghost<Walk>) -> (nodes: Vec<
    DirectoryNode,
>)
    requires
        w.root == *root,
        walk_ok(w.entries),
        found.tell(w, w.dirs()),
    ensures
        w.is_report(nodes@),
{
    let Findings { included, marks } = found;
    proof {
        assert forall|d: Names| #[trigger] included.deep_view().contains(d) == w.shown(d) by {
            if w.shown(d) {
                let i = choose|i: int| #[trigger] w.shows(i, d);
                assert(w.dirs().contains(i) && w.shows(i, d));
            }
        }
    }
    let ghost members = included.deep_view();
    let paths = sorted_paths(included);
    let mut nodes: Vec<DirectoryNode> = Vec::new();
    let mut k: usize = 0;
    while k < paths.len()
        invariant
            k <= paths@.len(),
            w.root == *root,
            walk_ok(w.entries),
            marks.tell(w, w.dirs()),
            forall|a: int| 0 <= a < paths@.len() ==> w.shown((#[trigger] paths@[a])@),
            nodes@.len() == k,
            forall|a: int|
                0 <= a < k ==> w.describes(paths@[a]@, #[trigger] nodes@[a])
                    && !nodes@[a].has_children,
        decreases paths@.len() - k,
    {
        proof {
            let d = paths@[k as int]@;
            let i = choose|i: int| #[trigger] w.shows(i, d);
            assert(w.entries[i].path@.len() <= i32::MAX);
        }
        let node = make_node(root, &paths[k], &marks, Ghost(w));
        nodes.push(node);
        k += 1;
    }
    let ghost plain = nodes@;
    compute_tree_relationships(&mut nodes);
    proof {
        let r = w.root.path@;
        assert forall|a: int, b: int| 0 <= a < b < nodes@.len() implies path_before(
            #[trigger] nodes@[a].path@,
            #[trigger] nodes@[b].path@,
        ) by {
            order_below_root(r, paths@[a]@, paths@[b]@);
        }
        assert forall|a: int| 0 <= a < nodes@.len() implies {
            let d = (#[trigger] nodes@[a]).path@.skip(r.len() as int);
            &&& w.shown(d)
            &&& w.describes(d, nodes@[a])
            &&& nodes@[a].has_children == opens_subtree(nodes@, a)
            &&& nodes@[a].is_last_sibling == ends_level(nodes@, a)
        } by {
            assert(nodes@[a].path@ == r + paths@[a]@);
            assert((r + paths@[a]@).skip(r.len() as int) == paths@[a]@);
            flags_by_depths(plain, nodes@, a);
        }
        assert forall|d: Names| #[trigger] w.shown(d) implies exists|a: int|
            0 <= a < nodes@.len() && (#[trigger] nodes@[a]).path@ == r + d by {
            assert(members.contains(d));
            let a = choose|a: int| 0 <= a < paths@.len() && (#[trigger] paths@[a])@ == d;
            assert(nodes@[a].path@ == r + d);
        }
    }
    nodes
}

/// The report of a walk: the tree of the directories that count as empty or are protected, and
/// of those that lead to them.
pub fn scan_tree(root: &ScanRoot, entries: &Vec<WalkEntry>, settings: &ScanSettings) -> (nodes:
    Vec<DirectoryNode>)
    requires
        walk_ok(entries@),
    ensures
        (Walk { root: *root, entries: entries@, settings: *settings }).is_report(nodes@),
{
    let mut run = begin_scan(root, entries, settings);
    loop
        invariant
            run.wf(),
            run.walk() == (Walk { root: *root, entries: entries@, settings: *settings }),
        decreases run.left(),
    {
        if let Some(result) = run.polled(false) {
            return result.unwrap();
        }
    }
}

/// Scans a walk, unless the flag is seen set, which ends the scan with an error.
pub fn scan_empty_dirs(
    root: &ScanRoot,
    entries: &Vec<WalkEntry>,
    settings: &ScanSettings,
    cancel_flag: &AtomicBool,
) -> (r: Result<Vec<DirectoryNode>, String>)
    requires
        walk_ok(entries@),
    ensures
        match r {
            Ok(nodes) => (Walk {
                root: *root,
                entries: entries@,
                settings: *settings,
            }).is_report(nodes@),
            Err(e) => e@ == "Operation cancelled by user"@,
        },
{
    let mut run = begin_scan(root, entries, settings);
    loop
        invariant
            run.wf(),
            run.walk() == (Walk { root: *root, entries: entries@, settings: *settings }),
        decreases run.left(),
    {
        let cancelled = cancel_flag.load(Ordering::Relaxed);
        if let Some(result) = run.polled(cancelled) {
            return result;
        }
    }
}

/// The lines that report the errors of a walk.
pub open spec fn error_lines(errors: Seq<Seq<char>>, hide: bool) -> Seq<Seq<char>> {
    if errors.len() == 0 {
        Seq::empty()
    } else if hide {
        seq!["[!] "@ + decimal(errors.len()) + " item(s) skipped due to access errors."@]
    } else {
        errors.map_values(|e: Seq<char>| "[!] Access error: "@ + e)
    }
}

/// The lines that report the errors of a walk: one for each, or one that counts them.
pub fn walk_error_lines(errors: &Vec<String>, settings: &ScanSettings) -> (lines: Vec<String>)
    ensures
        texts(lines@) == error_lines(texts(errors@), settings.hide_search_errors),
{
    let mut lines: Vec<String> = Vec::new();
    let n = errors.len();
    if n == 0 {
        assert(texts(lines@) =~= Seq::<Seq<char>>::empty());
        return lines;
    }
    if settings.hide_search_errors {
        let count = decimal_text(n);
        lines.push(cat3("[!] ", count.as_str(), " item(s) skipped due to access errors."));
        assert(texts(lines@) =~= seq![lines@[0]@]);
        return lines;
    }
    let mut i: usize = 0;
    while i < n
        invariant
            i <= n == errors@.len(),
            lines@.len() == i,
            forall|j: int|
                0 <= j < i ==> (#[trigger] lines@[j])@ == "[!] Access error: "@ + errors@[j]@,
        decreases n - i,
    {
        lines.push(cat("[!] Access error: ", errors[i].as_str()));
        i += 1;
    }
    assert(texts(lines@) =~= error_lines(texts(errors@), false));
    lines
}

} // verus!

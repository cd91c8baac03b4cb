//! Finding candidates for empty directories in the master file table of a volume.

use crate::collections::{map_get, map_insert, map_new, set_contains, set_insert, set_new};
use crate::mft_path::{
    begins, below, count_slashes, ends, ends_at_drive, folder, folder_is_a_beginning, folder_of,
    folders_above, is_at_drive, is_below, make_path_key, path_key, slashes,
};
use crate::scanner::ScanSettings;
use crate::text::{lemma_pushed, texts, to_chars};
use crate::wild::{any_match, any_matches};
use rustc_hash::{FxHashMap, FxHashSet};
use vstd::prelude::*;

verus! {

/// A path as text, as a sequence of characters.
pub type Text = Seq<char>;

/// An entry of the file table.
pub struct MftRecord {
    /// The text of the entry's path.
    pub path: String,
    /// The text of the last name of the path.
    pub file_name: String,
    pub is_directory: bool,
    /// The size in bytes, where it is known.
    pub size: Option<u64>,
}

/// A file table: the text of the directory to scan, the entries, and the settings.
pub struct Table {
    pub root: Text,
    pub records: Seq<MftRecord>,
    pub settings: ScanSettings,
}

impl Table {
    /// The key of entry `i`.
    pub open spec fn key(self, i: int) -> Text {
        path_key(self.records[i].path@)
    }

    /// The key of the directory to scan.
    pub open spec fn root_key(self) -> Text {
        path_key(self.root)
    }

    /// Whether entry `i` is a directory.
    pub open spec fn folder(self, i: int) -> bool {
        0 <= i < self.records.len() && self.records[i].is_directory
    }

    /// Whether entry `i` is a file that is neither ignored by its name nor an empty file that does
    /// not count.
    pub open spec fn keeps(self, i: int) -> bool {
        let e = self.records[i];
        &&& 0 <= i < self.records.len()
        &&& !e.is_directory
        &&& !any_match(texts(self.settings.ignore_files@), e.file_name@)
        &&& !(self.settings.consider_empty_files_empty && e.size == Some(0u64))
    }

    /// Whether the key `q` is that of a path below the directory to scan.
    pub open spec fn in_scope(self, q: Text) -> bool {
        below(q, self.root_key())
    }

    /// How many names the key `q`, which is in scope, has below the directory to scan.
    pub open spec fn depth(self, q: Text) -> int {
        slashes(q) - slashes(self.root_key()) + if ends(self.root_key(), '\\') {
            1int
        } else {
            0
        }
    }

    /// Whether the key `q` lies deeper than the scan goes.
    pub open spec fn too_deep(self, q: Text) -> bool {
        self.settings.max_depth >= 0 && self.in_scope(q) && self.depth(q) > self.settings.max_depth
    }

    /// Whether entry `i` keeps the folders above it from counting as empty: a file that is kept,
    /// or a directory that lies deeper than the scan goes.
    pub open spec fn blocks(self, i: int) -> bool {
        self.keeps(i) || (self.folder(i) && self.too_deep(self.key(i)))
    }

    /// Whether such an entry lies somewhere under the folder `q`.
    pub open spec fn occupied(self, q: Text) -> bool {
        exists|i: int| #[trigger] self.blocks(i) && folders_above(self.key(i)).contains(q)
    }

    /// The path of the last directory with the key `q` among the first `n` entries.
    pub open spec fn listed(self, n: int, q: Text) -> Option<Text>
        decreases n,
    {
        if n <= 0 {
            None
        } else if self.folder(n - 1) && self.key(n - 1) == q {
            Some(self.records[n - 1].path@)
        } else {
            self.listed(n - 1, q)
        }
    }

    /// The path of the directory with the key `q`, where the table, or the root, gives one.
    pub open spec fn known(self, q: Text) -> Option<Text> {
        match self.listed(self.records.len() as int, q) {
            Some(p) => Some(p),
            None => if q == self.root_key() {
                Some(self.root)
            } else {
                None
            },
        }
    }

    /// The keys of the directories that the table, or the root, gives.
    pub open spec fn dirs(self) -> Set<Text> {
        Set::new(|q: Text| self.known(q) is Some)
    }

    /// The path that is shown for the key `q`.
    pub open spec fn place(self, q: Text) -> Text {
        match self.known(q) {
            Some(p) => p,
            None => q,
        }
    }

    /// Whether `q` is the key of a directory within reach of the scan under which nothing has to
    /// stay.
    pub open spec fn vacant(self, q: Text) -> bool {
        self.known(q) is Some && !self.occupied(q) && self.in_scope(q) && !self.too_deep(q)
    }

    /// Whether the vacant directory `c` is `q` or lies under `q`, in scope.
    pub open spec fn leads(self, c: Text, q: Text) -> bool {
        self.vacant(c) && (q == c || (folders_above(c).contains(q) && self.in_scope(q)))
    }

    /// Whether the key `q` is shown: a vacant directory, or a folder above one.
    pub open spec fn shown(self, q: Text) -> bool {
        exists|c: Text| #[trigger] self.leads(c, q)
    }
}

impl Table {
    /// There are finitely many directories, the one to scan among them.
    pub(crate) proof fn lemma_has_root(self)
        ensures
            self.dirs().finite(),
            self.dirs().contains(self.root_key()),
            self.dirs().len() > 0,
    {
        let n = self.records.len();
        let keys = Seq::new(n, |i: int| self.key(i)).push(self.root_key());
        assert(self.dirs().subset_of(keys.to_set())) by {
            assert forall|q: Text| self.dirs().contains(q) implies keys.to_set().contains(q) by {
                if self.listed(n as int, q) is Some {
                    let i = self.lemma_listed(n as int, q);
                    assert(keys[i] == q);
                } else {
                    assert(keys[n as int] == q);
                }
            }
        }
        vstd::seq_lib::seq_to_set_is_finite(keys);
        vstd::set_lib::lemma_set_subset_finite(keys.to_set(), self.dirs());
        assert(self.dirs().contains(self.root_key()));
    }

    /// The path of a directory that the table, or the root, gives has the directory's key.
    pub(crate) proof fn lemma_place(self, q: Text)
        requires
            self.known(q) is Some,
        ensures
            path_key(self.place(q)) == q,
    {
        if self.listed(self.records.len() as int, q) is Some {
            let i = self.lemma_listed(self.records.len() as int, q);
        }
    }

    proof fn lemma_listed(self, n: int, q: Text) -> (i: int)
        requires
            self.listed(n, q) is Some,
        ensures
            0 <= i < n,
            self.folder(i),
            self.key(i) == q,
            self.listed(n, q) == Some(self.records[i].path@),
        decreases n,
    {
        if self.folder(n - 1) && self.key(n - 1) == q {
            n - 1
        } else {
            self.lemma_listed(n - 1, q)
        }
    }
}

/// Every folder above a folder above `s` is above `s`.
pub proof fn folders_above_are_nested(s: Text, q: Text, r: Text)
    requires
        folders_above(s).contains(q),
        folders_above(q).contains(r),
    ensures
        folders_above(s).contains(r),
    decreases s.len(),
{
    folder_is_a_beginning(s);
    let p = folder_of(s)->0;
    let above = folders_above(s);
    let i = choose|i: int| 0 <= i < above.len() && above[i] == q;
    if ends_at_drive(p) {
        assert(q == p);
        lemma_drive_is_its_own_folder(p);
        assert(folders_above(q) == seq![q]);
        assert(r == q);
    } else {
        let rest = folders_above(p);
        if i == 0 {
            assert(q == p);
        } else {
            assert(rest[i - 1] == q);
            assert(rest.contains(q));
            folders_above_are_nested(p, q, r);
        }
        let k = choose|k: int| 0 <= k < rest.len() && rest[k] == r;
        assert(above[k + 1] == r);
    }
}

proof fn lemma_drive_is_its_own_folder(p: Text)
    requires
        ends_at_drive(p),
    ensures
        folder_of(p) == Some(p),
{
    assert(crate::mft_path::last_slash(p) == p.len() - 1);
    assert(p.take(p.len() as int) == p);
}

/// A folder above a path is a beginning of it.
pub proof fn folders_above_are_beginnings(s: Text, q: Text)
    requires
        folders_above(s).contains(q),
    ensures
        begins(s, q),
        q.len() > 0,
    decreases s.len(),
{
    folder_is_a_beginning(s);
    let p = folder_of(s)->0;
    let above = folders_above(s);
    let i = choose|i: int| 0 <= i < above.len() && above[i] == q;
    if i > 0 {
        let rest = folders_above(p);
        assert(rest[i - 1] == q);
        folders_above_are_beginnings(p, q);
        assert(s.take(q.len() as int) == s.take(p.len() as int).take(q.len() as int));
    }
}

proof fn lemma_step_up(s: Text, p: Text, q: Text)
    requires
        folder_of(s) == Some(p),
        p.len() > 0,
    ensures
        folders_above(s).contains(q) == (q == p || (!ends_at_drive(p) && folders_above(p).contains(
            q,
        ))),
{
    let above = folders_above(s);
    if ends_at_drive(p) {
        assert(above[0] == p);
    } else {
        assert(above[0] == p);
        let rest = folders_above(p);
        if rest.contains(q) {
            let i = choose|i: int| 0 <= i < rest.len() && rest[i] == q;
            assert(above[i + 1] == q);
        }
        if above.contains(q) && q != p {
            let i = choose|i: int| 0 <= i < above.len() && above[i] == q;
            assert(rest[i - 1] == q);
        }
    }
}

/// Adds the folders above `start` to a set that with a folder holds those above it.
fn occupy_above(occupied: &mut FxHashSet<String>, start: &String)
    requires
        forall|q: Text, r: Text|
            old(occupied).deep_view().contains(q) && #[trigger] folders_above(q).contains(r)
                ==> old(occupied).deep_view().contains(r),
    ensures
        forall|q: Text| #[trigger]
            final(occupied).deep_view().contains(q) == (old(occupied).deep_view().contains(q)
                || folders_above(start@).contains(q)),
{
    let ghost before = occupied.deep_view();
    let mut here = start.clone();
    loop
        invariant_except_break
            forall|q: Text| #[trigger]
                folders_above(start@).contains(q) ==> occupied.deep_view().contains(q)
                    || folders_above(here@).contains(q),
            forall|q: Text| #[trigger]
                occupied.deep_view().contains(q) ==> before.contains(q) || (q.len() >= here@.len()
                    && !ends_at_drive(q)),
        invariant
            before == old(occupied).deep_view(),
            forall|q: Text, r: Text|
                before.contains(q) && #[trigger] folders_above(q).contains(r) ==> before.contains(
                    r,
                ),
            forall|q: Text| #[trigger]
                occupied.deep_view().contains(q) ==> before.contains(q) || folders_above(
                    start@,
                ).contains(q),
            forall|q: Text| #[trigger] before.contains(q) ==> occupied.deep_view().contains(q),
            forall|q: Text| #[trigger]
                folders_above(here@).contains(q) ==> folders_above(start@).contains(q),
        ensures
            forall|q: Text| #[trigger]
                folders_above(start@).contains(q) ==> occupied.deep_view().contains(q),
        decreases here@.len(),
    {
        match folder(here.as_str()) {
            None => {
                assert(folders_above(here@).len() == 0);
                break;
            },
            Some(p) => {
                proof {
                    folder_is_a_beginning(here@);
                }
                if p.as_str().is_empty() {
                    assert(folders_above(here@).len() == 0);
                    break;
                }
                proof {
                    assert forall|q: Text| #[trigger]
                        folders_above(here@).contains(q) == (q == p@ || (!ends_at_drive(p@)
                            && folders_above(p@).contains(q))) by {
                        lemma_step_up(here@, p@, q);
                    }
                    assert(folders_above(here@).contains(p@));
                }
                if set_contains(occupied, &p) {
                    assert(before.contains(p@));
                    break;
                }
                let at_drive = is_at_drive(p.as_str());
                set_insert(occupied, p.clone());
                if at_drive {
                    break;
                }
                assert forall|q: Text| #[trigger] folders_above(p@).contains(q) implies folders_above(
                    start@,
                ).contains(q) by {
                    assert(folders_above(here@).contains(q));
                }
                here = p;
            },
        }
    }
}

/// What is known of the directories of a file table, by their keys.
pub(crate) struct MftIndex {
    root_key: String,
    /// The path of each directory.
    dirs: FxHashMap<String, String>,
    /// The keys of the directories.
    keys: Vec<String>,
    /// The folders under which something has to stay.
    occupied: FxHashSet<String>,
}

/// Whether `keys` are the keys of `dirs`, each once.
spec fn keys_of(keys: Seq<String>, dirs: Map<Text, Text>) -> bool {
    &&& texts(keys).no_duplicates()
    &&& forall|q: Text| #[trigger] dirs.contains_key(q) == texts(keys).contains(q)
}

/// Gives the directory with the key `key` the path `path`.
fn put_dir(dirs: &mut FxHashMap<String, String>, keys: &mut Vec<String>, key: String, path: String)
    requires
        keys_of(old(keys)@, old(dirs).deep_view()),
    ensures
        keys_of(final(keys)@, final(dirs).deep_view()),
        final(dirs).deep_view() == old(dirs).deep_view().insert(key@, path@),
{
    let is_new = map_get(dirs, &key).is_none();
    if is_new {
        proof {
            lemma_pushed(keys@, key);
        }
        keys.push(key.clone());
    }
    map_insert(dirs, key, path);
}

impl MftIndex {
    /// Whether the index is that of a file table.
    pub(crate) closed spec fn of(self, t: Table) -> bool {
        &&& self.root_key@ == t.root_key()
        &&& keys_of(self.keys@, self.dirs.deep_view())
        &&& forall|q: Text| #[trigger] self.dirs.deep_view().contains_key(q) == (t.known(q) is Some)
        &&& forall|q: Text| #[trigger]
            self.dirs.deep_view().contains_key(q) ==> Some(self.dirs.deep_view()[q]) == t.known(q)
        &&& forall|q: Text| #[trigger] self.occupied.deep_view().contains(q) == t.occupied(q)
    }
}

impl MftIndex {
    /// The path that is shown for a key.
    pub(crate) fn path_of(&self, key: &String, Ghost(t): Ghost<Table>) -> (path: String)
        requires
            self.of(t),
        ensures
            path@ == t.place(key@),
    {
        match map_get(&self.dirs, key) {
            Some(path) => path.clone(),
            None => key.clone(),
        }
    }
}

impl MftIndex {
    /// Whether the index holds what the first `n` entries of a file table tell.
    pub(crate) closed spec fn so_far(self, t: Table, n: int) -> bool {
        &&& self.root_key@ == t.root_key()
        &&& keys_of(self.keys@, self.dirs.deep_view())
        &&& forall|q: Text| #[trigger]
            self.dirs.deep_view().contains_key(q) == (t.listed(n, q) is Some)
        &&& forall|q: Text| #[trigger]
            self.dirs.deep_view().contains_key(q) ==> Some(self.dirs.deep_view()[q]) == t.listed(n, q)
        &&& forall|q: Text| #[trigger]
            self.occupied.deep_view().contains(q) == exists|k: int|
                k < n && #[trigger] t.blocks(k) && folders_above(t.key(k)).contains(q)
    }

    /// How many directories the index holds.
    pub(crate) closed spec fn count(self) -> nat {
        self.keys@.len()
    }

    /// An index of nothing.
    pub(crate) fn new(root: &str) -> (index: MftIndex)
        ensures
            forall|t: Table| t.root == root@ ==> #[trigger] index.so_far(t, 0),
    {
        let index = MftIndex {
            root_key: make_path_key(root),
            dirs: map_new(),
            keys: Vec::new(),
            occupied: set_new(),
        };
        assert forall|t: Table| t.root == root@ implies #[trigger] index.so_far(t, 0) by {}
        index
    }

    /// How many directories the index holds.
    pub(crate) fn len(&self) -> (n: usize)
        ensures
            n == self.count(),
    {
        self.keys.len()
    }

    /// Whether a key lies deeper than a scan goes.
    fn is_too_deep(&self, key: &String, settings: &ScanSettings, Ghost(t): Ghost<Table>) -> (r: bool)
        requires
            self.root_key@ == t.root_key(),
            t.settings == *settings,
        ensures
            r == t.too_deep(key@),
    {
        if settings.max_depth < 0 || !is_below(key.as_str(), self.root_key.as_str()) {
            return false;
        }
        let top = to_chars(self.root_key.as_str());
        let n = top.len();
        let more: u128 = if n > 0 && top[n - 1] == '\\' {
            1
        } else {
            0
        };
        let here = count_slashes(key.as_str()) as u128 + more;
        let limit = count_slashes(self.root_key.as_str()) as u128 + settings.max_depth as u128;
        here > limit
    }

    /// Takes in the next entry of a file table.
    pub(crate) fn add(
        &mut self,
        record: &MftRecord,
        settings: &ScanSettings,
        Ghost(t): Ghost<Table>,
        Ghost(i): Ghost<int>,
    )
        requires
            0 <= i < t.records.len(),
            *record == t.records[i],
            t.settings == *settings,
            old(self).so_far(t, i),
        ensures
            final(self).so_far(t, i + 1),
    {
        let key = make_path_key(record.path.as_str());
        let ghost before = self.occupied.deep_view();
        let blocks = if record.is_directory {
            self.is_too_deep(&key, settings, Ghost(t))
        } else {
            let is_ignored = any_matches(&settings.ignore_files, record.file_name.as_str());
            let is_empty_file = settings.consider_empty_files_empty && match record.size {
                Some(n) => n == 0,
                None => false,
            };
            !is_ignored && !is_empty_file
        };
        assert(blocks == t.blocks(i));
        if blocks {
            proof {
                assert forall|q: Text, r: Text|
                    before.contains(q) && #[trigger] folders_above(q).contains(r) implies before.contains(
                    r,
                ) by {
                    let k = choose|k: int|
                        k < i && #[trigger] t.blocks(k) && folders_above(t.key(k)).contains(q);
                    folders_above_are_nested(t.key(k), q, r);
                    assert(t.blocks(k));
                }
            }
            occupy_above(&mut self.occupied, &key);
        }
        if record.is_directory {
            put_dir(&mut self.dirs, &mut self.keys, key, record.path.clone());
        }
        proof {
            assert forall|q: Text| #[trigger]
                self.occupied.deep_view().contains(q) == exists|k: int|
                    k < i + 1 && #[trigger] t.blocks(k) && folders_above(t.key(k)).contains(q) by {
                if before.contains(q) {
                    let k = choose|k: int|
                        k < i && #[trigger] t.blocks(k) && folders_above(t.key(k)).contains(q);
                    assert(t.blocks(k));
                } else if self.occupied.deep_view().contains(q) {
                    assert(t.blocks(i));
                }
            }
        }
    }

    /// Ends the index, with the directory to scan.
    pub(crate) fn finish(&mut self, root: &str, Ghost(t): Ghost<Table>)
        requires
            t.root == root@,
            old(self).so_far(t, t.records.len() as int),
        ensures
            final(self).of(t),
            final(self).count() > 0,
            final(self).count() == t.dirs().len(),
    {
        let ghost n = t.records.len() as int;
        let has_root = map_get(&self.dirs, &self.root_key).is_some();
        if !has_root {
            let key = self.root_key.clone();
            put_dir(&mut self.dirs, &mut self.keys, key, root.to_owned());
        }
        proof {
            assert(self.dirs.deep_view().contains_key(t.root_key()));
            let keys = texts(self.keys@);
            assert(keys.contains(t.root_key()));
            keys.unique_seq_to_set();
            assert(keys.to_set() =~= t.dirs()) by {
                assert forall|q: Text| #[trigger] keys.to_set().contains(q) == t.dirs().contains(
                    q,
                ) by {
                    assert(self.dirs.deep_view().contains_key(q) == (t.known(q) is Some));
                }
            }
            assert forall|q: Text| #[trigger]
                self.occupied.deep_view().contains(q) == t.occupied(q) by {
                if t.occupied(q) {
                    let k = choose|k: int| #[trigger]
                        t.blocks(k) && folders_above(t.key(k)).contains(q);
                    assert(k < n && t.blocks(k));
                }
            }
        }
    }
}

/// Adds `start`, and the folders above it in scope, to a list of keys that with a key holds the
/// folders above it in scope.
fn show_above(
    root_key: &String,
    shown: &mut FxHashSet<String>,
    list: &mut Vec<String>,
    start: &String,
    Ghost(t): Ghost<Table>,
)
    requires
        root_key@ == t.root_key(),
        t.in_scope(start@),
        texts(old(list)@).no_duplicates(),
        forall|q: Text| #[trigger]
            old(shown).deep_view().contains(q) == texts(old(list)@).contains(q),
        forall|q: Text, r: Text|
            old(shown).deep_view().contains(q) && #[trigger] folders_above(q).contains(r)
                && t.in_scope(r) ==> old(shown).deep_view().contains(r),
    ensures
        texts(final(list)@).no_duplicates(),
        forall|q: Text| #[trigger]
            final(shown).deep_view().contains(q) == texts(final(list)@).contains(q),
        forall|q: Text| #[trigger]
            final(shown).deep_view().contains(q) == (old(shown).deep_view().contains(q) || q
                == start@ || (folders_above(start@).contains(q) && t.in_scope(q))),
{
    let ghost before = shown.deep_view();
    add_key(shown, list, start.clone());
    let ghost first = shown.deep_view();
    let mut here = start.clone();
    loop
        invariant_except_break
            forall|q: Text| #[trigger]
                folders_above(start@).contains(q) && t.in_scope(q) ==> shown.deep_view().contains(q)
                    || folders_above(here@).contains(q),
            forall|q: Text| #[trigger]
                shown.deep_view().contains(q) ==> first.contains(q) || (q.len() >= here@.len()
                    && !ends_at_drive(q)),
        invariant
            first == before.insert(start@),
            before == old(shown).deep_view(),
            root_key@ == t.root_key(),
            texts(list@).no_duplicates(),
            forall|q: Text| #[trigger] shown.deep_view().contains(q) == texts(list@).contains(q),
            forall|q: Text, r: Text|
                before.contains(q) && #[trigger] folders_above(q).contains(r) && t.in_scope(r)
                    ==> before.contains(r),
            forall|q: Text| #[trigger]
                shown.deep_view().contains(q) ==> first.contains(q) || (folders_above(
                    start@,
                ).contains(q) && t.in_scope(q)),
            forall|q: Text| #[trigger] first.contains(q) ==> shown.deep_view().contains(q),
            forall|q: Text| #[trigger]
                folders_above(here@).contains(q) ==> folders_above(start@).contains(q),
            here@.len() < start@.len() || here@ == start@,
        ensures
            forall|q: Text| #[trigger]
                folders_above(start@).contains(q) && t.in_scope(q) ==> shown.deep_view().contains(q),
        decreases here@.len(),
    {
        match folder(here.as_str()) {
            None => {
                assert(folders_above(here@).len() == 0);
                break;
            },
            Some(p) => {
                proof {
                    folder_is_a_beginning(here@);
                    if p@.len() > 0 {
                        assert forall|q: Text| #[trigger]
                            folders_above(here@).contains(q) == (q == p@ || (!ends_at_drive(p@)
                                && folders_above(p@).contains(q))) by {
                            lemma_step_up(here@, p@, q);
                        }
                        assert(folders_above(here@).contains(p@));
                    }
                }
                if !is_below(p.as_str(), root_key.as_str()) {
                    proof {
                        assert forall|q: Text| #[trigger] folders_above(here@).contains(q) implies !t.in_scope(
                            q,
                        ) by {
                            folders_above_are_beginnings(here@, q);
                            if p@.len() == 0 {
                                assert(folders_above(here@).len() == 0);
                            } else if q != p@ {
                                folders_above_are_beginnings(p@, q);
                                lemma_out_of_scope(t, p@, q);
                            }
                        }
                    }
                    break;
                }
                assert(p@.len() > 0) by {
                    if p@.len() == 0 {
                        assert(p@ == root_key@);
                    }
                }
                let at_drive = is_at_drive(p.as_str());
                if !add_key(shown, list, p.clone()) {
                    proof {
                        if before.contains(p@) {
                            assert forall|q: Text| #[trigger]
                                folders_above(start@).contains(q) && t.in_scope(q) implies shown.deep_view().contains(
                                q,
                            ) by {
                                if folders_above(here@).contains(q) && q != p@ {
                                    assert(folders_above(p@).contains(q));
                                    assert(before.contains(q));
                                    assert(first.contains(q));
                                }
                            }
                        } else {
                            assert(p@ == start@);
                            assert(ends_at_drive(p@));
                        }
                    }
                    break;
                }
                if at_drive {
                    break;
                }
                assert forall|q: Text| #[trigger] folders_above(p@).contains(q) implies folders_above(
                    start@,
                ).contains(q) by {
                    assert(folders_above(here@).contains(q));
                }
                here = p;
            },
        }
    }
    assert forall|q: Text| #[trigger]
        shown.deep_view().contains(q) == (before.contains(q) || q == start@ || (folders_above(
            start@,
        ).contains(q) && t.in_scope(q))) by {
        if before.contains(q) || q == start@ {
            assert(first.contains(q));
        }
    }
}

/// A beginning of a text that is not in scope is not in scope.
proof fn lemma_out_of_scope(t: Table, p: Text, q: Text)
    requires
        begins(p, q),
        !t.in_scope(p),
    ensures
        !t.in_scope(q),
{
    if t.in_scope(q) {
        let r = t.root_key();
        assert(p.take(r.len() as int) == p.take(q.len() as int).take(r.len() as int));
        if q.len() == r.len() {
            assert(q.take(r.len() as int) == q);
        }
        assert(p.take(q.len() as int)[r.len() as int] == p[r.len() as int]);
    }
}

/// Adds a key to a set and to the list of its members; says whether it is new.
fn add_key(set: &mut FxHashSet<String>, list: &mut Vec<String>, key: String) -> (fresh: bool)
    requires
        texts(old(list)@).no_duplicates(),
        forall|q: Text| #[trigger]
            old(set).deep_view().contains(q) == texts(old(list)@).contains(q),
    ensures
        texts(final(list)@).no_duplicates(),
        forall|q: Text| #[trigger]
            final(set).deep_view().contains(q) == texts(final(list)@).contains(q),
        final(set).deep_view() == old(set).deep_view().insert(key@),
        fresh == !old(set).deep_view().contains(key@),
{
    let fresh = set_insert(set, key.clone());
    if fresh {
        proof {
            lemma_pushed(list@, key);
        }
        list.push(key);
    }
    fresh
}

/// Whether `list` holds, once each, the keys of the vacant directories.
pub open spec fn lists_vacant(t: Table, list: Seq<Text>) -> bool {
    &&& list.no_duplicates()
    &&& forall|q: Text| #[trigger] list.contains(q) == t.vacant(q)
}

/// Whether `list` holds, once each, the keys that are shown.
pub open spec fn lists_shown(t: Table, list: Seq<Text>) -> bool {
    &&& list.no_duplicates()
    &&& forall|q: Text| #[trigger] list.contains(q) == t.shown(q)
}

/// The vacant directories of a file table, and what is shown of it, as they are found.
pub(crate) struct Vacancies {
    pub(crate) vacant: Vec<String>,
    pub(crate) list: Vec<String>,
    pub(crate) shown: FxHashSet<String>,
}

impl Vacancies {
    /// Whether these are the vacancies among the first `n` directories of an index.
    pub(crate) closed spec fn so_far(self, index: MftIndex, t: Table, n: int) -> bool {
        let seen = texts(index.keys@).take(n);
        &&& texts(self.vacant@).no_duplicates()
        &&& forall|q: Text| #[trigger]
            texts(self.vacant@).contains(q) == (t.vacant(q) && seen.contains(q))
        &&& texts(self.list@).no_duplicates()
        &&& forall|q: Text| #[trigger]
            self.shown.deep_view().contains(q) == texts(self.list@).contains(q)
        &&& forall|q: Text| #[trigger]
            self.shown.deep_view().contains(q) == exists|c: Text|
                seen.contains(c) && #[trigger] t.leads(c, q)
    }

    /// No vacancies.
    pub(crate) fn new() -> (r: Vacancies)
        ensures
            forall|index: MftIndex, t: Table| #[trigger] r.so_far(index, t, 0),
    {
        let r = Vacancies { vacant: Vec::new(), list: Vec::new(), shown: set_new() };
        assert forall|index: MftIndex, t: Table| #[trigger] r.so_far(index, t, 0) by {
            assert(texts(index.keys@).take(0).len() == 0);
        }
        r
    }

    /// Looks at the next directory of an index.
    pub(crate) fn add(
        &mut self,
        index: &MftIndex,
        settings: &ScanSettings,
        i: usize,
        Ghost(t): Ghost<Table>,
    )
        requires
            index.of(t),
            t.settings == *settings,
            i < index.count(),
            old(self).so_far(*index, t, i as int),
        ensures
            final(self).so_far(*index, t, i + 1),
    {
        let key = &index.keys[i];
        let ghost keys = texts(index.keys@);
        let ghost old_vacant = texts(self.vacant@);
        let ghost old_shown = self.shown.deep_view();
        let ghost seen = keys.take(i as int);
        let ghost now = keys.take(i + 1);
        proof {
            lemma_next_key(keys, i as int);
            assert(keys[i as int] == key@);
            assert(keys.contains(key@));
            assert(index.dirs.deep_view().contains_key(key@));
        }
        if !set_contains(&index.occupied, key) && is_below(key.as_str(), index.root_key.as_str())
            && !index.is_too_deep(key, settings, Ghost(t)) {
            assert(t.vacant(key@));
            proof {
                lemma_pushed(self.vacant@, *key);
                assert(!old_vacant.contains(key@));
                assert forall|q: Text, r: Text|
                    old_shown.contains(q) && #[trigger] folders_above(q).contains(r) && t.in_scope(
                        r,
                    ) implies old_shown.contains(r) by {
                    let c = choose|c: Text| seen.contains(c) && #[trigger] t.leads(c, q);
                    if q != c {
                        folders_above_are_nested(c, q, r);
                    }
                    assert(t.leads(c, r));
                }
            }
            self.vacant.push(key.clone());
            assert(texts(self.vacant@) == old_vacant.push(key@));
            show_above(&index.root_key, &mut self.shown, &mut self.list, key, Ghost(t));
        } else {
            assert(!t.vacant(key@));
        }
        proof {
            assert forall|q: Text| #[trigger]
                self.shown.deep_view().contains(q) == exists|c: Text|
                    now.contains(c) && #[trigger] t.leads(c, q) by {
                if old_shown.contains(q) {
                    let c = choose|c: Text| seen.contains(c) && #[trigger] t.leads(c, q);
                    assert(now.contains(c) && t.leads(c, q));
                }
                if t.leads(key@, q) {
                    assert(now.contains(key@));
                }
                if exists|c: Text| now.contains(c) && #[trigger] t.leads(c, q) {
                    let c = choose|c: Text| now.contains(c) && #[trigger] t.leads(c, q);
                    if c != key@ {
                        assert(seen.contains(c) && t.leads(c, q));
                    }
                }
            }
        }
    }

    /// At the end of the index the vacancies are those of the file table.
    pub(crate) proof fn lemma_all(self, index: MftIndex, t: Table)
        requires
            index.of(t),
            self.so_far(index, t, index.count() as int),
        ensures
            lists_vacant(t, texts(self.vacant@)),
            lists_shown(t, texts(self.list@)),
    {
        let keys = texts(index.keys@);
        assert(keys.take(index.count() as int) == keys);
        assert forall|q: Text| #[trigger] texts(self.vacant@).contains(q) == t.vacant(q) by {
            assert(index.dirs.deep_view().contains_key(q) == (t.known(q) is Some));
        }
        assert forall|q: Text| #[trigger] texts(self.list@).contains(q) == t.shown(q) by {
            assert(self.shown.deep_view().contains(q) == texts(self.list@).contains(q));
            if t.shown(q) {
                let c = choose|c: Text| #[trigger] t.leads(c, q);
                assert(index.dirs.deep_view().contains_key(c) == (t.known(c) is Some));
                assert(keys.contains(c) && t.leads(c, q));
            }
        }
    }
}

/// The first `i + 1` keys are the first `i` and one that is not among them.
proof fn lemma_next_key(keys: Seq<Text>, i: int)
    requires
        keys.no_duplicates(),
        0 <= i < keys.len(),
    ensures
        !keys.take(i).contains(keys[i]),
        forall|q: Text| #[trigger]
            keys.take(i + 1).contains(q) == (keys.take(i).contains(q) || q == keys[i]),
{
    let seen = keys.take(i);
    let now = keys.take(i + 1);
    assert forall|q: Text| #[trigger] now.contains(q) == (seen.contains(q) || q == keys[i]) by {
        if seen.contains(q) {
            let j = choose|j: int| 0 <= j < seen.len() && seen[j] == q;
            assert(now[j] == q);
        }
        if q == keys[i] {
            assert(now[i] == q);
        }
        if now.contains(q) && q != keys[i] {
            let j = choose|j: int| 0 <= j < now.len() && now[j] == q;
            assert(seen[j] == q);
        }
    }
    if seen.contains(keys[i]) {
        let j = choose|j: int| 0 <= j < seen.len() && seen[j] == keys[i];
        assert(keys[j] == keys[i]);
    }
}

} // verus!

//! A scan of a file table: every directory that the table shows as vacant is looked at once more,
//! the deepest first.

use crate::collections::{set_contains, set_insert, set_len, set_new};
use crate::mft::{lists_shown, lists_vacant, MftIndex, MftRecord, Table, Text, Vacancies};
use crate::mft_path::{count_slashes, folder, folder_of, make_path_key, path_key, slashes};
use crate::order::{is_sorted_order, sorted_order, sorts_before, Descending};
use crate::scanner::ScanSettings;
use crate::text::texts;
use crate::wild::{any_match, any_matches};
use rustc_hash::FxHashSet;
use std::sync::atomic::{AtomicBool, Ordering};
use vstd::prelude::*;
use vstd::string::*;

verus! {

/// Something that lies directly in a directory that is looked at.
pub struct MftChild {
    pub is_dir: bool,
    /// The text of the child's path.
    pub path: String,
    pub name: String,
    /// The size in bytes, where it is known.
    pub size: Option<u64>,
}

/// A state of a scan of a file table.
pub struct MftState {
    pub table: Table,
    /// The keys of the vacant directories, those with the most `\` first.
    pub keys: Seq<Text>,
    /// The place of the first of them that is not decided.
    pub next: int,
    /// The keys of the directories that were found to hold nothing.
    pub good: Set<Text>,
    /// The keys of those that were found to hold something, and of the folders they lie in.
    pub bad: Set<Text>,
    /// What was found in the directories that were accepted, by key.
    pub reads: Map<Text, Seq<MftChild>>,
    /// The keys to show.
    pub shown: Seq<Text>,
    /// The paths to show: the root first.
    pub places: Seq<Text>,
}

/// `set` with the folder that `q` lies in.
pub open spec fn with_folder(set: Set<Text>, q: Text) -> Set<Text> {
    match folder_of(q) {
        Some(p) => set.insert(p),
        None => set,
    }
}

/// The place of the first key from `n` on that is not rejected when its turn comes, and what is
/// rejected then: a rejected key has the folder it lies in rejected too.
pub open spec fn skip_rejected(keys: Seq<Text>, rejected: Set<Text>, n: int) -> (int, Set<Text>)
    decreases keys.len() - n,
{
    if 0 <= n < keys.len() && rejected.contains(keys[n]) {
        skip_rejected(keys, with_folder(rejected, keys[n]), n + 1)
    } else {
        (n, rejected)
    }
}

/// Whether a child does not keep its directory from counting as empty: an accepted directory, an
/// ignored file, or an empty file that does not count.
pub open spec fn passes(settings: ScanSettings, accepted: Set<Text>, child: MftChild) -> bool {
    if child.is_dir {
        accepted.contains(path_key(child.path@))
    } else {
        any_match(texts(settings.ignore_files@), child.name@) || (
        settings.consider_empty_files_empty && child.size == Some(0u64))
    }
}

/// Whether a directory was read and none of its children keeps it from counting as empty.
pub open spec fn reads_empty(
    settings: ScanSettings,
    accepted: Set<Text>,
    children: Option<Vec<MftChild>>,
) -> bool {
    children matches Some(list) && forall|k: int|
        0 <= k < list@.len() ==> passes(settings, accepted, #[trigger] list@[k])
}

impl MftState {
    /// Whether the queue is that of the table, and the paths to show are.
    pub open spec fn planned(self) -> bool {
        let t = self.table;
        &&& lists_vacant(t, self.keys)
        &&& forall|a: int, b: int|
            0 <= a < b < self.keys.len() ==> slashes(#[trigger] self.keys[a]) >= slashes(
                #[trigger] self.keys[b],
            )
        &&& lists_shown(t, self.shown)
        &&& self.places == seq![t.root] + self.shown.map_values(|q: Text| t.place(q))
    }

    /// Whether the results so far are consistent.
    pub open spec fn sound(self) -> bool {
        &&& 0 <= self.next <= self.keys.len()
        &&& forall|q: Text| #[trigger]
            self.good.contains(q) ==> exists|a: int| 0 <= a < self.next && self.keys[a] == q
        &&& forall|q: Text| #[trigger]
            self.good.contains(q) ==> self.reads.contains_key(q) && forall|k: int|
                0 <= k < self.reads[q].len() ==> passes(
                    self.table.settings,
                    self.good,
                    #[trigger] self.reads[q][k],
                )
        &&& forall|a: int|
            0 <= a < self.next ==> self.good.contains(#[trigger] self.keys[a]) || self.bad.contains(
                self.keys[a],
            )
        &&& forall|a: int|
            0 <= a < self.next && !self.good.contains(#[trigger] self.keys[a]) && folder_of(
                self.keys[a],
            ) is Some ==> self.bad.contains(folder_of(self.keys[a])->0)
        &&& forall|a: int, b: int|
            0 <= a < b < self.next && !self.good.contains(#[trigger] self.keys[a])
                && self.good.contains(#[trigger] self.keys[b]) ==> folder_of(self.keys[a]) != Some(
                self.keys[b],
            )
    }

    /// Whether the state is consistent.
    pub open spec fn wf(self) -> bool {
        self.planned() && self.sound()
    }

    /// Whether nothing of the table `t` was looked at yet.
    pub open spec fn starts(self, t: Table) -> bool {
        &&& self.table == t
        &&& self.next == 0
        &&& self.good == Set::<Text>::empty()
        &&& self.bad == Set::<Text>::empty()
    }

    /// Whether everything was looked at.
    pub open spec fn done(self) -> bool {
        self.next == self.keys.len()
    }

    /// Whether the directory at the next place of the queue is to be looked at.
    pub open spec fn awaits(self) -> bool {
        self.next < self.keys.len() && !self.bad.contains(self.keys[self.next])
    }

    /// The state after those that are rejected already were passed over.
    pub open spec fn skipped(self) -> MftState {
        let (next, bad) = skip_rejected(self.keys, self.bad, self.next);
        MftState { next, bad, ..self }
    }

    /// The state after what was found in the directory that was to be looked at, or that it could
    /// not be read, was taken in.
    pub open spec fn checked(self, children: Option<Vec<MftChild>>) -> MftState {
        let q = self.keys[self.next];
        if reads_empty(self.table.settings, self.good, children) {
            MftState {
                next: self.next + 1,
                good: self.good.insert(q),
                reads: self.reads.insert(q, children->0@),
                ..self
            }
        } else {
            MftState {
                next: self.next + 1,
                bad: with_folder(self.bad.insert(q), q),
                ..self
            }
        }
    }
}

/// A scan of a file table.
pub struct MftScan<'a> {
    settings: &'a ScanSettings,
    index: MftIndex,
    queue: Vec<String>,
    next: usize,
    accepted: FxHashSet<String>,
    rejected: FxHashSet<String>,
    places: Vec<String>,
    table: Ghost<Table>,
    reads: Ghost<Map<Text, Seq<MftChild>>>,
    shown: Ghost<Seq<Text>>,
}

impl<'a> View for MftScan<'a> {
    type V = MftState;

    closed spec fn view(&self) -> MftState {
        MftState {
            table: self.table@,
            keys: texts(self.queue@),
            next: self.next as int,
            good: self.accepted.deep_view(),
            bad: self.rejected.deep_view(),
            reads: self.reads@,
            shown: self.shown@,
            places: texts(self.places@),
        }
    }
}

impl<'a> MftScan<'a> {
    /// Whether the scan has what its state is about.
    pub closed spec fn holds(self) -> bool {
        self.index.of(self.table@) && *self.settings == self.table@.settings
    }

    /// Whether the scan is consistent.
    pub open spec fn wf(self) -> bool {
        self.holds() && self@.wf()
    }
}

/// Sorts keys, those with the most `\` first.
fn deepest_first(list: &Vec<String>) -> (queue: Vec<String>)
    requires
        texts(list@).no_duplicates(),
    ensures
        texts(queue@).no_duplicates(),
        forall|q: Text| #[trigger] texts(queue@).contains(q) == texts(list@).contains(q),
        forall|a: int, b: int|
            0 <= a < b < queue@.len() ==> slashes(#[trigger] texts(queue@)[a]) >= slashes(
                #[trigger] texts(queue@)[b],
            ),
{
    let mut keys: Vec<Descending> = Vec::new();
    let n = list.len();
    let mut i: usize = 0;
    while i < n
        invariant
            i <= n == list@.len(),
            keys@.len() == i,
            forall|a: int| 0 <= a < i ==> (#[trigger] keys@[a]).0 == slashes(list@[a]@),
        decreases n - i,
    {
        keys.push(Descending(count_slashes(list[i].as_str())));
        i += 1;
    }
    let order = sorted_order(&keys);
    let mut queue: Vec<String> = Vec::new();
    let mut k: usize = 0;
    while k < n
        invariant
            k <= n == list@.len(),
            keys@.len() == n,
            is_sorted_order(keys@, 0, n as int, order@),
            queue@.len() == k,
            forall|a: int| 0 <= a < k ==> (#[trigger] queue@[a])@ == list@[order@[a] as int]@,
        decreases n - k,
    {
        queue.push(list[order[k]].clone());
        k += 1;
    }
    proof {
        let from = texts(list@);
        let to = texts(queue@);
        assert forall|a: int, b: int| 0 <= a < b < to.len() implies #[trigger] to[a] != #[trigger] to[b]
            && slashes(to[a]) >= slashes(to[b]) by {
            assert(queue@[a]@ == list@[order@[a] as int]@);
            assert(queue@[b]@ == list@[order@[b] as int]@);
            assert(sorts_before(keys@, order@[a] as int, order@[b] as int));
            assert(keys@[order@[a] as int].0 == slashes(from[order@[a] as int]));
            assert(keys@[order@[b] as int].0 == slashes(from[order@[b] as int]));
            assert(order@[a] != order@[b]);
            assert(from[order@[a] as int] != from[order@[b] as int]);
        }
        assert forall|q: Text| #[trigger] to.contains(q) == from.contains(q) by {
            if from.contains(q) {
                let i = choose|i: int| 0 <= i < from.len() && from[i] == q;
                assert(order@.contains(i as usize));
                let c = choose|c: int| 0 <= c < order@.len() && order@[c] == i as usize;
                assert(queue@[c]@ == list@[i]@);
                assert(to[c] == q);
            }
            if to.contains(q) {
                let c = choose|c: int| 0 <= c < to.len() && to[c] == q;
                assert(queue@[c]@ == list@[order@[c] as int]@);
                assert(from[order@[c] as int] == q);
            }
        }
    }
    queue
}

/// The scan of a file table, before anything was looked at.
fn plan<'a>(
    root: &str,
    settings: &'a ScanSettings,
    index: MftIndex,
    found: Vacancies,
    Ghost(t): Ghost<Table>,
) -> (scan: MftScan<'a>)
    requires
        t.root == root@,
        t.settings == *settings,
        index.of(t),
        lists_vacant(t, texts(found.vacant@)),
        lists_shown(t, texts(found.list@)),
    ensures
        scan.wf(),
        scan@.starts(t),
{
    let queue = deepest_first(&found.vacant);
    let list = found.list;
    let mut places: Vec<String> = Vec::new();
    places.push(root.to_owned());
    let ghost shown = texts(list@);
    let mut i: usize = 0;
    while i < list.len()
        invariant
            i <= list@.len(),
            index.of(t),
            shown == texts(list@),
            places@.len() == i + 1,
            places@[0]@ == root@,
            forall|k: int| 0 <= k < i ==> (#[trigger] places@[k + 1])@ == t.place(shown[k]),
        decreases list@.len() - i,
    {
        places.push(index.path_of(&list[i], Ghost(t)));
        i += 1;
    }
    proof {
        let all = seq![t.root] + shown.map_values(|q: Text| t.place(q));
        assert forall|k: int| 0 <= k < all.len() implies #[trigger] texts(places@)[k] == all[k] by {
            if k > 0 {
                assert(places@[(k - 1) + 1]@ == t.place(shown[k - 1]));
            }
        }
        assert(texts(places@) =~= all);
    }
    MftScan {
        settings,
        index,
        queue,
        next: 0,
        accepted: set_new(),
        rejected: set_new(),
        places,
        table: Ghost(t),
        reads: Ghost(Map::empty()),
        shown: Ghost(shown),
    }
}

/// The way to the scan of a file table: the entries are indexed one by one, and then the vacant
/// directories are found one by one.
pub struct TableRun<'a> {
    root: &'a str,
    records: &'a Vec<MftRecord>,
    settings: &'a ScanSettings,
    index: MftIndex,
    found: Vacancies,
    indexed: usize,
    looked_at: usize,
}

impl<'a> TableRun<'a> {
    /// The table that is scanned.
    pub closed spec fn table(self) -> Table {
        Table { root: self.root@, records: self.records@, settings: *self.settings }
    }

    /// How many entries are left to index.
    pub closed spec fn records_left(self) -> int {
        self.records@.len() - self.indexed
    }

    /// How many directories are left to look up.
    pub closed spec fn dirs_left(self) -> int {
        self.table().dirs().len() - self.looked_at
    }

    /// Whether the run is consistent.
    pub closed spec fn wf(self) -> bool {
        &&& 0 <= self.indexed <= self.records@.len()
        &&& 0 <= self.looked_at
        &&& if self.indexed < self.records@.len() {
            &&& self.looked_at == 0
            &&& self.index.so_far(self.table(), self.indexed as int)
            &&& forall|index: MftIndex| #[trigger] self.found.so_far(index, self.table(), 0)
        } else {
            &&& self.index.of(self.table())
            &&& self.index.count() == self.table().dirs().len()
            &&& self.looked_at < self.index.count()
            &&& self.found.so_far(self.index, self.table(), self.looked_at as int)
        }
    }

    /// Indexes the next entry.
    fn index_next(&mut self)
        requires
            old(self).wf(),
            old(self).records_left() > 0,
        ensures
            final(self).wf(),
            final(self).table() == old(self).table(),
            final(self).records_left() == old(self).records_left() - 1,
            final(self).dirs_left() == old(self).dirs_left(),
    {
        let ghost t = self.table();
        let total = self.records.len();
        let i: usize = self.indexed;
        self.index.add(&self.records[i], self.settings, Ghost(t), Ghost(i as int));
        self.indexed = i + 1;
        if self.indexed == total {
            self.index.finish(self.root, Ghost(t));
        }
    }

    /// Goes on from a reading of the flag. A set flag ends the run with an error; otherwise the
    /// run goes on and, after the last directory, ends with the scan, which has looked at nothing
    /// yet.
    pub fn polled(&mut self, cancelled: bool) -> (r: Option<Result<MftScan<'a>, String>>)
        requires
            old(self).wf(),
        ensures
            final(self).table() == old(self).table(),
            old(self).records_left() >= 0,
            old(self).dirs_left() > 0,
            cancelled ==> (r matches Some(Err(e)) && e@ == "Operation cancelled by user"@),
            !cancelled && old(self).records_left() > 0 ==> {
                &&& r is None
                &&& final(self).wf()
                &&& final(self).records_left() == old(self).records_left() - 1
                &&& final(self).dirs_left() == old(self).dirs_left()
            },
            !cancelled && old(self).records_left() == 0 && old(self).dirs_left() > 1 ==> {
                &&& r is None
                &&& final(self).wf()
                &&& final(self).records_left() == 0
                &&& final(self).dirs_left() == old(self).dirs_left() - 1
            },
            !cancelled && old(self).records_left() == 0 && old(self).dirs_left() == 1 ==> (
            r matches Some(Ok(scan)) && scan.wf() && scan@.starts(old(self).table())),
    {
        proof {
            self.table().lemma_has_root();
        }
        if cancelled {
            return Some(Err("Operation cancelled by user".to_owned()));
        }
        if self.indexed < self.records.len() {
            self.index_next();
            return None;
        }
        let ghost t = self.table();
        let total = self.index.len();
        self.found.add(&self.index, self.settings, self.looked_at, Ghost(t));
        self.looked_at = self.looked_at + 1;
        if self.looked_at < total {
            return None;
        }
        proof {
            self.found.lemma_all(self.index, t);
        }
        let mut index = MftIndex::new(self.root);
        let mut found = Vacancies::new();
        std::mem::swap(&mut index, &mut self.index);
        std::mem::swap(&mut found, &mut self.found);
        Some(Ok(plan(self.root, self.settings, index, found, Ghost(t))))
    }
}

/// The way to the scan of a file table, at its beginning.
pub fn begin_table<'a>(
    root: &'a str,
    records: &'a Vec<MftRecord>,
    settings: &'a ScanSettings,
) -> (run: TableRun<'a>)
    ensures
        run.wf(),
        run.table() == (Table { root: root@, records: records@, settings: *settings }),
        run.records_left() == records@.len(),
        run.dirs_left() == run.table().dirs().len(),
{
    let mut index = MftIndex::new(root);
    if records.len() == 0 {
        index.finish(
            root,
            Ghost(Table { root: root@, records: records@, settings: *settings }),
        );
    }
    TableRun { root, records, settings, index, found: Vacancies::new(), indexed: 0, looked_at: 0 }
}

/// The scan of a file table, before anything was looked at.
pub fn begin_mft_scan<'a>(
    root: &'a str,
    records: &'a Vec<MftRecord>,
    settings: &'a ScanSettings,
) -> (scan: MftScan<'a>)
    ensures
        scan.wf(),
        scan@.starts(Table { root: root@, records: records@, settings: *settings }),
{
    let mut run = begin_table(root, records, settings);
    loop
        invariant
            run.wf(),
            run.table() == (Table { root: root@, records: records@, settings: *settings }),
        decreases run.records_left() + run.dirs_left(),
    {
        if let Some(result) = run.polled(false) {
            return result.unwrap();
        }
    }
}

/// Begins the scan of a file table, unless the flag is seen set, which ends it with an error. The
/// flag is read before every step; what the run does with each reading, [`TableRun::polled`] says.
pub fn scan_empty_dirs_mft<'a>(
    root: &'a str,
    records: &'a Vec<MftRecord>,
    settings: &'a ScanSettings,
    cancel_flag: &AtomicBool,
) -> (r: Result<MftScan<'a>, String>)
    ensures
        match r {
            Ok(scan) => {
                &&& scan.wf()
                &&& scan@.starts(Table { root: root@, records: records@, settings: *settings })
            },
            Err(e) => e@ == "Operation cancelled by user"@,
        },
{
    let mut run = begin_table(root, records, settings);
    loop
        invariant
            run.wf(),
            run.table() == (Table { root: root@, records: records@, settings: *settings }),
        decreases run.records_left() + run.dirs_left(),
    {
        let cancelled = cancel_flag.load(Ordering::Relaxed);
        if let Some(result) = run.polled(cancelled) {
            return result;
        }
    }
}

impl<'a> MftScan<'a> {
    /// The paths to show: the root first.
    pub fn places(&self) -> (places: &Vec<String>)
        ensures
            texts(places@) == self@.places,
    {
        &self.places
    }

    /// The settings of the scan.
    pub(crate) fn settings(&self) -> (settings: &ScanSettings)
        requires
            self.wf(),
        ensures
            *settings == self@.table.settings,
    {
        self.settings
    }

    /// Whether the directory with a key was found to hold nothing.
    pub fn is_accepted(&self, key: &String) -> (r: bool)
        ensures
            r == self@.good.contains(key@),
    {
        set_contains(&self.accepted, key)
    }

    /// How many directories were found to hold nothing.
    pub fn accepted_count(&self) -> (n: usize)
        ensures
            n == self@.good.len(),
    {
        set_len(&self.accepted)
    }

    /// Rejects the folder that a key lies in.
    fn reject_folder(&mut self, key: &String)
        ensures
            final(self).holds() == old(self).holds(),
            final(self)@ == (MftState { bad: with_folder(old(self)@.bad, key@), ..old(self)@ }),
    {
        if let Some(p) = folder(key.as_str()) {
            set_insert(&mut self.rejected, p);
        }
    }

    /// The path of the next directory to look at, if any is left. Those that are rejected already
    /// are passed over.
    pub fn next_dir(&mut self) -> (r: Option<String>)
        requires
            old(self).wf(),
        ensures
            final(self).wf(),
            final(self)@ == old(self)@.skipped(),
            match r {
                Some(p) => final(self)@.awaits() && p@ == final(self)@.table.place(
                    final(self)@.keys[final(self)@.next],
                ),
                None => final(self)@.done(),
            },
    {
        let n = self.queue.len();
        while self.next < n && set_contains(&self.rejected, &self.queue[self.next])
            invariant
                n == self@.keys.len(),
                self.wf(),
                self@.skipped() == old(self)@.skipped(),
            ensures
                self@.done() || self@.awaits(),
            decreases n - self.next,
        {
            let ghost before = self@;
            let key = self.queue[self.next].clone();
            assert(key@ == before.keys[before.next]);
            self.reject_folder(&key);
            self.next = self.next + 1;
            assert(self@ == (MftState {
                next: before.next + 1,
                bad: with_folder(before.bad, before.keys[before.next]),
                ..before
            }));
        }
        if self.next < n {
            let place = self.index.path_of(&self.queue[self.next], Ghost(self.table@));
            Some(place)
        } else {
            None
        }
    }

    /// Whether nothing among `children` keeps their directory from counting as empty.
    fn all_pass(&self, children: &Vec<MftChild>) -> (r: bool)
        requires
            self.holds(),
        ensures
            r == forall|k: int|
                0 <= k < children@.len() ==> passes(
                    self@.table.settings,
                    self@.good,
                    #[trigger] children@[k],
                ),
    {
        let mut i: usize = 0;
        while i < children.len()
            invariant
                i <= children@.len(),
                self.holds(),
                forall|k: int|
                    0 <= k < i ==> passes(self@.table.settings, self@.good, #[trigger] children@[k]),
            decreases children@.len() - i,
        {
            let child = &children[i];
            let ok = if child.is_dir {
                let key = make_path_key(child.path.as_str());
                set_contains(&self.accepted, &key)
            } else {
                let is_ignored = any_matches(&self.settings.ignore_files, child.name.as_str());
                let is_empty_file = self.settings.consider_empty_files_empty && match child.size {
                    Some(n) => n == 0,
                    None => false,
                };
                is_ignored || is_empty_file
            };
            if !ok {
                assert(!passes(self@.table.settings, self@.good, children@[i as int]));
                return false;
            }
            i += 1;
        }
        true
    }

    /// Takes in what was found in the directory that was to be looked at, or that it could not be
    /// read.
    pub fn checked(&mut self, children: Option<Vec<MftChild>>)
        requires
            old(self).wf(),
            old(self)@.awaits(),
        ensures
            final(self).wf(),
            final(self)@ == old(self)@.checked(children),
    {
        let ghost before = self@;
        let total = self.queue.len();
        assert(self.next < total);
        let key = self.queue[self.next].clone();
        let ghost q = before.keys[before.next];
        assert(key@ == q);
        let empty = match &children {
            Some(list) => self.all_pass(list),
            None => false,
        };
        assert(empty == reads_empty(before.table.settings, before.good, children));
        if empty {
            set_insert(&mut self.accepted, key);
            proof {
                self.reads@ = self.reads@.insert(q, children->0@);
            }
        } else {
            set_insert(&mut self.rejected, key.clone());
            self.reject_folder(&key);
        }
        self.next = self.next + 1;
        assert(self@ == before.checked(children));
        proof {
            lemma_checked(before, children);
        }
    }
}

/// A consistent state stays so when what was found in a directory is taken in.
proof fn lemma_checked(before: MftState, children: Option<Vec<MftChild>>)
    requires
        before.wf(),
        before.awaits(),
    ensures
        before.checked(children).wf(),
{
    let now = before.checked(children);
    let q = before.keys[before.next];
    assert(!before.good.contains(q)) by {
        if before.good.contains(q) {
            let a = choose|a: int| 0 <= a < before.next && before.keys[a] == q;
            assert(before.keys[a] == before.keys[before.next]);
        }
    }
    let keys = now.keys;
    assert forall|c: Text| #[trigger] now.good.contains(c) implies exists|a: int|
        0 <= a < now.next && keys[a] == c by {
        if c == q {
            assert(keys[before.next] == c);
        } else {
            assert(before.good.contains(c));
            let a = choose|a: int| 0 <= a < before.next && before.keys[a] == c;
            assert(keys[a] == c);
        }
    }
    assert forall|c: Text| #[trigger] now.good.contains(c) implies now.reads.contains_key(c)
        && forall|k: int|
        0 <= k < now.reads[c].len() ==> passes(
            now.table.settings,
            now.good,
            #[trigger] now.reads[c][k],
        ) by {
        if c != q {
            assert(before.good.contains(c));
            assert forall|k: int| 0 <= k < now.reads[c].len() implies passes(
                now.table.settings,
                now.good,
                #[trigger] now.reads[c][k],
            ) by {
                assert(passes(before.table.settings, before.good, before.reads[c][k]));
            }
        } else {
            assert forall|k: int| 0 <= k < now.reads[c].len() implies passes(
                now.table.settings,
                now.good,
                #[trigger] now.reads[c][k],
            ) by {
                assert(passes(before.table.settings, before.good, children->0@[k]));
            }
        }
    }
    assert forall|a: int| 0 <= a < now.next implies now.good.contains(#[trigger] keys[a])
        || now.bad.contains(keys[a]) by {
        if a < before.next {
            assert(before.good.contains(before.keys[a]) || before.bad.contains(
                before.keys[a],
            ));
        }
    }
    assert forall|a: int|
        0 <= a < now.next && !now.good.contains(#[trigger] keys[a]) && folder_of(
            keys[a],
        ) is Some implies now.bad.contains(folder_of(keys[a])->0) by {
        if a < before.next {
            assert(!before.good.contains(before.keys[a]));
        }
    }
    assert forall|a: int, b: int|
        0 <= a < b < now.next && !now.good.contains(#[trigger] keys[a]) && now.good.contains(
            #[trigger] keys[b],
        ) implies folder_of(keys[a]) != Some(keys[b]) by {
        assert(!before.good.contains(before.keys[a]));
        if b < before.next {
            if keys[b] == q {
                assert(keys[b] == keys[before.next]);
            }
            assert(before.good.contains(before.keys[b]));
        }
    }
}

} // verus!

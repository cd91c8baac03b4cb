//! The report of a scan of a file table.

use crate::collections::{set_insert, set_new};
use crate::mft_path::{make_path_key, path_key};
use crate::mft_scan::{MftScan, MftState};
use crate::order::{is_sorted_order, sorted_order, sorts_before};
use crate::path::{path_before, path_order_is_total, within, DirPath, Names};
use crate::scanner::{
    hidden_name, is_dir_too_young, is_directory_protected, is_hidden_dir, lies_in, protects,
    too_young, ScanSettings,
};
use crate::text::{cat3, decimal, decimal_text, texts};
use crate::tree::{
    compute_tree_relationships, ends_level, flags_by_depths, opens_subtree, related, DirectoryNode,
    EMPTY, NORMAL, PROTECTED,
};
use crate::wild::{dir_patterns, make_dir_patterns};
use rustc_hash::FxHashSet;
use vstd::prelude::*;

verus! {

/// What is known of one of the paths to show.
pub struct MftEntry {
    /// The components of the path.
    pub path: DirPath,
    /// The text of the path.
    pub text: String,
    /// The text of the last name of the path; empty if there is none.
    pub name: String,
    pub is_symlink: bool,
    /// Whether the file system marks the directory as hidden.
    pub marked_hidden: bool,
    /// Whether the file system marks the directory as part of the operating system.
    pub is_system: bool,
    /// The seconds since the directory was made, where they are known.
    pub age_secs: Option<u64>,
}

/// Whether the scan skips the directory of an entry, which lies below the root: it is hidden, or
/// part of the operating system, and such directories are to be skipped.
pub open spec fn skips(settings: ScanSettings, root: Names, e: MftEntry) -> bool {
    &&& e.path@.len() > root.len()
    &&& {
        ||| settings.ignore_hidden && hidden_name(e.name@, e.marked_hidden)
        ||| settings.keep_system && e.is_system
    }
}

/// Whether the path `d` is that of an entry whose directory is skipped, or lies under one.
pub open spec fn skipped(
    settings: ScanSettings,
    root: Names,
    entries: Seq<MftEntry>,
    d: Names,
) -> bool {
    exists|j: int|
        0 <= j < entries.len() && skips(settings, root, #[trigger] entries[j]) && within(
            d,
            entries[j].path@,
        )
}

/// Whether the scan goes as deep as the directory of an entry.
pub open spec fn within_reach(settings: ScanSettings, root: Names, e: MftEntry) -> bool {
    settings.max_depth >= 0 ==> e.path@.len() - root.len() <= settings.max_depth
}

impl MftState {
    /// Whether the settings protect the directory of an entry, for its own sake or for that of a
    /// directory that it lies in.
    pub open spec fn shields(self, root: Names, entries: Seq<MftEntry>, e: MftEntry) -> bool {
        ||| skipped(self.table.settings, root, entries, e.path@)
        ||| protects(
            self.table.settings,
            dir_patterns(texts(self.table.settings.ignore_dirs@)),
            e.text@,
            hidden_name(e.name@, e.marked_hidden),
            too_young(e.age_secs, self.table.settings.min_age_hours),
            e.is_system,
        )
    }

    /// The status of the directory of an entry.
    pub open spec fn status(self, root: Names, entries: Seq<MftEntry>, e: MftEntry) -> i32 {
        if !self.good.contains(path_key(e.text@)) {
            NORMAL
        } else if self.shields(root, entries, e) {
            PROTECTED
        } else {
            EMPTY
        }
    }

    /// Whether `node` is the node of an entry, but for how it connects to its neighbours.
    pub open spec fn describes(
        self,
        root: Names,
        entries: Seq<MftEntry>,
        e: MftEntry,
        node: DirectoryNode,
    ) -> bool {
        &&& node.path@ == e.path@
        &&& node.name@ == (if e.path@ == root {
            self.table.root
        } else {
            e.name@
        })
        &&& node.path_str@ == e.text@
        &&& node.depth == e.path@.len() - root.len()
        &&& node.status == self.status(root, entries, e)
        &&& node.is_expanded
        &&& node.is_hidden == hidden_name(e.name@, e.marked_hidden)
        &&& node.is_symlink == e.is_symlink
    }

    /// Whether `node` is the node of an entry that the scan reaches, the first with its path.
    pub open spec fn stems(self, root: Names, entries: Seq<MftEntry>, node: DirectoryNode) -> bool {
        exists|i: int| #[trigger]
            first_of_path(entries, i) && within_reach(self.table.settings, root, entries[i])
                && self.describes(root, entries, entries[i], node)
    }

    /// Whether `nodes` is the report of the scan: the nodes of the entries that it reaches, in
    /// path order, of entries with the same path only that of the first.
    pub open spec fn is_report(
        self,
        root: Names,
        entries: Seq<MftEntry>,
        nodes: Seq<DirectoryNode>,
    ) -> bool {
        &&& forall|a: int, b: int|
            0 <= a < b < nodes.len() ==> path_before(
                #[trigger] nodes[a].path@,
                #[trigger] nodes[b].path@,
            )
        &&& forall|a: int|
            0 <= a < nodes.len() ==> {
                &&& self.stems(root, entries, nodes[a])
                &&& (#[trigger] nodes[a]).has_children == opens_subtree(nodes, a)
                &&& nodes[a].is_last_sibling == ends_level(nodes, a)
            }
        &&& forall|i: int|
            0 <= i < entries.len() && within_reach(
                self.table.settings,
                root,
                #[trigger] entries[i],
            ) ==> has_path(nodes, entries[i].path@)
    }
}

/// Whether one of `nodes` has the path `p`.
pub open spec fn has_path(nodes: Seq<DirectoryNode>, p: Names) -> bool {
    exists|a: int| 0 <= a < nodes.len() && (#[trigger] nodes[a]).path@ == p
}

/// Whether no entry before `i` has the same path.
pub open spec fn first_of_path(entries: Seq<MftEntry>, i: int) -> bool {
    0 <= i < entries.len() && forall|j: int|
        0 <= j < i ==> (#[trigger] entries[j]).path@ != entries[i].path@
}

/// Whether the depths below the root are numbers of the nodes' kind.
pub open spec fn depths_fit(root: Names, entries: Seq<MftEntry>) -> bool {
    &&& root.len() <= i32::MAX
    &&& forall|i: int| 0 <= i < entries.len() ==> (#[trigger] entries[i]).path@.len() <= i32::MAX
}

/// Whether the depths below the root are numbers of the nodes' kind.
pub fn check_depths(root: &DirPath, entries: &Vec<MftEntry>) -> (ok: bool)
    ensures
        ok == depths_fit(root@, entries@),
{
    if root.names.len() > i32::MAX as usize {
        return false;
    }
    let mut i: usize = 0;
    while i < entries.len()
        invariant
            i <= entries@.len(),
            root@.len() <= i32::MAX,
            forall|j: int| 0 <= j < i ==> (#[trigger] entries@[j]).path@.len() <= i32::MAX,
        decreases entries@.len() - i,
    {
        if entries[i].path.names.len() > i32::MAX as usize {
            assert(entries@[i as int].path@.len() > i32::MAX);
            return false;
        }
        i += 1;
    }
    true
}

/// Whether `set` holds the paths of the first `n` entries whose directories are skipped.
spec fn holds_skips(
    settings: ScanSettings,
    root: Names,
    entries: Seq<MftEntry>,
    n: int,
    set: Set<Names>,
) -> bool {
    forall|d: Names| #[trigger]
        set.contains(d) == exists|j: int|
            0 <= j < n && skips(settings, root, #[trigger] entries[j]) && entries[j].path@ == d
}

/// The paths of the entries whose directories are skipped.
fn skipped_dirs(settings: &ScanSettings, root: &DirPath, entries: &Vec<MftEntry>) -> (set:
    FxHashSet<Vec<Vec<u8>>>)
    ensures
        holds_skips(*settings, root@, entries@, entries@.len() as int, set.deep_view()),
{
    let mut set: FxHashSet<Vec<Vec<u8>>> = set_new();
    let mut i: usize = 0;
    while i < entries.len()
        invariant
            i <= entries@.len(),
            holds_skips(*settings, root@, entries@, i as int, set.deep_view()),
        decreases entries@.len() - i,
    {
        let e = &entries[i];
        let ghost before = set.deep_view();
        let is_hidden = is_hidden_dir(e.name.as_str(), e.marked_hidden);
        let is_skipped = e.path.names.len() > root.names.len() && ((settings.ignore_hidden
            && is_hidden) || (settings.keep_system && e.is_system));
        assert(is_skipped == skips(*settings, root@, *e));
        if is_skipped {
            set_insert(&mut set, e.path.copy().names);
        }
        proof {
            assert forall|d: Names| #[trigger]
                set.deep_view().contains(d) == exists|j: int|
                    0 <= j < i + 1 && skips(*settings, root@, #[trigger] entries@[j])
                        && entries@[j].path@ == d by {
                if before.contains(d) {
                    let j = choose|j: int|
                        0 <= j < i && skips(*settings, root@, #[trigger] entries@[j])
                            && entries@[j].path@ == d;
                    assert(entries@[j].path@ == d);
                } else if set.deep_view().contains(d) {
                    assert(entries@[i as int].path@ == d);
                }
            }
        }
        i += 1;
    }
    set
}

proof fn lemma_skipped(
    settings: ScanSettings,
    root: Names,
    entries: Seq<MftEntry>,
    set: Set<Names>,
    p: Names,
)
    requires
        holds_skips(settings, root, entries, entries.len() as int, set),
    ensures
        skipped(settings, root, entries, p) == exists|d: Names| #[trigger]
            set.contains(d) && within(p, d),
{
    if skipped(settings, root, entries, p) {
        let j = choose|j: int|
            0 <= j < entries.len() && skips(settings, root, #[trigger] entries[j]) && within(
                p,
                entries[j].path@,
            );
        assert(set.contains(entries[j].path@) && within(p, entries[j].path@));
    }
    if exists|d: Names| #[trigger] set.contains(d) && within(p, d) {
        let d = choose|d: Names| #[trigger] set.contains(d) && within(p, d);
        let j = choose|j: int|
            0 <= j < entries.len() && skips(settings, root, #[trigger] entries[j])
                && entries[j].path@ == d;
        assert(within(p, entries[j].path@));
    }
}

impl<'a> MftScan<'a> {
    /// The node of an entry.
    fn make_node(
        &self,
        root: &DirPath,
        e: &MftEntry,
        patterns: &Vec<String>,
        skips: &FxHashSet<Vec<Vec<u8>>>,
        Ghost(entries): Ghost<Seq<MftEntry>>,
    ) -> (node: DirectoryNode)
        requires
            root@.len() <= i32::MAX,
            e.path@.len() <= i32::MAX,
            texts(patterns@) == dir_patterns(texts(self@.table.settings.ignore_dirs@)),
            holds_skips(
                self@.table.settings,
                root@,
                entries,
                entries.len() as int,
                skips.deep_view(),
            ),
            self.wf(),
        ensures
            self@.describes(root@, entries, *e, node),
            !node.has_children,
    {
        let settings = self.settings();
        let key = make_path_key(e.text.as_str());
        let is_found = self.is_accepted(&key);
        let is_hidden = is_hidden_dir(e.name.as_str(), e.marked_hidden);
        proof {
            lemma_skipped(self@.table.settings, root@, entries, skips.deep_view(), e.path@);
        }
        let is_protected = is_found && (lies_in(skips, &e.path) || is_directory_protected(
            e.text.as_str(),
            is_hidden,
            is_dir_too_young(e.age_secs, settings.min_age_hours),
            e.is_system,
            settings,
            patterns,
        ));
        let name = if e.path.same(root) {
            let places = self.places();
            proof {
                assert(self@.places.len() == 1 + self@.shown.len());
                assert(self@.places[0] == self@.table.root);
                assert(places@[0]@ == texts(places@)[0]);
            }
            places[0].clone()
        } else {
            e.name.clone()
        };
        let depth: i32 = e.path.names.len() as i32 - root.names.len() as i32;
        DirectoryNode {
            path: e.path.copy(),
            name,
            path_str: e.text.clone(),
            depth,
            status: if !is_found {
                NORMAL
            } else if is_protected {
                PROTECTED
            } else {
                EMPTY
            },
            has_children: false,
            is_expanded: true,
            is_last_sibling: false,
            is_hidden,
            is_symlink: e.is_symlink,
        }
    }
}

/// Whether `plain` holds, in path order, the nodes of entries that the scan reaches, those at the
/// places `from`, each the first with its path.
spec fn lists_nodes(
    state: MftState,
    root: Names,
    entries: Seq<MftEntry>,
    from: Seq<int>,
    plain: Seq<DirectoryNode>,
) -> bool {
    &&& plain.len() == from.len()
    &&& forall|a: int|
        0 <= a < from.len() ==> {
            &&& first_of_path(entries, #[trigger] from[a])
            &&& within_reach(state.table.settings, root, entries[from[a]])
            &&& state.describes(root, entries, entries[from[a]], plain[a])
            &&& !plain[a].has_children
        }
    &&& forall|a: int, b: int|
        0 <= a < b < plain.len() ==> path_before(
            #[trigger] plain[a].path@,
            #[trigger] plain[b].path@,
        )
}

proof fn lemma_report(
    state: MftState,
    root: Names,
    entries: Seq<MftEntry>,
    from: Seq<int>,
    plain: Seq<DirectoryNode>,
    nodes: Seq<DirectoryNode>,
)
    requires
        lists_nodes(state, root, entries, from, plain),
        forall|i: int|
            0 <= i < entries.len() && within_reach(
                state.table.settings,
                root,
                #[trigger] entries[i],
            ) ==> has_path(plain, entries[i].path@),
        nodes.len() == plain.len(),
        forall|a: int| 0 <= a < plain.len() ==> #[trigger] nodes[a] == related(plain, a),
    ensures
        state.is_report(root, entries, nodes),
{
    assert forall|a: int, b: int| 0 <= a < b < nodes.len() implies path_before(
        #[trigger] nodes[a].path@,
        #[trigger] nodes[b].path@,
    ) by {
        assert(path_before(plain[a].path@, plain[b].path@));
    }
    assert forall|a: int| 0 <= a < nodes.len() implies {
        &&& state.stems(root, entries, nodes[a])
        &&& (#[trigger] nodes[a]).has_children == opens_subtree(nodes, a)
        &&& nodes[a].is_last_sibling == ends_level(nodes, a)
    } by {
        let i = from[a];
        assert(first_of_path(entries, i));
        assert(state.describes(root, entries, entries[i], nodes[a]));
        flags_by_depths(plain, nodes, a);
    }
    assert forall|i: int|
        0 <= i < entries.len() && within_reach(
            state.table.settings,
            root,
            #[trigger] entries[i],
        ) implies has_path(nodes, entries[i].path@) by {
        assert(has_path(plain, entries[i].path@));
        let a = choose|a: int|
            0 <= a < plain.len() && (#[trigger] plain[a]).path@ == entries[i].path@;
        assert(nodes[a].path@ == entries[i].path@);
    }
}

impl<'a> MftScan<'a> {
    /// The report of a scan that has looked at everything, from what is known of the paths to
    /// show.
    pub fn report(&self, root: &DirPath, entries: &Vec<MftEntry>) -> (nodes: Vec<DirectoryNode>)
        requires
            self.wf(),
            self@.done(),
            depths_fit(root@, entries@),
        ensures
            self@.is_report(root@, entries@, nodes@),
    {
        let settings = self.settings();
        let patterns = make_dir_patterns(&settings.ignore_dirs);
        let skips = skipped_dirs(settings, root, entries);
        let n = entries.len();
        let mut keys: Vec<DirPath> = Vec::new();
        let mut i: usize = 0;
        while i < n
            invariant
                i <= n == entries@.len(),
                keys@.len() == i,
                forall|k: int| 0 <= k < i ==> (#[trigger] keys@[k])@ == entries@[k].path@,
            decreases n - i,
        {
            keys.push(entries[i].path.copy());
            i += 1;
        }
        let order = sorted_order(&keys);
        let mut nodes: Vec<DirectoryNode> = Vec::new();
        let ghost mut from: Seq<int> = Seq::empty();
        let mut k: usize = 0;
        while k < n
            invariant
                k <= n == entries@.len(),
                keys@.len() == n,
                forall|j: int| 0 <= j < n ==> (#[trigger] keys@[j])@ == entries@[j].path@,
                is_sorted_order(keys@, 0, n as int, order@),
                self.wf(),
                *settings == self@.table.settings,
                depths_fit(root@, entries@),
                texts(patterns@) == dir_patterns(texts(settings.ignore_dirs@)),
                holds_skips(*settings, root@, entries@, n as int, skips.deep_view()),
                lists_nodes(self@, root@, entries@, from, nodes@),
                forall|a: int| 0 <= a < from.len() ==> order@.take(k as int).contains(#[trigger] from[a] as usize),
                forall|c: int|
                    0 <= c < k && within_reach(
                        *settings,
                        root@,
                        entries@[#[trigger] order@[c] as int],
                    ) ==> has_path(nodes@, keys@[order@[c] as int]@),
            decreases n - k,
        {
            let i: usize = order[k];
            let e = &entries[i];
            let repeated = k > 0 && keys[order[k - 1]].same(&e.path);
            let depth: i32 = e.path.names.len() as i32 - root.names.len() as i32;
            let reached = settings.max_depth < 0 || depth <= settings.max_depth;
            assert(reached == within_reach(*settings, root@, *e));
            let ghost before = nodes@;
            let ghost places = from;
            if !repeated && reached {
                let node = self.make_node(root, e, &patterns, &skips, Ghost(entries@));
                nodes.push(node);
                proof {
                    from = from.push(i as int);
                    lemma_new_path(keys@, order@, n as int, k as int);
                    lemma_one_more(
                        self@,
                        root@,
                        entries@,
                        places,
                        before,
                        keys@,
                        order@,
                        k as int,
                        nodes@[before.len() as int],
                    );
                }
            }
            proof {
                lemma_seen(order@, k as int, places, from);
                assert forall|c: int|
                    0 <= c < k + 1 && within_reach(
                        *settings,
                        root@,
                        entries@[#[trigger] order@[c] as int],
                    ) implies has_path(nodes@, keys@[order@[c] as int]@) by {
                    let p = keys@[order@[c] as int]@;
                    if c < k {
                        assert(has_path(before, p));
                        lemma_still_there(before, nodes@, p);
                    } else if repeated {
                        assert(keys@[order@[k - 1] as int]@ == p);
                        assert(has_path(before, p));
                    } else {
                        assert(nodes@[before.len() as int].path@ == p);
                    }
                }
            }
            k += 1;
        }
        let ghost plain = nodes@;
        compute_tree_relationships(&mut nodes);
        proof {
            assert forall|i: int|
                0 <= i < entries@.len() && within_reach(
                    *settings,
                    root@,
                    #[trigger] entries@[i],
                ) implies has_path(plain, entries@[i].path@) by {
                assert(order@.contains(i as usize));
                let c = choose|c: int| 0 <= c < order@.len() && order@[c] == i as usize;
                assert(has_path(plain, keys@[order@[c] as int]@));
            }
            lemma_report(self@, root@, entries@, from, plain, nodes@);
        }
        nodes
    }

    /// The line that ends the log of a scan.
    pub fn done_line(&self) -> (line: String)
        ensures
            line@ == "[+] Direct MFT Scan complete. Found "@ + decimal(self@.good.len())
                + " truly empty directories."@,
    {
        let count = decimal_text(self.accepted_count());
        cat3(
            "[+] Direct MFT Scan complete. Found ",
            count.as_str(),
            " truly empty directories.",
        )
    }
}

/// A path stays among nodes when one more node follows, or none.
proof fn lemma_still_there(before: Seq<DirectoryNode>, now: Seq<DirectoryNode>, p: Names)
    requires
        has_path(before, p),
        before.len() <= now.len(),
        forall|a: int| 0 <= a < before.len() ==> now[a] == #[trigger] before[a],
    ensures
        has_path(now, p),
{
    let a = choose|a: int| 0 <= a < before.len() && (#[trigger] before[a]).path@ == p;
    assert(before[a] == now[a]);
}

/// The places of nodes stay among those that were passed when one more is passed.
proof fn lemma_seen(order: Seq<usize>, k: int, before: Seq<int>, now: Seq<int>)
    requires
        0 <= k < order.len(),
        forall|a: int| 0 <= a < before.len() ==> order.take(k).contains(#[trigger] before[a] as usize),
        now == before || now == before.push(order[k] as int),
    ensures
        forall|a: int| 0 <= a < now.len() ==> order.take(k + 1).contains(#[trigger] now[a] as usize),
{
    assert forall|a: int| 0 <= a < now.len() implies order.take(k + 1).contains(
        #[trigger] now[a] as usize,
    ) by {
        if a < before.len() {
            assert(order.take(k).contains(before[a] as usize));
            let c = choose|c: int| 0 <= c < k && order.take(k)[c] == before[a] as usize;
            assert(order.take(k + 1)[c] == before[a] as usize);
        } else {
            assert(order.take(k + 1)[k] == order[k]);
        }
    }
}

/// A path at place `k` of a sorted order that differs from the one directly before it differs from
/// all before it, and the first entry with it stands at place `k`.
proof fn lemma_new_path(keys: Seq<DirPath>, order: Seq<usize>, n: int, k: int)
    requires
        is_sorted_order(keys, 0, n, order),
        n == keys.len(),
        n <= usize::MAX,
        0 <= k < n,
        k > 0 ==> keys[order[k - 1] as int]@ != keys[order[k] as int]@,
    ensures
        forall|j: int| 0 <= j < order[k] ==> (#[trigger] keys[j])@ != keys[order[k] as int]@,
        forall|c: int|
            0 <= c < k ==> path_before(keys[#[trigger] order[c] as int]@, keys[order[k] as int]@),
{
    let i = order[k] as int;
    assert forall|j: int| 0 <= j < i implies (#[trigger] keys[j])@ != keys[i]@ by {
        if keys[j]@ == keys[i]@ {
            lemma_earlier_twin(keys, order, n, k, j);
        }
    }
    assert forall|c: int| 0 <= c < k implies path_before(
        keys[#[trigger] order[c] as int]@,
        keys[i]@,
    ) by {
        assert(sorts_before(keys, order[c] as int, order[k] as int));
        path_order_is_total(keys[order[c] as int]@, keys[i]@);
    }
}

/// The nodes stay in order when the node of the entry at place `k` of the order follows.
proof fn lemma_one_more(
    state: MftState,
    root: Names,
    entries: Seq<MftEntry>,
    from: Seq<int>,
    plain: Seq<DirectoryNode>,
    keys: Seq<DirPath>,
    order: Seq<usize>,
    k: int,
    node: DirectoryNode,
)
    requires
        lists_nodes(state, root, entries, from, plain),
        0 <= k < order.len(),
        order[k] < entries.len(),
        keys.len() == entries.len(),
        forall|j: int| 0 <= j < keys.len() ==> (#[trigger] keys[j])@ == entries[j].path@,
        forall|a: int| 0 <= a < from.len() ==> order.take(k).contains(#[trigger] from[a] as usize),
        forall|j: int| 0 <= j < order[k] ==> (#[trigger] keys[j])@ != keys[order[k] as int]@,
        forall|c: int|
            0 <= c < k ==> path_before(keys[#[trigger] order[c] as int]@, keys[order[k] as int]@),
        within_reach(state.table.settings, root, entries[order[k] as int]),
        state.describes(root, entries, entries[order[k] as int], node),
        !node.has_children,
        entries.len() <= usize::MAX,
    ensures
        lists_nodes(state, root, entries, from.push(order[k] as int), plain.push(node)),
{
    let i = order[k] as int;
    assert forall|j: int| 0 <= j < i implies (#[trigger] entries[j]).path@ != entries[i].path@ by {
        assert(keys[j]@ != keys[i]@);
    }
    assert(first_of_path(entries, i));
    let all = plain.push(node);
    assert forall|a: int, b: int| 0 <= a < b < all.len() implies path_before(
        #[trigger] all[a].path@,
        #[trigger] all[b].path@,
    ) by {
        if b == plain.len() {
            assert(first_of_path(entries, from[a]));
            assert(order.take(k).contains(from[a] as usize));
            let c = choose|c: int| 0 <= c < k && order.take(k)[c] == from[a] as usize;
            assert(order[c] == from[a]);
            assert(path_before(keys[order[c] as int]@, keys[i]@));
        } else {
            assert(path_before(plain[a].path@, plain[b].path@));
        }
    }
}

/// In a sorted order an earlier entry with the path of the entry at place `k` stands before it,
/// and so does an entry with that path directly.
proof fn lemma_earlier_twin(keys: Seq<DirPath>, order: Seq<usize>, n: int, k: int, j: int)
    requires
        is_sorted_order(keys, 0, n, order),
        n == keys.len(),
        n <= usize::MAX,
        0 <= k < n,
        0 <= j < order[k],
        keys[j]@ == keys[order[k] as int]@,
    ensures
        k > 0,
        keys[order[k - 1] as int]@ == keys[order[k] as int]@,
{
    assert(order.contains(j as usize));
    let c = choose|c: int| 0 <= c < order.len() && order[c] == j as usize;
    path_order_is_total(keys[j]@, keys[j]@);
    if c > k {
        assert(sorts_before(keys, order[k] as int, order[c] as int));
    }
    if c < k - 1 {
        assert(sorts_before(keys, order[c] as int, order[k - 1] as int));
        assert(sorts_before(keys, order[k - 1] as int, order[k] as int));
        path_order_is_total(keys[order[k - 1] as int]@, keys[j]@);
    }
}

} // verus!

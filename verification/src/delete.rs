//! Deleting the directories of a report: what is deleted, in which order, and what each outcome
//! leads to.

use crate::collections::{set_contains, set_insert, set_new};
use crate::order::{is_sorted_order, sorted_order, sorts_before, Ascending, DeepestFirst};
use crate::path::{within, DirPath, Names};
use crate::text::{cat, make_name_text, name_text, texts};
use crate::tree::{DirectoryNode, DELETED, EMPTY, FAILED};
use crate::wild::{any_match, any_matches};
use rustc_hash::FxHashSet;
use vstd::prelude::*;
use vstd::string::*;

verus! {

/// How directories are deleted.
#[derive(Clone, Debug)]
pub struct DeleteSettings {
    pub move_to_trash: bool,
    pub ignore_errors: bool,
    pub pause_ms: u32,
    pub ignore_files: Vec<String>,
    pub consider_empty_files_empty: bool,
    pub dry_run: bool,
}

/// Whether node `i` sorts before node `j` by depth, and by position where the depths tie.
pub open spec fn shallower(nodes: Seq<DirectoryNode>, i: int, j: int) -> bool {
    nodes[i].depth < nodes[j].depth || (nodes[i].depth == nodes[j].depth && i < j)
}

/// Whether `list` holds the positions of the nodes that count as empty, the shallowest first.
pub open spec fn lists_empty(nodes: Seq<DirectoryNode>, list: Seq<usize>) -> bool {
    &&& forall|a: int|
        0 <= a < list.len() ==> #[trigger] list[a] < nodes.len() && nodes[list[a] as int].status
            == EMPTY
    &&& forall|i: int|
        0 <= i < nodes.len() && (#[trigger] nodes[i]).status == EMPTY ==> list.contains(i as usize)
    &&& forall|a: int, b: int|
        0 <= a < b < list.len() ==> shallower(
            nodes,
            #[trigger] list[a] as int,
            #[trigger] list[b] as int,
        )
}

/// The positions of the nodes that count as empty, the shallowest first.
pub fn empty_by_depth(nodes: &Vec<DirectoryNode>) -> (list: Vec<usize>)
    ensures
        lists_empty(nodes@, list@),
{
    let mut found: Vec<usize> = Vec::new();
    let mut keys: Vec<Ascending> = Vec::new();
    let mut i: usize = 0;
    while i < nodes.len()
        invariant
            i <= nodes@.len(),
            found@.len() == keys@.len(),
            forall|a: int|
                0 <= a < found@.len() ==> #[trigger] found@[a] < i && nodes@[found@[a] as int].status
                    == EMPTY,
            forall|a: int|
                0 <= a < found@.len() ==> (#[trigger] keys@[a]).0 == nodes@[found@[a] as int].depth,
            forall|a: int, b: int|
                0 <= a < b < found@.len() ==> #[trigger] found@[a] < #[trigger] found@[b],
            forall|j: int|
                0 <= j < i && (#[trigger] nodes@[j]).status == EMPTY ==> found@.contains(j as usize),
        decreases nodes@.len() - i,
    {
        let ghost before = found@;
        if nodes[i].status == EMPTY {
            found.push(i);
            keys.push(Ascending(nodes[i].depth));
        }
        proof {
            assert forall|j: int|
                0 <= j < i + 1 && (#[trigger] nodes@[j]).status == EMPTY implies found@.contains(
                j as usize,
            ) by {
                if j == i {
                    assert(found@[found@.len() - 1] == i);
                } else {
                    let a = choose|a: int| 0 <= a < before.len() && before[a] == j as usize;
                    assert(found@[a] == j as usize);
                }
            }
        }
        i += 1;
    }
    let order = sorted_order(&keys);
    let mut list: Vec<usize> = Vec::new();
    let mut k: usize = 0;
    while k < order.len()
        invariant
            k <= order@.len(),
            is_sorted_order(keys@, 0, keys@.len() as int, order@),
            found@.len() == keys@.len(),
            list@.len() == k,
            forall|a: int| 0 <= a < k ==> #[trigger] list@[a] == found@[order@[a] as int],
        decreases order@.len() - k,
    {
        list.push(found[order[k]]);
        k += 1;
    }
    proof {
        assert forall|a: int, b: int| 0 <= a < b < list@.len() implies shallower(
            nodes@,
            #[trigger] list@[a] as int,
            #[trigger] list@[b] as int,
        ) by {
            let x = order@[a] as int;
            let y = order@[b] as int;
            assert(sorts_before(keys@, x, y));
            assert(keys@[x].0 == nodes@[found@[x] as int].depth);
            assert(keys@[y].0 == nodes@[found@[y] as int].depth);
            if keys@[x].0 == keys@[y].0 {
                assert(x < y);
                assert(found@[x] < found@[y]);
            }
        }
        assert forall|j: int|
            0 <= j < nodes@.len() && (#[trigger] nodes@[j]).status == EMPTY implies list@.contains(
            j as usize,
        ) by {
            let a = choose|a: int| 0 <= a < found@.len() && found@[a] == j as usize;
            assert(order@.contains(a as usize));
            let c = choose|c: int| 0 <= c < order@.len() && order@[c] == a as usize;
            assert(list@[c] == j as usize);
        }
    }
    list
}

/// Whether node `j` counts as empty, comes before node `i`, and node `i` lies under it.
pub open spec fn covers(nodes: Seq<DirectoryNode>, j: int, i: int) -> bool {
    &&& 0 <= j < nodes.len()
    &&& nodes[j].status == EMPTY
    &&& shallower(nodes, j, i)
    &&& within(nodes[i].path@, nodes[j].path@)
    &&& nodes[i].path@ != nodes[j].path@
}

/// Whether node `i` lies under no node that counts as empty and comes before it.
pub open spec fn is_target(nodes: Seq<DirectoryNode>, i: int) -> bool {
    forall|j: int| !#[trigger] covers(nodes, j, i)
}

/// The topmost of the directories that count as empty: with them go all the others.
pub fn delete_targets(nodes: &Vec<DirectoryNode>, list: &Vec<usize>) -> (targets: Vec<usize>)
    requires
        lists_empty(nodes@, list@),
    ensures
        targets@ == list@.filter(|i: usize| is_target(nodes@, i as int)),
{
    let mut targets: Vec<usize> = Vec::new();
    let mut covered: FxHashSet<Vec<Vec<u8>>> = set_new();
    let ghost pred = |i: usize| is_target(nodes@, i as int);
    let n = nodes.len();
    let mut k: usize = 0;
    proof {
        assert(list@.take(0) =~= Seq::<usize>::empty());
        reveal(Seq::filter);
    }
    while k < list.len()
        invariant
            k <= list@.len(),
            n == nodes@.len(),
            lists_empty(nodes@, list@),
            pred == (|i: usize| is_target(nodes@, i as int)),
            targets@ == list@.take(k as int).filter(pred),
            forall|d: Names| #[trigger]
                covered.deep_view().contains(d) == exists|m: int|
                    0 <= m < k && is_target(nodes@, #[trigger] list@[m] as int)
                        && nodes@[list@[m] as int].path@ == d,
        decreases list@.len() - k,
    {
        let i: usize = list[k];
        let is_covered = has_ancestor_in(&nodes[i].path, &covered);
        let ghost before = covered.deep_view();
        proof {
            lemma_target(nodes@, list@, k as int, before);
            assert(list@.take(k + 1).drop_last() =~= list@.take(k as int));
            assert(list@.take(k + 1).last() == i);
            reveal(Seq::filter);
        }
        if !is_covered {
            targets.push(i);
            set_insert(&mut covered, nodes[i].path.copy().names);
        }
        proof {
            assert forall|d: Names| #[trigger]
                covered.deep_view().contains(d) == exists|m: int|
                    0 <= m < k + 1 && is_target(nodes@, #[trigger] list@[m] as int)
                        && nodes@[list@[m] as int].path@ == d by {
                if before.contains(d) {
                    let m = choose|m: int|
                        0 <= m < k && is_target(nodes@, #[trigger] list@[m] as int)
                            && nodes@[list@[m] as int].path@ == d;
                    assert(0 <= m < k + 1 && is_target(nodes@, list@[m] as int));
                } else if covered.deep_view().contains(d) {
                    assert(is_target(nodes@, list@[k as int] as int));
                }
            }
        }
        k += 1;
    }
    assert(list@.take(k as int) =~= list@);
    targets
}

/// Whether one of the paths that lead to `path` is in the set.
fn has_ancestor_in(path: &DirPath, set: &FxHashSet<Vec<Vec<u8>>>) -> (found: bool)
    ensures
        found == exists|d: Names| #[trigger]
            set.deep_view().contains(d) && within(path@, d) && d != path@,
{
    let mut here = path.copy();
    assert(path@.take(path@.len() as int) == path@);
    loop
        invariant
            within(path@, here@),
            forall|d: Names| #[trigger]
                set.deep_view().contains(d) && within(path@, d) && d != path@ ==> d.len()
                    < here@.len(),
        decreases here@.len(),
    {
        match here.parent() {
            None => {
                return false;
            },
            Some(par) => {
                assert(path@.take(par@.len() as int) == here@.take(par@.len() as int));
                if set_contains(set, &par.names) {
                    assert(set.deep_view().contains(par@));
                    return true;
                }
                proof {
                    assert forall|d: Names| #[trigger]
                        set.deep_view().contains(d) && within(path@, d) && d != path@ implies d.len()
                        < par@.len() by {
                        if d.len() == par@.len() {
                            assert(d == par@);
                        }
                    }
                }
                here = par;
            },
        }
    }
}

/// A node lies under an earlier empty node exactly when it lies under an earlier target.
proof fn lemma_target(nodes: Seq<DirectoryNode>, list: Seq<usize>, k: int, covered: Set<Names>)
    requires
        nodes.len() <= usize::MAX,
        lists_empty(nodes, list),
        0 <= k < list.len(),
        forall|d: Names| #[trigger]
            covered.contains(d) == exists|m: int|
                0 <= m < k && is_target(nodes, #[trigger] list[m] as int)
                    && nodes[list[m] as int].path@ == d,
    ensures
        is_target(nodes, list[k] as int) == !exists|d: Names| #[trigger]
            covered.contains(d) && within(nodes[list[k] as int].path@, d) && d
                != nodes[list[k] as int].path@,
{
    let i = list[k] as int;
    let p = nodes[i].path@;
    if !is_target(nodes, i) {
        let j = choose|j: int| #[trigger] covers(nodes, j, i);
        let t = lemma_top(nodes, list, k, j);
        assert(covered.contains(nodes[t].path@));
    }
    if exists|d: Names| #[trigger] covered.contains(d) && within(p, d) && d != p {
        let d = choose|d: Names| #[trigger] covered.contains(d) && within(p, d) && d != p;
        let m = choose|m: int|
            0 <= m < k && is_target(nodes, #[trigger] list[m] as int)
                && nodes[list[m] as int].path@ == d;
        assert(shallower(nodes, list[m] as int, list[k] as int));
        assert(covers(nodes, list[m] as int, i));
    }
}

/// The target that node `j`, which covers node `list[k]`, lies under or is.
proof fn lemma_top(nodes: Seq<DirectoryNode>, list: Seq<usize>, k: int, j: int) -> (t: int)
    requires
        nodes.len() <= usize::MAX,
        lists_empty(nodes, list),
        0 <= k < list.len(),
        covers(nodes, j, list[k] as int),
    ensures
        exists|m: int| 0 <= m < k && #[trigger] list[m] == t,
        is_target(nodes, t),
        within(nodes[list[k] as int].path@, nodes[t].path@),
        nodes[list[k] as int].path@ != nodes[t].path@,
        0 <= t < nodes.len(),
    decreases k,
{
    assert(list.contains(j as usize));
    let m = choose|m: int| 0 <= m < list.len() && list[m] == j as usize;
    assert(nodes[list[k] as int].status == EMPTY);
    if m > k {
        assert(shallower(nodes, list[k] as int, list[m] as int));
    }
    let p = nodes[list[k] as int].path@;
    if is_target(nodes, j) {
        assert(list[m] == j);
        j
    } else {
        let h = choose|h: int| #[trigger] covers(nodes, h, j);
        let t = lemma_top(nodes, list, m, h);
        let q = nodes[t].path@;
        let o = nodes[j].path@;
        assert(p.take(q.len() as int) == p.take(o.len() as int).take(q.len() as int));
        if p == q {
            assert(o.len() == p.len());
            assert(p.take(p.len() as int) == p);
        }
        let x = choose|x: int| 0 <= x < m && #[trigger] list[x] == t;
        assert(0 <= x < k && list[x] == t);
        t
    }
}

/// Whether `queue` holds the same positions as `list`, the deepest first and, at one depth, in the
/// order of the tree.
pub open spec fn is_bottom_up(
    nodes: Seq<DirectoryNode>,
    list: Seq<usize>,
    queue: Seq<usize>,
) -> bool {
    &&& queue.len() == list.len()
    &&& forall|a: int| 0 <= a < queue.len() ==> list.contains(#[trigger] queue[a])
    &&& forall|a: int| 0 <= a < list.len() ==> queue.contains(#[trigger] list[a])
    &&& forall|a: int, b: int|
        0 <= a < b < queue.len() ==> {
            let i = #[trigger] queue[a] as int;
            let j = #[trigger] queue[b] as int;
            nodes[i].depth > nodes[j].depth || (nodes[i].depth == nodes[j].depth && i < j)
        }
}

/// The positions in `list`, the deepest first.
pub fn bottom_up(nodes: &Vec<DirectoryNode>, list: &Vec<usize>) -> (queue: Vec<usize>)
    requires
        lists_empty(nodes@, list@),
    ensures
        is_bottom_up(nodes@, list@, queue@),
{
    let mut keys: Vec<DeepestFirst> = Vec::new();
    let mut i: usize = 0;
    while i < list.len()
        invariant
            i <= list@.len(),
            lists_empty(nodes@, list@),
            keys@.len() == i,
            forall|a: int| 0 <= a < i ==> (#[trigger] keys@[a]).0 == nodes@[list@[a] as int].depth,
        decreases list@.len() - i,
    {
        keys.push(DeepestFirst(nodes[list[i]].depth));
        i += 1;
    }
    let order = sorted_order(&keys);
    let mut queue: Vec<usize> = Vec::new();
    let mut k: usize = 0;
    while k < order.len()
        invariant
            k <= order@.len(),
            is_sorted_order(keys@, 0, keys@.len() as int, order@),
            list@.len() == keys@.len(),
            queue@.len() == k,
            forall|a: int| 0 <= a < k ==> #[trigger] queue@[a] == list@[order@[a] as int],
        decreases order@.len() - k,
    {
        queue.push(list[order[k]]);
        k += 1;
    }
    proof {
        assert forall|a: int| 0 <= a < list@.len() implies queue@.contains(#[trigger] list@[a]) by {
            assert(order@.contains(a as usize));
            let c = choose|c: int| 0 <= c < order@.len() && order@[c] == a as usize;
            assert(queue@[c] == list@[a]);
        }
        assert forall|a: int, b: int| 0 <= a < b < queue@.len() implies {
            let x = #[trigger] queue@[a] as int;
            let y = #[trigger] queue@[b] as int;
            nodes@[x].depth > nodes@[y].depth || (nodes@[x].depth == nodes@[y].depth && x < y)
        } by {
            let x = order@[a] as int;
            let y = order@[b] as int;
            assert(sorts_before(keys@, x, y));
            assert(keys@[x].0 == nodes@[list@[x] as int].depth);
            assert(keys@[y].0 == nodes@[list@[y] as int].depth);
            if keys@[x].0 == keys@[y].0 {
                assert(shallower(nodes@, list@[x] as int, list@[y] as int));
            }
        }
    }
    queue
}

/// How many of the nodes in `list` have the status `s`.
pub open spec fn tally(nodes: Seq<DirectoryNode>, list: Seq<usize>, s: i32) -> nat
    decreases list.len(),
{
    if list.len() == 0 {
        0
    } else {
        tally(nodes, list.drop_last(), s) + if nodes[list.last() as int].status == s {
            1nat
        } else {
            0nat
        }
    }
}

pub(crate) proof fn lemma_tally_bounds(nodes: Seq<DirectoryNode>, list: Seq<usize>)
    ensures
        tally(nodes, list, DELETED) + tally(nodes, list, FAILED) + tally(nodes, list, EMPTY)
            <= list.len(),
    decreases list.len(),
{
    if list.len() > 0 {
        lemma_tally_bounds(nodes, list.drop_last());
    }
}

/// The change of a count when the status of one node of the list changes.
pub(crate) proof fn lemma_tally_change(
    x: Seq<DirectoryNode>,
    y: Seq<DirectoryNode>,
    list: Seq<usize>,
    k: int,
    s: i32,
)
    requires
        0 <= k < list.len(),
        forall|a: int, b: int|
            0 <= a < b < list.len() ==> #[trigger] list[a] != #[trigger] list[b],
        forall|a: int|
            0 <= a < list.len() && a != k ==> y[#[trigger] list[a] as int].status
                == x[list[a] as int].status,
    ensures
        tally(y, list, s) == tally(x, list, s) - (if x[list[k] as int].status == s {
            1int
        } else {
            0
        }) + (if y[list[k] as int].status == s {
            1int
        } else {
            0
        }),
    decreases list.len(),
{
    let n = list.len() - 1;
    let short = list.drop_last();
    assert forall|a: int| 0 <= a < short.len() && a != k implies y[#[trigger] short[a] as int].status
        == x[short[a] as int].status by {
        assert(short[a] == list[a]);
    }
    if k == n {
        lemma_tally_same(x, y, short, s);
    } else {
        assert(y[list[n] as int].status == x[list[n] as int].status);
        lemma_tally_change(x, y, short, k, s);
    }
}

pub(crate) proof fn lemma_tally_same(
    x: Seq<DirectoryNode>,
    y: Seq<DirectoryNode>,
    list: Seq<usize>,
    s: i32,
)
    requires
        forall|a: int|
            0 <= a < list.len() ==> y[#[trigger] list[a] as int].status == x[list[a] as int].status,
    ensures
        tally(y, list, s) == tally(x, list, s),
    decreases list.len(),
{
    if list.len() > 0 {
        let short = list.drop_last();
        assert forall|a: int| 0 <= a < short.len() implies y[#[trigger] short[a] as int].status
            == x[short[a] as int].status by {
            assert(short[a] == list[a]);
        }
        assert(y[list[list.len() - 1] as int].status == x[list[list.len() - 1] as int].status);
        lemma_tally_same(x, y, short, s);
    }
}

/// The count of a status that all nodes of the list have.
pub(crate) proof fn lemma_tally_all(nodes: Seq<DirectoryNode>, list: Seq<usize>, t: i32, s: i32)
    requires
        forall|a: int| 0 <= a < list.len() ==> nodes[#[trigger] list[a] as int].status == t,
    ensures
        tally(nodes, list, s) == if s == t {
            list.len()
        } else {
            0
        },
    decreases list.len(),
{
    if list.len() > 0 {
        let short = list.drop_last();
        assert forall|a: int| 0 <= a < short.len() implies nodes[#[trigger] short[a] as int].status
            == t by {
            assert(short[a] == list[a]);
        }
        assert(nodes[list[list.len() - 1] as int].status == t);
        lemma_tally_all(nodes, short, t, s);
    }
}

/// Something that lies directly in a directory that is about to be deleted.
pub struct ChildEntry {
    pub name: Vec<u8>,
    /// Whether the bytes of the name stand for 16-bit units.
    pub wide: bool,
    pub is_symlink: bool,
    /// Whether the entry is a file, or leads to one.
    pub is_file: bool,
    /// The size in bytes, where it is known.
    pub size: Option<u64>,
}

/// Whether an entry is cleared away before its directory is deleted: a file or a link with an
/// ignored name, or an empty file that does not count.
pub open spec fn clears_away(settings: DeleteSettings, child: ChildEntry) -> bool {
    &&& !settings.dry_run
    &&& child.is_symlink || child.is_file
    &&& {
        ||| any_match(texts(settings.ignore_files@), name_text(child.wide, child.name@))
        ||| !child.is_symlink && settings.consider_empty_files_empty && child.size == Some(0u64)
    }
}

/// Whether `list` holds the places of the entries that are cleared away, in order.
pub open spec fn lists_cleared(
    settings: DeleteSettings,
    children: Seq<ChildEntry>,
    list: Seq<usize>,
) -> bool {
    &&& forall|a: int, b: int| 0 <= a < b < list.len() ==> #[trigger] list[a] < #[trigger] list[b]
    &&& forall|i: int|
        0 <= i < children.len() ==> (list.contains(i as usize) == clears_away(
            settings,
            #[trigger] children[i],
        ))
    &&& forall|a: int| 0 <= a < list.len() ==> #[trigger] list[a] < children.len()
}

/// The places of the entries that are cleared away, in order.
pub fn entries_to_clear(children: &Vec<ChildEntry>, settings: &DeleteSettings) -> (list: Vec<usize>)
    ensures
        lists_cleared(*settings, children@, list@),
{
    let mut list: Vec<usize> = Vec::new();
    let mut i: usize = 0;
    while i < children.len()
        invariant
            i <= children@.len(),
            forall|a: int, b: int|
                0 <= a < b < list@.len() ==> #[trigger] list@[a] < #[trigger] list@[b],
            forall|a: int| 0 <= a < list@.len() ==> #[trigger] list@[a] < i,
            forall|j: int|
                0 <= j < i ==> (list@.contains(j as usize) == clears_away(
                    *settings,
                    #[trigger] children@[j],
                )),
        decreases children@.len() - i,
    {
        let child = &children[i];
        let ghost before = list@;
        let mut clear = false;
        if child.is_symlink || child.is_file {
            let name = make_name_text(child.wide, &child.name);
            let is_ignored = any_matches(&settings.ignore_files, name.as_str());
            let is_empty_file = !child.is_symlink && settings.consider_empty_files_empty
                && match child.size {
                Some(n) => n == 0,
                None => false,
            };
            clear = (is_ignored || is_empty_file) && !settings.dry_run;
        }
        if clear {
            list.push(i);
        }
        proof {
            assert(clear == clears_away(*settings, children@[i as int]));
            assert forall|j: int| 0 <= j < i + 1 implies (list@.contains(j as usize) == clears_away(
                *settings,
                #[trigger] children@[j],
            )) by {
                if j < i {
                    if before.contains(j as usize) {
                        let a = choose|a: int| 0 <= a < before.len() && before[a] == j as usize;
                        assert(list@[a] == j as usize);
                    }
                    if list@.contains(j as usize) {
                        let a = choose|a: int| 0 <= a < list@.len() && list@[a] == j as usize;
                        assert(before[a] == j as usize);
                    }
                } else if clear {
                    assert(list@[before.len() as int] == i);
                } else if list@.contains(j as usize) {
                    let a = choose|a: int| 0 <= a < list@.len() && list@[a] == j as usize;
                    assert(list@[a] < i);
                }
            }
        }
        i += 1;
    }
    list
}

/// Whether `verdict` is what is known of a directory before anything in it is touched.
pub open spec fn is_early_verdict(
    is_symlink: Result<bool, String>,
    verdict: Option<Result<bool, String>>,
) -> bool {
    match is_symlink {
        Ok(true) => verdict == Some(Ok::<bool, String>(true)),
        Ok(false) => verdict is None,
        Err(e) => verdict == Some(Err::<bool, String>(e)),
    }
}

/// What is known of a directory before anything in it is touched, from whether it is a symbolic
/// link: a link counts as empty as it is, and a directory that cannot be looked at is not deleted.
/// A proper directory is to be cleaned first.
pub fn early_verdict(is_symlink: Result<bool, String>) -> (verdict: Option<Result<bool, String>>)
    ensures
        is_early_verdict(is_symlink, verdict),
{
    match is_symlink {
        Ok(true) => Some(Ok(true)),
        Ok(false) => None,
        Err(e) => Some(Err(e)),
    }
}

/// The error about a directory in which something is left.
pub open spec fn not_empty_error() -> Seq<char> {
    "Directory is not empty (contains non-ignored files)"@
}

/// Whether `verdict` is the verdict on a directory that was cleaned.
pub open spec fn is_late_verdict(
    nothing_left: Result<bool, String>,
    verdict: Result<bool, String>,
) -> bool {
    match nothing_left {
        Ok(true) => verdict == Ok::<bool, String>(true),
        Ok(false) => verdict matches Err(m) && m@ == not_empty_error(),
        Err(e) => verdict matches Err(m) && m@ == "Failed to verify directory: "@ + e@,
    }
}

/// The verdict on a directory that was cleaned, from whether nothing is left in it.
pub fn late_verdict(nothing_left: Result<bool, String>) -> (verdict: Result<bool, String>)
    ensures
        is_late_verdict(nothing_left, verdict),
{
    match nothing_left {
        Ok(true) => Ok(true),
        Ok(false) => Err("Directory is not empty (contains non-ignored files)".to_owned()),
        Err(e) => Err(cat("Failed to verify directory: ", e.as_str())),
    }
}

/// What came of the last thing that the cleaning of a directory asked for.
pub enum CleanEvent {
    /// Whether the directory is a symbolic link.
    Looked(Result<bool, String>),
    /// What lies in the directory, if that could be read.
    Listed(Option<Vec<ChildEntry>>),
    /// The entries were cleared away.
    Cleared,
    /// Whether nothing is left in the directory.
    Verified(Result<bool, String>),
}

/// What the cleaning of a directory asks for next. It begins with a look at the directory.
pub enum CleanAction {
    /// List what lies in the directory.
    List,
    /// Clear away the entries at these places of the list.
    Clear(Vec<usize>),
    /// Look whether nothing is left.
    Verify,
    /// Stop: whether the directory may be deleted, or why not.
    Verdict(Result<bool, String>),
}

/// Whether the cleaning of a directory goes on from an event with an action. A directory that could
/// not be listed is verified as it is.
pub open spec fn cleaning_goes_on(
    settings: DeleteSettings,
    event: CleanEvent,
    action: CleanAction,
) -> bool {
    match event {
        CleanEvent::Looked(is_symlink) => match action {
            CleanAction::List => is_early_verdict(is_symlink, None),
            CleanAction::Verdict(verdict) => is_early_verdict(is_symlink, Some(verdict)),
            _ => false,
        },
        CleanEvent::Listed(Some(children)) => action matches CleanAction::Clear(list)
            && lists_cleared(settings, children@, list@),
        CleanEvent::Listed(None) => action == CleanAction::Verify,
        CleanEvent::Cleared => action == CleanAction::Verify,
        CleanEvent::Verified(nothing_left) => action matches CleanAction::Verdict(verdict)
            && is_late_verdict(nothing_left, verdict),
    }
}

/// Goes on with the cleaning of a directory.
pub fn clean_step(settings: &DeleteSettings, event: CleanEvent) -> (action: CleanAction)
    ensures
        cleaning_goes_on(*settings, event, action),
{
    match event {
        CleanEvent::Looked(is_symlink) => match early_verdict(is_symlink) {
            Some(verdict) => CleanAction::Verdict(verdict),
            None => CleanAction::List,
        },
        CleanEvent::Listed(Some(children)) => CleanAction::Clear(
            entries_to_clear(&children, settings),
        ),
        CleanEvent::Listed(None) => CleanAction::Verify,
        CleanEvent::Cleared => CleanAction::Verify,
        CleanEvent::Verified(nothing_left) => CleanAction::Verdict(late_verdict(nothing_left)),
    }
}

/// How a directory is deleted.
pub enum DeleteMethod {
    /// It is moved to the trash.
    Trash,
    /// The link is removed, not what it leads to.
    Link,
    /// The empty directory is removed.
    Directory,
}

/// Whether `method` is how a directory is deleted, after the verdict on it.
pub open spec fn is_deletion(
    verdict: Result<bool, String>,
    settings: DeleteSettings,
    is_symlink: bool,
    method: Result<DeleteMethod, String>,
) -> bool {
    match verdict {
        Ok(true) => method == Ok::<DeleteMethod, String>(
            if is_symlink {
                DeleteMethod::Link
            } else if settings.move_to_trash {
                DeleteMethod::Trash
            } else {
                DeleteMethod::Directory
            },
        ),
        Ok(false) => method matches Err(m) && m@ == not_empty_error(),
        Err(e) => method == Err::<DeleteMethod, String>(e),
    }
}

/// How a directory is deleted, after the verdict on it.
pub fn choose_deletion(
    verdict: Result<bool, String>,
    settings: &DeleteSettings,
    is_symlink: bool,
) -> (method: Result<DeleteMethod, String>)
    ensures
        is_deletion(verdict, *settings, is_symlink, method),
{
    match verdict {
        Ok(true) => {
            if settings.move_to_trash && !is_symlink {
                Ok(DeleteMethod::Trash)
            } else if is_symlink {
                Ok(DeleteMethod::Link)
            } else {
                Ok(DeleteMethod::Directory)
            }
        },
        Ok(false) => Err("Directory is not empty (contains non-ignored files)".to_owned()),
        Err(e) => Err(e),
    }
}

} // verus!

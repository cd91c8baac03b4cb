//! What the report of a scan promises.

use crate::path::{
    path_before, path_before_descendant, path_order_is_total, subtree_is_interval, within, Names,
};
use crate::scanner::{looser, protects, removable_when_clear, same_rules, walk_ok, Walk};
use crate::text::texts;
use crate::tree::{ends_level, follows_level, opens_subtree, DirectoryNode, EMPTY, PROTECTED};
use crate::visible::no_gaps;
use crate::wild::{any_match, dir_patterns, wild_match};
use vstd::prelude::*;

verus! {

/// Whether a walk met every directory on the way to what it met.
pub open spec fn complete(w: Walk) -> bool {
    forall|i: int|
        0 <= i < w.entries.len() && w.at(i).len() > 0 ==> w.listed(#[trigger] w.at(i).drop_last())
}

proof fn lemma_prefix_listed(w: Walk, i: int, n: int)
    requires
        complete(w),
        0 <= i < w.entries.len(),
        0 <= n < w.at(i).len(),
    ensures
        w.listed(w.at(i).take(n)),
    decreases w.at(i).len() - n,
{
    let p = w.at(i);
    if n == p.len() - 1 {
        assert(p.take(n) == p.drop_last());
    } else {
        let q = p.drop_last();
        assert(w.listed(q));
        let j = choose|j: int| #[trigger] w.dir(j) && w.at(j) == q;
        lemma_prefix_listed(w, j, n);
        assert(q.take(n) == p.take(n));
    }
}

proof fn lemma_reaches_all(w: Walk, i: int, j: int)
    requires
        complete(w),
        w.dir(i),
        w.dir(j),
        within(w.at(j), w.at(i)),
    ensures
        w.reaches(i, j),
{
    assert forall|n: int| w.at(i).len() <= n < w.at(j).len() implies w.listed(
        #[trigger] w.at(j).take(n),
    ) by {
        lemma_prefix_listed(w, j, n);
    }
}

/// In a complete walk a directory counts as empty exactly when neither it nor any directory under
/// it has to stay.
pub proof fn empty_when_nothing_stays(w: Walk, i: int)
    requires
        complete(w),
        w.dir(i),
    ensures
        w.removable(i) == forall|j: int|
            #[trigger] w.dir(j) && within(w.at(j), w.at(i)) ==> !w.blocks(j),
{
    if w.removable(i) {
        assert forall|j: int| #[trigger] w.dir(j) && within(w.at(j), w.at(i)) implies !w.blocks(
            j,
        ) by {
            lemma_reaches_all(w, i, j);
        }
    }
}

/// The directory behind a node that is reported as empty.
proof fn lemma_empty_node(w: Walk, nodes: Seq<DirectoryNode>, a: int) -> (i: int)
    requires
        walk_ok(w.entries),
        w.is_report(nodes),
        0 <= a < nodes.len(),
        nodes[a].status == EMPTY,
    ensures
        w.dir(i),
        w.at(i).len() > 0,
        w.removable(i),
        nodes[a].path@ == w.root.path@ + w.at(i),
{
    let d = nodes[a].path@.skip(w.root.path@.len() as int);
    assert(w.describes(d, nodes[a]));
    let i = choose|i: int| #[trigger] w.empties(i, d);
    removable_when_clear(w, i);
    i
}

proof fn lemma_within_below(root: Names, q: Names, p: Names)
    ensures
        within(root + q, root + p) == within(q, p),
{
    let n = root.len() as int;
    if within(root + q, root + p) {
        assert(q.take(p.len() as int) == (root + q).take((root + p).len() as int).skip(n));
        assert((root + p).skip(n) == p);
    }
    if within(q, p) {
        assert((root + q).take((root + p).len() as int) == root + q.take(p.len() as int));
    }
}

/// A directory is never reported as empty while something that is not ignored lies in it or
/// anywhere under it.
pub proof fn occupied_is_never_empty(w: Walk, nodes: Seq<DirectoryNode>, a: int, k: int)
    requires
        walk_ok(w.entries),
        complete(w),
        w.is_report(nodes),
        0 <= a < nodes.len(),
        nodes[a].status == EMPTY,
        w.keeps(k),
        w.at(k).len() > 0,
    ensures
        !within(w.root.path@ + w.at(k).drop_last(), nodes[a].path@),
{
    let i = lemma_empty_node(w, nodes, a);
    let q = w.at(k).drop_last();
    lemma_within_below(w.root.path@, q, w.at(i));
    if within(q, w.at(i)) {
        assert(w.listed(q));
        let j = choose|j: int| #[trigger] w.dir(j) && w.at(j) == q;
        lemma_reaches_all(w, i, j);
        assert(w.keeps(k));
        assert(w.occupied(w.at(j)));
    }
}

/// A directory that the settings protect, or that lies deeper than the scan goes, is never
/// reported as empty, nor is any directory that it lies in.
pub proof fn protected_is_never_empty(w: Walk, nodes: Seq<DirectoryNode>, a: int, j: int)
    requires
        walk_ok(w.entries),
        complete(w),
        w.is_report(nodes),
        0 <= a < nodes.len(),
        nodes[a].status == EMPTY,
        w.dir(j),
        w.shielded(j) || w.too_deep(j),
    ensures
        !within(w.root.path@ + w.at(j), nodes[a].path@),
{
    let i = lemma_empty_node(w, nodes, a);
    lemma_within_below(w.root.path@, w.at(j), w.at(i));
    if within(w.at(j), w.at(i)) {
        lemma_reaches_all(w, i, j);
    }
}

/// No directory at or under one that is hidden, or part of the operating system, and is to be
/// skipped is ever reported as empty.
pub proof fn skipped_is_never_empty(w: Walk, nodes: Seq<DirectoryNode>, a: int, j: int)
    requires
        walk_ok(w.entries),
        w.is_report(nodes),
        0 <= a < nodes.len(),
        w.skips(j),
        within(nodes[a].path@, w.root.path@ + w.at(j)),
    ensures
        nodes[a].status != EMPTY,
{
    if nodes[a].status == EMPTY {
        let i = lemma_empty_node(w, nodes, a);
        lemma_within_below(w.root.path@, w.at(i), w.at(j));
        assert(w.skipped(w.at(i)));
        removable_when_clear(w, i);
    }
}

pub(crate) proof fn lemma_more_patterns(s: Seq<Seq<char>>, t: Seq<Seq<char>>, x: Seq<char>)
    requires
        forall|p: Seq<char>| #[trigger] s.contains(p) ==> t.contains(p),
        any_match(s, x),
    ensures
        any_match(t, x),
{
    let i = choose|i: int| 0 <= i < s.len() && #[trigger] wild_match(s[i], x);
    assert(s.contains(s[i]));
    let j = choose|j: int| 0 <= j < t.len() && t[j] == s[i];
    assert(wild_match(t[j], x));
}

proof fn lemma_more_dir_patterns(s: Seq<Seq<char>>, t: Seq<Seq<char>>)
    requires
        forall|p: Seq<char>| #[trigger] s.contains(p) ==> t.contains(p),
    ensures
        forall|p: Seq<char>| #[trigger] dir_patterns(s).contains(p) ==> dir_patterns(t).contains(p),
{
    assert forall|p: Seq<char>| #[trigger] dir_patterns(s).contains(p) implies dir_patterns(
        t,
    ).contains(p) by {
        let i = choose|i: int| 0 <= i < dir_patterns(s).len() && dir_patterns(s)[i] == p;
        assert(s.contains(s[i]));
        let j = choose|j: int| 0 <= j < t.len() && t[j] == s[i];
        assert(dir_patterns(t)[j] == p);
    }
}

proof fn lemma_looser_blocks(w: Walk, v: Walk, j: int)
    requires
        w.root == v.root,
        w.entries == v.entries,
        looser(w.settings, v.settings),
        v.dir(j),
        v.blocks(j),
    ensures
        w.blocks(j),
{
    if v.occupied(v.at(j)) {
        let k = choose|k: int|
            #[trigger] v.keeps(k) && v.at(k).len() > 0 && v.at(k).drop_last() == v.at(j);
        let name = crate::text::name_text(w.root.wide, w.entries[k].file_name@);
        if any_match(texts(w.settings.ignore_files@), name) {
            lemma_more_patterns(
                texts(w.settings.ignore_files@),
                texts(v.settings.ignore_files@),
                name,
            );
        }
        assert(w.keeps(k));
    }
    if v.shielded(j) {
        let e = v.entries[j];
        if v.skipped(v.at(j)) {
            let k = choose|k: int| #[trigger] v.skips(k) && within(v.at(j), v.at(k));
            assert(w.skips(k));
        }
        let x = crate::wild::folded(v.text(v.at(j)));
        if any_match(dir_patterns(texts(v.settings.ignore_dirs@)), x) {
            lemma_more_dir_patterns(texts(v.settings.ignore_dirs@), texts(w.settings.ignore_dirs@));
            lemma_more_patterns(
                dir_patterns(texts(v.settings.ignore_dirs@)),
                dir_patterns(texts(w.settings.ignore_dirs@)),
                x,
            );
        }
    }
}

/// Looser rules never lose an empty directory: whatever a scan reports as empty, a scan of the
/// same walk that ignores more files, counts empty files as empty, reaches deeper or protects less
/// reports as empty too.
pub proof fn looser_rules_find_no_less(
    w: Walk,
    v: Walk,
    nodes: Seq<DirectoryNode>,
    others: Seq<DirectoryNode>,
    a: int,
)
    requires
        w.root == v.root,
        w.entries == v.entries,
        looser(w.settings, v.settings),
        walk_ok(w.entries),
        w.is_report(nodes),
        v.is_report(others),
        0 <= a < nodes.len(),
        nodes[a].status == EMPTY,
    ensures
        exists|b: int|
            0 <= b < others.len() && (#[trigger] others[b]).path@ == nodes[a].path@
                && others[b].status == EMPTY,
{
    let i = lemma_empty_node(w, nodes, a);
    assert(v.dir(i));
    assert forall|j: int| #[trigger] v.reaches(i, j) implies !v.blocks(j) by {
        assert forall|n: int| w.at(i).len() <= n < w.at(j).len() implies w.listed(
            #[trigger] w.at(j).take(n),
        ) by {
            assert(v.listed(v.at(j).take(n)));
            let k = choose|k: int| #[trigger] v.dir(k) && v.at(k) == v.at(j).take(n);
            assert(w.dir(k));
        }
        assert(w.dir(i) && w.dir(j));
        assert(w.reaches(i, j));
        if v.blocks(j) {
            lemma_looser_blocks(w, v, j);
        }
    }
    every_empty_is_reported(v, others, i);
}

/// Every directory under one that is reported as empty is reported as empty too.
pub proof fn empty_subtree_is_empty(w: Walk, nodes: Seq<DirectoryNode>, a: int, j: int)
    requires
        walk_ok(w.entries),
        complete(w),
        w.is_report(nodes),
        0 <= a < nodes.len(),
        nodes[a].status == EMPTY,
        w.dir(j),
        within(w.root.path@ + w.at(j), nodes[a].path@),
    ensures
        exists|b: int|
            0 <= b < nodes.len() && (#[trigger] nodes[b]).path@ == w.root.path@ + w.at(j)
                && nodes[b].status == EMPTY,
{
    let i = lemma_empty_node(w, nodes, a);
    let r = w.root.path@;
    lemma_within_below(r, w.at(j), w.at(i));
    assert forall|k: int| #[trigger] w.reaches(j, k) implies !w.blocks(k) by {
        let n = w.at(i).len() as int;
        assert(w.at(k).take(n) == w.at(k).take(w.at(j).len() as int).take(n));
        lemma_reaches_all(w, i, k);
    }
    every_empty_is_reported(w, nodes, j);
}

/// Every directory under the root that counts as empty is reported as empty.
pub proof fn every_empty_is_reported(w: Walk, nodes: Seq<DirectoryNode>, j: int)
    requires
        walk_ok(w.entries),
        w.is_report(nodes),
        w.dir(j),
        w.at(j).len() > 0,
        w.removable(j),
    ensures
        exists|b: int|
            0 <= b < nodes.len() && (#[trigger] nodes[b]).path@ == w.root.path@ + w.at(j)
                && nodes[b].status == EMPTY,
{
    let d = w.at(j);
    removable_when_clear(w, j);
    assert(w.empties(j, d));
    let b = lemma_reported_node(w, nodes, j);
}

/// Every directory under the root, within reach of the scan, that holds nothing that has to stay
/// and is protected is reported as protected.
pub proof fn every_protected_is_reported(w: Walk, nodes: Seq<DirectoryNode>, j: int)
    requires
        walk_ok(w.entries),
        w.is_report(nodes),
        w.dir(j),
        w.at(j).len() > 0,
        !w.too_deep(j),
        w.clear(j),
        w.shielded(j),
    ensures
        exists|b: int|
            0 <= b < nodes.len() && (#[trigger] nodes[b]).path@ == w.root.path@ + w.at(j)
                && nodes[b].status == PROTECTED,
{
    let d = w.at(j);
    assert(w.shields(j, d));
    assert forall|i: int| !#[trigger] w.empties(i, d) by {
        if w.empties(i, d) && i != j {
            assert(w.entries[i].is_dir && w.entries[j].is_dir);
        }
    }
    let b = lemma_reported_node(w, nodes, j);
}

/// The node of a directory that is reported.
proof fn lemma_reported_node(w: Walk, nodes: Seq<DirectoryNode>, j: int) -> (b: int)
    requires
        w.is_report(nodes),
        w.reported(j),
    ensures
        0 <= b < nodes.len(),
        nodes[b].path@ == w.root.path@ + w.at(j),
        nodes[b].status == w.status(w.at(j)),
{
    let r = w.root.path@;
    let d = w.at(j);
    assert(d.take(d.len() as int) == d);
    assert(w.shows(j, d));
    assert(w.shown(d));
    let b = choose|b: int| 0 <= b < nodes.len() && (#[trigger] nodes[b]).path@ == r + d;
    assert((r + d).skip(r.len() as int) == d);
    assert(w.describes(d, nodes[b]));
    b
}

/// The report holds, with every directory, the directories that lead to it from the root.
pub proof fn report_is_a_tree(w: Walk, nodes: Seq<DirectoryNode>, a: int, d: Names)
    requires
        w.is_report(nodes),
        0 <= a < nodes.len(),
        within(nodes[a].path@, w.root.path@ + d),
    ensures
        exists|b: int| 0 <= b < nodes.len() && (#[trigger] nodes[b]).path@ == w.root.path@ + d,
{
    let r = w.root.path@;
    let e = nodes[a].path@.skip(r.len() as int);
    assert(w.shown(e));
    assert(nodes[a].path@ == r + e);
    lemma_within_below(r, e, d);
    let i = choose|i: int| #[trigger] w.shows(i, e);
    assert(w.at(i).take(d.len() as int) == w.at(i).take(e.len() as int).take(d.len() as int));
    assert(w.shows(i, d));
    assert(w.shown(d));
}

/// The root itself is never reported as empty or as protected.
pub proof fn root_is_never_reported(w: Walk, nodes: Seq<DirectoryNode>, a: int)
    requires
        w.is_report(nodes),
        0 <= a < nodes.len(),
        nodes[a].path@ == w.root.path@,
    ensures
        nodes[a].status != EMPTY,
        nodes[a].status != PROTECTED,
        nodes[a].depth == 0,
{
    let r = w.root.path@;
    assert(r.skip(r.len() as int).len() == 0);
}

/// A walk with the same entries in another order, scanned by the same rules, has the same report.
pub proof fn report_ignores_order(w: Walk, v: Walk, nodes: Seq<DirectoryNode>)
    requires
        w.root == v.root,
        same_rules(w.settings, v.settings),
        forall|e: crate::scanner::WalkEntry| #[trigger]
            w.entries.contains(e) == v.entries.contains(e),
        walk_ok(w.entries),
        walk_ok(v.entries),
        w.is_report(nodes),
    ensures
        v.is_report(nodes),
{
    assert forall|d: Names| w.shown(d) == v.shown(d) by {
        lemma_same_shown(w, v, d);
        lemma_same_shown(v, w, d);
    }
    assert forall|d: Names, node: DirectoryNode| w.describes(d, node) == v.describes(d, node) by {
        lemma_same_marks(w, v, d);
        lemma_same_marks(v, w, d);
    }
    assert forall|a: int| 0 <= a < nodes.len() implies {
        let d = (#[trigger] nodes[a]).path@.skip(v.root.path@.len() as int);
        &&& v.shown(d)
        &&& v.describes(d, nodes[a])
        &&& nodes[a].has_children == opens_subtree(nodes, a)
        &&& nodes[a].is_last_sibling == ends_level(nodes, a)
    } by {
        let d = nodes[a].path@.skip(v.root.path@.len() as int);
        assert(w.shown(d) == v.shown(d));
        assert(w.describes(d, nodes[a]) == v.describes(d, nodes[a]));
    }
    assert forall|d: Names| #[trigger] v.shown(d) implies exists|a: int|
        0 <= a < nodes.len() && (#[trigger] nodes[a]).path@ == v.root.path@ + d by {
        assert(w.shown(d) == v.shown(d));
    }
}

/// Whether two walks of one root, scanned by the same rules, met the same.
spec fn same_entries(w: Walk, v: Walk) -> bool {
    &&& w.root == v.root
    &&& same_rules(w.settings, v.settings)
    &&& forall|e: crate::scanner::WalkEntry| #[trigger]
        w.entries.contains(e) == v.entries.contains(e)
}

proof fn lemma_twin(w: Walk, v: Walk, i: int) -> (j: int)
    requires
        same_entries(w, v),
        0 <= i < w.entries.len(),
    ensures
        0 <= j < v.entries.len(),
        v.entries[j] == w.entries[i],
{
    assert(w.entries.contains(w.entries[i]));
    let j = choose|j: int| 0 <= j < v.entries.len() && v.entries[j] == w.entries[i];
    j
}

proof fn lemma_same_occupied(w: Walk, v: Walk, d: Names)
    requires
        same_entries(w, v),
        w.occupied(d),
    ensures
        v.occupied(d),
{
    let i = choose|i: int|
        #[trigger] w.keeps(i) && w.at(i).len() > 0 && w.at(i).drop_last() == d;
    let j = lemma_twin(w, v, i);
    assert(v.keeps(j));
}

proof fn lemma_same_listed(w: Walk, v: Walk, d: Names)
    requires
        same_entries(w, v),
        w.listed(d),
    ensures
        v.listed(d),
{
    let i = choose|i: int| #[trigger] w.dir(i) && w.at(i) == d;
    let j = lemma_twin(w, v, i);
    assert(v.dir(j));
}

proof fn lemma_same_skipped(w: Walk, v: Walk, d: Names)
    requires
        same_entries(w, v),
        w.skipped(d),
    ensures
        v.skipped(d),
{
    let i = choose|i: int| #[trigger] w.skips(i) && within(d, w.at(i));
    let j = lemma_twin(w, v, i);
    assert(v.skips(j));
}

proof fn lemma_same_shielded(w: Walk, v: Walk, i: int, x: int)
    requires
        same_entries(w, v),
        0 <= i < w.entries.len(),
        0 <= x < v.entries.len(),
        v.entries[x] == w.entries[i],
    ensures
        v.shielded(x) == w.shielded(i),
{
    if w.skipped(w.at(i)) {
        lemma_same_skipped(w, v, w.at(i));
    }
    if v.skipped(v.at(x)) {
        lemma_same_skipped(v, w, v.at(x));
    }
}

proof fn lemma_same_clear(w: Walk, v: Walk, i: int, x: int)
    requires
        same_entries(w, v),
        w.dir(i),
        0 <= x < v.entries.len(),
        v.entries[x] == w.entries[i],
        w.clear(i),
    ensures
        v.clear(x),
{
    if v.occupied(v.at(x)) {
        lemma_same_occupied(v, w, v.at(x));
    }
    assert forall|y: int| #[trigger] v.reaches(x, y) && v.at(y) != v.at(x) implies !v.blocks(y) by {
        let j = lemma_twin(v, w, y);
        assert forall|n: int| w.at(i).len() <= n < w.at(j).len() implies w.listed(
            #[trigger] w.at(j).take(n),
        ) by {
            assert(v.listed(v.at(y).take(n)));
            lemma_same_listed(v, w, v.at(y).take(n));
        }
        assert(w.reaches(i, j));
        if v.occupied(v.at(y)) {
            lemma_same_occupied(v, w, v.at(y));
        }
        lemma_same_shielded(v, w, y, j);
    }
}

proof fn lemma_same_shown(w: Walk, v: Walk, d: Names)
    requires
        same_entries(w, v),
    ensures
        w.shown(d) ==> v.shown(d),
{
    if w.shown(d) {
        let i = choose|i: int| #[trigger] w.shows(i, d);
        let x = lemma_twin(w, v, i);
        lemma_same_clear(w, v, i, x);
        assert(v.shows(x, d));
    }
}

proof fn lemma_same_marks(w: Walk, v: Walk, d: Names)
    requires
        same_entries(w, v),
    ensures
        (exists|i: int| #[trigger] w.empties(i, d)) ==> (exists|i: int| #[trigger] v.empties(i, d)),
        (exists|i: int| #[trigger] w.shields(i, d)) ==> (exists|i: int| #[trigger] v.shields(i, d)),
        (exists|i: int| #[trigger] w.hides(i, d)) ==> (exists|i: int| #[trigger] v.hides(i, d)),
        (exists|i: int| #[trigger] w.links(i, d)) ==> (exists|i: int| #[trigger] v.links(i, d)),
{
    if exists|i: int| #[trigger] w.empties(i, d) {
        let i = choose|i: int| #[trigger] w.empties(i, d);
        let x = lemma_twin(w, v, i);
        lemma_same_clear(w, v, i, x);
        lemma_same_shielded(w, v, i, x);
        assert(v.empties(x, d));
    }
    if exists|i: int| #[trigger] w.shields(i, d) {
        let i = choose|i: int| #[trigger] w.shields(i, d);
        let x = lemma_twin(w, v, i);
        lemma_same_clear(w, v, i, x);
        lemma_same_shielded(w, v, i, x);
        assert(v.shields(x, d));
    }
    if exists|i: int| #[trigger] w.hides(i, d) {
        let i = choose|i: int| #[trigger] w.hides(i, d);
        let x = lemma_twin(w, v, i);
        assert(v.hides(x, d));
    }
    if exists|i: int| #[trigger] w.links(i, d) {
        let i = choose|i: int| #[trigger] w.links(i, d);
        let x = lemma_twin(w, v, i);
        assert(v.links(x, d));
    }
}

/// The paths of a list of nodes.
spec fn node_paths(nodes: Seq<DirectoryNode>) -> Seq<Names> {
    nodes.map_values(|n: DirectoryNode| n.path@)
}

/// Whether `paths` is in path order, without repetition.
spec fn increasing(paths: Seq<Names>) -> bool {
    forall|a: int, b: int|
        0 <= a < b < paths.len() ==> path_before(#[trigger] paths[a], #[trigger] paths[b])
}

proof fn lemma_increasing_agree(x: Seq<Names>, y: Seq<Names>, k: int)
    requires
        increasing(x),
        increasing(y),
        forall|d: Names| #[trigger] x.contains(d) == y.contains(d),
        0 <= k <= x.len(),
    ensures
        k <= y.len(),
        forall|i: int| 0 <= i < k ==> x[i] == y[i],
    decreases k,
{
    if k > 0 {
        let i = k - 1;
        lemma_increasing_agree(x, y, i);
        assert(x.contains(x[i]));
        assert(y.contains(x[i]));
        let m = choose|m: int| 0 <= m < y.len() && y[m] == x[i];
        if m < i {
            assert(x[m] == y[m]);
            assert(path_before(x[m], x[i]));
            path_order_is_total(x[i], x[i]);
        }
        assert(y.contains(y[i]));
        assert(x.contains(y[i]));
        let n = choose|n: int| 0 <= n < x.len() && x[n] == y[i];
        if n < i {
            assert(x[n] == y[n]);
            assert(path_before(y[n], y[i]));
            path_order_is_total(y[i], y[i]);
        }
        if x[i] != y[i] {
            assert(path_before(y[i], y[m]));
            assert(path_before(x[i], x[n]));
            path_order_is_total(x[i], y[i]);
        }
    }
}

/// A scan has one report: two reports of the same walk show the same, node by node.
pub proof fn report_is_unique(w: Walk, x: Seq<DirectoryNode>, y: Seq<DirectoryNode>)
    requires
        w.is_report(x),
        w.is_report(y),
    ensures
        x.len() == y.len(),
        forall|a: int|
            0 <= a < x.len() ==> {
                &&& (#[trigger] x[a]).path@ == y[a].path@
                &&& x[a].name@ == y[a].name@
                &&& x[a].path_str@ == y[a].path_str@
                &&& x[a].depth == y[a].depth
                &&& x[a].status == y[a].status
                &&& x[a].has_children == y[a].has_children
                &&& x[a].is_expanded == y[a].is_expanded
                &&& x[a].is_last_sibling == y[a].is_last_sibling
                &&& x[a].is_hidden == y[a].is_hidden
                &&& x[a].is_symlink == y[a].is_symlink
            },
{
    let p = node_paths(x);
    let q = node_paths(y);
    lemma_same_paths(w, x, y);
    lemma_same_paths(w, y, x);
    lemma_increasing_agree(p, q, p.len() as int);
    lemma_increasing_agree(q, p, q.len() as int);
    assert forall|a: int| 0 <= a < x.len() implies (#[trigger] x[a]).path@ == y[a].path@
        && x[a].depth == y[a].depth by {
        assert(p[a] == q[a]);
    }
    assert forall|a: int| 0 <= a < x.len() implies {
        &&& (#[trigger] x[a]).has_children == y[a].has_children
        &&& x[a].is_last_sibling == y[a].is_last_sibling
    } by {
        crate::tree::flags_by_depths(x, y, a);
    }
}

proof fn lemma_same_paths(w: Walk, x: Seq<DirectoryNode>, y: Seq<DirectoryNode>)
    requires
        w.is_report(x),
        w.is_report(y),
    ensures
        forall|d: Names| node_paths(x).contains(d) ==> #[trigger] node_paths(y).contains(d),
{
    let p = node_paths(x);
    let q = node_paths(y);
    assert forall|d: Names| p.contains(d) implies #[trigger] q.contains(d) by {
        let a = choose|a: int| 0 <= a < p.len() && p[a] == d;
        assert(x[a].path@ == d);
        let e = d.skip(w.root.path@.len() as int);
        assert(w.shown(e));
        let b = choose|b: int| 0 <= b < y.len() && (#[trigger] y[b]).path@ == w.root.path@ + e;
        assert(q[b] == d);
    }
}

/// Whether a list of nodes is a tree in path order: each path once, with the path that it lies in,
/// at the depth of the path below the root.
spec fn tree_shape(root: Names, nodes: Seq<DirectoryNode>) -> bool {
    &&& forall|a: int, b: int|
        0 <= a < b < nodes.len() ==> path_before(
            #[trigger] nodes[a].path@,
            #[trigger] nodes[b].path@,
        )
    &&& forall|a: int|
        0 <= a < nodes.len() ==> (#[trigger] nodes[a]).depth == nodes[a].path@.len() - root.len()
    &&& forall|a: int|
        0 <= a < nodes.len() && (#[trigger] nodes[a]).depth > 0 ==> exists|q: int|
            0 <= q < nodes.len() && (#[trigger] nodes[q]).path@ == nodes[a].path@.drop_last()
}

proof fn lemma_report_shape(w: Walk, nodes: Seq<DirectoryNode>)
    requires
        w.is_report(nodes),
    ensures
        tree_shape(w.root.path@, nodes),
{
    assert forall|a: int| 0 <= a < nodes.len() implies (#[trigger] nodes[a]).depth
        == nodes[a].path@.len() - w.root.path@.len() by {
        lemma_report_depth(w, nodes, a);
    }
    assert forall|a: int| 0 <= a < nodes.len() && (#[trigger] nodes[a]).depth > 0 implies exists|
        q: int,
    |
        0 <= q < nodes.len() && (#[trigger] nodes[q]).path@ == nodes[a].path@.drop_last() by {
        lemma_report_parent(w, nodes, a);
    }
}

proof fn lemma_report_depth(w: Walk, nodes: Seq<DirectoryNode>, a: int)
    requires
        w.is_report(nodes),
        0 <= a < nodes.len(),
    ensures
        nodes[a].path@ == w.root.path@ + nodes[a].path@.skip(w.root.path@.len() as int),
        nodes[a].depth == nodes[a].path@.len() - w.root.path@.len(),
{
    assert(w.describes(nodes[a].path@.skip(w.root.path@.len() as int), nodes[a]));
}

proof fn lemma_directory_of(r: Names, p: Names)
    requires
        p == r + p.skip(r.len() as int),
        p.len() > r.len(),
    ensures
        p.drop_last() == r + p.skip(r.len() as int).drop_last(),
        within(p, p.drop_last()),
{
    assert(p.take(p.len() - 1) == p.drop_last());
}

#[verifier::spinoff_prover]
proof fn lemma_report_parent(w: Walk, nodes: Seq<DirectoryNode>, a: int)
    requires
        w.is_report(nodes),
        0 <= a < nodes.len(),
        nodes[a].depth > 0,
    ensures
        exists|q: int|
            0 <= q < nodes.len() && (#[trigger] nodes[q]).path@ == nodes[a].path@.drop_last(),
{
    lemma_report_depth(w, nodes, a);
    lemma_directory_of(w.root.path@, nodes[a].path@);
    report_is_a_tree(w, nodes, a, nodes[a].path@.skip(w.root.path@.len() as int).drop_last());
}

proof fn lemma_parent_node(root: Names, nodes: Seq<DirectoryNode>, a: int) -> (q: int)
    requires
        tree_shape(root, nodes),
        0 <= a < nodes.len(),
        nodes[a].depth > 0,
    ensures
        0 <= q < a,
        nodes[a].path@.len() > 0,
        nodes[q].path@ == nodes[a].path@.drop_last(),
        nodes[q].depth == nodes[a].depth - 1,
        within(nodes[a].path@, nodes[q].path@),
{
    let p = nodes[a].path@;
    let q = choose|q: int|
        0 <= q < nodes.len() && (#[trigger] nodes[q]).path@ == nodes[a].path@.drop_last();
    assert(p.take(p.len() - 1) == p.drop_last());
    lemma_before_below(root, nodes, q, a);
    q
}

/// A directory stands before the directories under it.
proof fn lemma_before_below(root: Names, nodes: Seq<DirectoryNode>, q: int, a: int)
    requires
        tree_shape(root, nodes),
        0 <= q < nodes.len(),
        0 <= a < nodes.len(),
        within(nodes[a].path@, nodes[q].path@),
        nodes[a].path@ != nodes[q].path@,
    ensures
        q < a,
{
    path_before_descendant(nodes[q].path@, nodes[a].path@);
    if a < q {
        path_order_is_total(nodes[a].path@, nodes[q].path@);
    }
}

/// What stands between a directory and a directory under it is under it, and deeper.
proof fn lemma_between(root: Names, nodes: Seq<DirectoryNode>, q: int, k: int, a: int)
    requires
        tree_shape(root, nodes),
        0 <= q < k <= a < nodes.len(),
        within(nodes[a].path@, nodes[q].path@),
    ensures
        within(nodes[k].path@, nodes[q].path@),
        nodes[k].depth > nodes[q].depth,
{
    let pq = nodes[q].path@;
    let pk = nodes[k].path@;
    subtree_is_interval(pq, pk, nodes[a].path@);
    path_order_is_total(pq, pk);
    if pk.len() == pq.len() {
        assert(pk.take(pk.len() as int) == pk);
    }
    assert(nodes[k].depth == pk.len() - root.len());
    assert(nodes[q].depth == pq.len() - root.len());
}

/// In a report a node is marked as having children exactly where the report holds a directory
/// that lies directly in it.
pub proof fn children_flag_is_right(w: Walk, nodes: Seq<DirectoryNode>, a: int)
    requires
        w.is_report(nodes),
        0 <= a < nodes.len(),
    ensures
        nodes[a].has_children == exists|b: int|
            0 <= b < nodes.len() && (#[trigger] nodes[b]).path@.len() > 0
                && nodes[b].path@.drop_last() == nodes[a].path@,
{
    lemma_report_shape(w, nodes);
    assert(nodes[a].has_children == opens_subtree(nodes, a));
    assert(w.describes(nodes[a].path@.skip(w.root.path@.len() as int), nodes[a]));
    lemma_children(w.root.path@, nodes, a);
}

proof fn lemma_children(root: Names, nodes: Seq<DirectoryNode>, a: int)
    requires
        tree_shape(root, nodes),
        0 <= a < nodes.len(),
        nodes[a].depth >= 0,
    ensures
        opens_subtree(nodes, a) == exists|b: int|
            0 <= b < nodes.len() && (#[trigger] nodes[b]).path@.len() > 0
                && nodes[b].path@.drop_last() == nodes[a].path@,
{
    if opens_subtree(nodes, a) {
        let b = a + 1;
        let q = lemma_parent_node(root, nodes, b);
        if q < a {
            lemma_between(root, nodes, q, a, b);
        }
        assert(nodes[b].path@.len() > 0 && nodes[b].path@.drop_last() == nodes[a].path@);
    }
    if exists|b: int|
        0 <= b < nodes.len() && (#[trigger] nodes[b]).path@.len() > 0 && nodes[b].path@.drop_last()
            == nodes[a].path@ {
        let b = choose|b: int|
            0 <= b < nodes.len() && (#[trigger] nodes[b]).path@.len() > 0
                && nodes[b].path@.drop_last() == nodes[a].path@;
        let p = nodes[b].path@;
        assert(p.take(p.len() - 1) == p.drop_last());
        lemma_before_below(root, nodes, a, b);
        lemma_between(root, nodes, a, a + 1, b);
    }
}

/// In a report a node below the root is marked as a last sibling exactly where no later node lies
/// directly in the same directory.
pub proof fn last_sibling_flag_is_right(w: Walk, nodes: Seq<DirectoryNode>, a: int)
    requires
        w.is_report(nodes),
        0 <= a < nodes.len(),
        nodes[a].depth > 0,
    ensures
        nodes[a].is_last_sibling == !exists|b: int|
            a < b < nodes.len() && (#[trigger] nodes[b]).path@.len() > 0
                && nodes[b].path@.drop_last() == nodes[a].path@.drop_last(),
{
    lemma_report_shape(w, nodes);
    assert(nodes[a].is_last_sibling == ends_level(nodes, a));
    lemma_later_sibling(w.root.path@, nodes, a);
    lemma_level_sibling(w.root.path@, nodes, a);
}

/// A later node in the same directory follows a node at its level.
proof fn lemma_later_sibling(root: Names, nodes: Seq<DirectoryNode>, a: int)
    requires
        tree_shape(root, nodes),
        0 <= a < nodes.len(),
        nodes[a].depth > 0,
    ensures
        forall|b: int|
            a < b < nodes.len() && (#[trigger] nodes[b]).path@.len() > 0
                && nodes[b].path@.drop_last() == nodes[a].path@.drop_last() ==> follows_level(
                nodes,
                a,
                b,
            ),
{
    let q = lemma_parent_node(root, nodes, a);
    assert forall|b: int|
        a < b < nodes.len() && (#[trigger] nodes[b]).path@.len() > 0 && nodes[b].path@.drop_last()
            == nodes[a].path@.drop_last() implies follows_level(nodes, a, b) by {
        let pb = nodes[b].path@;
        assert(pb.take(pb.len() - 1) == pb.drop_last());
        assert forall|k: int| a < k < b implies #[trigger] nodes[k].depth >= nodes[a].depth by {
            lemma_between(root, nodes, q, k, b);
        }
    }
}

/// A node that follows another at its level lies in the same directory.
proof fn lemma_level_sibling(root: Names, nodes: Seq<DirectoryNode>, a: int)
    requires
        tree_shape(root, nodes),
        0 <= a < nodes.len(),
        nodes[a].depth > 0,
    ensures
        forall|j: int| #[trigger]
            follows_level(nodes, a, j) ==> nodes[j].path@.len() > 0 && nodes[j].path@.drop_last()
                == nodes[a].path@.drop_last(),
{
    let pa = nodes[a].path@;
    assert forall|j: int| #[trigger] follows_level(nodes, a, j) implies nodes[j].path@.len() > 0
        && nodes[j].path@.drop_last() == pa.drop_last() by {
        let s = lemma_parent_node(root, nodes, j);
        if s > a {
            assert(nodes[s].depth >= nodes[a].depth);
        }
        lemma_between(root, nodes, s, a, j);
        assert(nodes[a].depth == pa.len() - root.len());
        assert(nodes[s].depth == nodes[s].path@.len() - root.len());
        assert(pa.take(pa.len() - 1) == pa.drop_last());
    }
}

/// A report begins at the root, and no row is deeper than the row before it by more than one.
#[verifier::spinoff_prover]
pub proof fn report_has_no_gaps(w: Walk, nodes: Seq<DirectoryNode>)
    requires
        w.is_report(nodes),
    ensures
        no_gaps(nodes),
{
    lemma_report_shape(w, nodes);
    lemma_report_depths(w, nodes);
    lemma_no_gaps(w.root.path@, nodes);
}

proof fn lemma_report_depths(w: Walk, nodes: Seq<DirectoryNode>)
    requires
        w.is_report(nodes),
    ensures
        forall|k: int| 0 <= k < nodes.len() ==> (#[trigger] nodes[k]).depth >= 0,
{
    assert forall|k: int| 0 <= k < nodes.len() implies (#[trigger] nodes[k]).depth >= 0 by {
        lemma_report_depth(w, nodes, k);
    }
}

proof fn lemma_no_gaps(root: Names, nodes: Seq<DirectoryNode>)
    requires
        tree_shape(root, nodes),
        forall|k: int| 0 <= k < nodes.len() ==> (#[trigger] nodes[k]).depth >= 0,
    ensures
        no_gaps(nodes),
{
    if nodes.len() > 0 && nodes[0].depth > 0 {
        let q = lemma_parent_node(root, nodes, 0);
    }
    assert forall|k: int| 0 < k < nodes.len() implies (#[trigger] nodes[k]).depth
        <= nodes[k - 1].depth + 1 && nodes[k].depth >= 0 by {
        if nodes[k].depth > 0 {
            let q = lemma_parent_node(root, nodes, k);
            if q < k - 1 {
                lemma_between(root, nodes, q, k - 1, k);
            }
        }
    }
}

} // verus!

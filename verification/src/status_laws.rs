//! What decides the status of a directory in the report of a walk, by what the walk met and the
//! settings say.

use crate::path::{path_before, Names};
use crate::scan_laws::{
    complete, every_empty_is_reported, occupied_is_never_empty, protected_is_never_empty,
};
use crate::scanner::{
    clear_by_children, error_lines, hidden_attribute, path_bytes, removable_when_clear,
    system_attribute, too_young, walk_ok, Walk, WalkEntry,
};
use crate::text::{decimal, name_text, texts};
use crate::tree::{DirectoryNode, EMPTY, NORMAL, PROTECTED};
use crate::wild::{any_match, dir_patterns, folded, wild_match};
use vstd::prelude::*;

verus! {

/// The status of the node of a directory.
proof fn lemma_status(w: Walk, nodes: Seq<DirectoryNode>, a: int, j: int)
    requires
        walk_ok(w.entries),
        w.is_report(nodes),
        0 <= a < nodes.len(),
        w.dir(j),
        nodes[a].path@ == w.root.path@ + w.at(j),
    ensures
        nodes[a].status == if !w.reported(j) {
            NORMAL
        } else if w.shielded(j) {
            PROTECTED
        } else {
            EMPTY
        },
        w.describes(w.at(j), nodes[a]),
{
    let r = w.root.path@;
    let d = w.at(j);
    assert((r + d).skip(r.len() as int) == d);
    assert(w.describes(d, nodes[a]));
    assert forall|i: int| (#[trigger] w.empties(i, d) || w.shields(i, d)) implies i == j by {
        assert(w.entries[i].is_dir && w.entries[j].is_dir);
    }
    if w.reported(j) {
        if w.shielded(j) {
            assert(w.shields(j, d));
        } else {
            assert(w.empties(j, d));
        }
    } else {
        assert forall|i: int| !#[trigger] w.shields(i, d) by {
            if w.shields(i, d) {
                assert(w.empties(i, d) || w.shields(i, d));
            }
        }
    }
    assert forall|i: int| #[trigger] w.shields(i, d) implies i == j by {
        assert(w.entries[i].is_dir && w.entries[j].is_dir);
    }
}

/// The node of a directory that is reported.
proof fn lemma_node(w: Walk, nodes: Seq<DirectoryNode>, j: int) -> (b: int)
    requires
        w.is_report(nodes),
        w.reported(j),
    ensures
        0 <= b < nodes.len(),
        nodes[b].path@ == w.root.path@ + w.at(j),
{
    let d = w.at(j);
    assert(d.take(d.len() as int) == d);
    assert(w.shows(j, d));
    assert(w.shown(d));
    let b = choose|b: int|
        0 <= b < nodes.len() && (#[trigger] nodes[b]).path@ == w.root.path@ + d;
    b
}

/// The settings protect a directory for one of these reasons and for no other: its path matches a
/// listed directory; it, or a directory below the root that it lies in, is hidden or part of the
/// operating system while such directories are skipped; or it is younger than the given hours.
proof fn lemma_reasons(w: Walk, j: int)
    requires
        w.dir(j),
    ensures
        w.shielded(j) == ({
            ||| any_match(
                dir_patterns(texts(w.settings.ignore_dirs@)),
                folded(w.text(w.entries[j].path@)),
            )
            ||| exists|m: int|
                0 <= m < w.entries.len() && (#[trigger] w.entries[m]).is_dir
                    && w.entries[m].path@.len() > 0 && w.entries[m].path@.is_prefix_of(
                    w.entries[j].path@,
                ) && ((w.settings.ignore_hidden && (w.entries[m].marked_hidden || (name_text(
                    w.root.wide,
                    w.entries[m].file_name@,
                ).len() > 0 && name_text(w.root.wide, w.entries[m].file_name@)[0] == '.'))) || (
                w.settings.keep_system && w.entries[m].is_system))
            ||| w.settings.ignore_hidden && (w.entries[j].marked_hidden || (name_text(
                w.root.wide,
                w.entries[j].file_name@,
            ).len() > 0 && name_text(w.root.wide, w.entries[j].file_name@)[0] == '.'))
            ||| w.settings.keep_system && w.entries[j].is_system
            ||| w.settings.min_age_hours > 0 && (w.entries[j].age_secs matches Some(s) && s
                < w.settings.min_age_hours * 3600)
        }),
{
    if w.skipped(w.at(j)) {
        let m = choose|m: int| #[trigger]
            w.skips(m) && crate::path::within(w.at(j), w.at(m));
        assert(w.entries[m].path@.is_prefix_of(w.entries[j].path@)) by {
            assert(w.at(m) =~= w.at(j).subrange(0, w.at(m).len() as int));
        }
    }
    if exists|m: int|
        0 <= m < w.entries.len() && (#[trigger] w.entries[m]).is_dir && w.entries[m].path@.len() > 0
            && w.entries[m].path@.is_prefix_of(w.entries[j].path@) && ((w.settings.ignore_hidden
            && (w.entries[m].marked_hidden || (name_text(
            w.root.wide,
            w.entries[m].file_name@,
        ).len() > 0 && name_text(w.root.wide, w.entries[m].file_name@)[0] == '.'))) || (
        w.settings.keep_system && w.entries[m].is_system)) {
        let m = choose|m: int|
            0 <= m < w.entries.len() && (#[trigger] w.entries[m]).is_dir
                && w.entries[m].path@.len() > 0 && w.entries[m].path@.is_prefix_of(
                w.entries[j].path@,
            ) && ((w.settings.ignore_hidden && (w.entries[m].marked_hidden || (name_text(
                w.root.wide,
                w.entries[m].file_name@,
            ).len() > 0 && name_text(w.root.wide, w.entries[m].file_name@)[0] == '.'))) || (
            w.settings.keep_system && w.entries[m].is_system));
        assert(w.skips(m));
        assert(w.at(j).take(w.at(m).len() as int) =~= w.at(m));
        assert(w.skipped(w.at(j)));
    }
}

/// A directory that holds nothing that counts, and lies within reach of the scan, is reported. It
/// is reported as protected if its path matches a listed directory, if it or a directory below the
/// root that it lies in is hidden or part of the operating system and such are skipped, or if it is
/// younger than the given hours, and else as empty. What does not count is a directory that is
/// itself reported as empty, anything else with an ignored name, and an empty file where such do
/// not count.
pub proof fn nothing_in_it_makes_it_empty(w: Walk, nodes: Seq<DirectoryNode>, j: int)
    requires
        walk_ok(w.entries),
        w.is_report(nodes),
        0 <= j < w.entries.len(),
        w.entries[j].is_dir,
        w.entries[j].path@.len() > 0,
        w.settings.max_depth < 0 || w.entries[j].path@.len() <= w.settings.max_depth,
        forall|k: int|
            0 <= k < w.entries.len() && (#[trigger] w.entries[k]).path@.len() > 0
                && w.entries[k].path@.drop_last() == w.entries[j].path@ ==> {
                if w.entries[k].is_dir {
                    exists|b: int|
                        0 <= b < nodes.len() && (#[trigger] nodes[b]).path@ == w.root.path@
                            + w.entries[k].path@ && nodes[b].status == EMPTY
                } else {
                    ||| exists|p: int|
                        0 <= p < w.settings.ignore_files@.len() && wild_match(
                            (#[trigger] w.settings.ignore_files@[p])@,
                            name_text(w.root.wide, w.entries[k].file_name@),
                        )
                    ||| w.entries[k].is_file && w.settings.consider_empty_files_empty
                        && w.entries[k].size == Some(0u64)
                }
            },
    ensures
        exists|b: int|
            0 <= b < nodes.len() && (#[trigger] nodes[b]).path@ == w.root.path@
                + w.entries[j].path@ && nodes[b].status == (if {
                ||| any_match(
                    dir_patterns(texts(w.settings.ignore_dirs@)),
                    folded(w.text(w.entries[j].path@)),
                )
                ||| exists|m: int|
                    0 <= m < w.entries.len() && (#[trigger] w.entries[m]).is_dir
                        && w.entries[m].path@.len() > 0 && w.entries[m].path@.is_prefix_of(
                        w.entries[j].path@,
                    ) && ((w.settings.ignore_hidden && (w.entries[m].marked_hidden || (name_text(
                        w.root.wide,
                        w.entries[m].file_name@,
                    ).len() > 0 && name_text(w.root.wide, w.entries[m].file_name@)[0] == '.'))) || (
                    w.settings.keep_system && w.entries[m].is_system))
                ||| w.settings.min_age_hours > 0 && (w.entries[j].age_secs matches Some(s) && s
                    < w.settings.min_age_hours * 3600)
            } {
                PROTECTED
            } else {
                EMPTY
            }),
{
    let r = w.root.path@;
    let d = w.at(j);
    assert(w.dir(j));
    assert(!w.occupied(d)) by {
        if w.occupied(d) {
            let k = choose|k: int|
                #[trigger] w.keeps(k) && w.at(k).len() > 0 && w.at(k).drop_last() == d;
            let name = name_text(w.root.wide, w.entries[k].file_name@);
            assert(w.entries[k].path@.len() > 0);
            if exists|p: int|
                0 <= p < w.settings.ignore_files@.len() && wild_match(
                    (#[trigger] w.settings.ignore_files@[p])@,
                    name,
                ) {
                let p = choose|p: int|
                    0 <= p < w.settings.ignore_files@.len() && wild_match(
                        (#[trigger] w.settings.ignore_files@[p])@,
                        name,
                    );
                assert(wild_match(texts(w.settings.ignore_files@)[p], name));
            }
        }
    }
    assert forall|k: int|
        #[trigger] w.dir(k) && w.at(k).len() > 0 && w.at(k).drop_last() == d implies w.removable(
        k,
    ) by {
        assert(w.entries[k].path@.len() > 0);
        let b = choose|b: int|
            0 <= b < nodes.len() && (#[trigger] nodes[b]).path@ == r + w.entries[k].path@
                && nodes[b].status == EMPTY;
        lemma_status(w, nodes, b, k);
        removable_when_clear(w, k);
    }
    clear_by_children(w, j);
    assert(w.reported(j));
    let b = lemma_node(w, nodes, j);
    lemma_status(w, nodes, b, j);
    lemma_reasons(w, j);
    assert(w.entries[j].path@.is_prefix_of(w.entries[j].path@)) by {
        assert(d =~= d.subrange(0, d.len() as int));
    }
    assert(w.entries[j].is_dir);
}

/// A directory with something in it that counts is reported neither as empty nor as protected: a
/// directory that is not itself reported as empty, or anything else without an ignored name that is
/// not an empty file that does not count.
pub proof fn something_in_it_keeps_it(
    w: Walk,
    nodes: Seq<DirectoryNode>,
    a: int,
    j: int,
    k: int,
)
    requires
        walk_ok(w.entries),
        w.is_report(nodes),
        0 <= j < w.entries.len(),
        w.entries[j].is_dir,
        0 <= a < nodes.len(),
        nodes[a].path@ == w.root.path@ + w.entries[j].path@,
        0 <= k < w.entries.len(),
        w.entries[k].path@.len() > 0,
        w.entries[k].path@.drop_last() == w.entries[j].path@,
        if w.entries[k].is_dir {
            forall|b: int|
                0 <= b < nodes.len() && (#[trigger] nodes[b]).path@ == w.root.path@
                    + w.entries[k].path@ ==> nodes[b].status != EMPTY
        } else {
            &&& forall|p: int|
                0 <= p < w.settings.ignore_files@.len() ==> !wild_match(
                    (#[trigger] w.settings.ignore_files@[p])@,
                    name_text(w.root.wide, w.entries[k].file_name@),
                )
            &&& !(w.entries[k].is_file && w.settings.consider_empty_files_empty
                && w.entries[k].size == Some(0u64))
        },
    ensures
        nodes[a].status == NORMAL,
{
    assert(w.dir(j));
    lemma_status(w, nodes, a, j);
    clear_by_children(w, j);
    if w.entries[k].is_dir {
        assert(w.dir(k));
        if w.removable(k) {
            every_empty_is_reported(w, nodes, k);
        }
    } else {
        assert(w.keeps(k)) by {
            let name = name_text(w.root.wide, w.entries[k].file_name@);
            let list = texts(w.settings.ignore_files@);
            if any_match(list, name) {
                let p = choose|p: int| 0 <= p < list.len() && #[trigger] wild_match(list[p], name);
                assert(w.settings.ignore_files@[p]@ == list[p]);
            }
        }
        assert(w.occupied(w.at(j)));
    }
}

/// Whatever is not a directory keeps every directory that it lies in, or somewhere under, from being
/// reported as empty, unless a pattern matches its name or it is an empty file that does not count.
pub proof fn kept_file_keeps_all_above(w: Walk, nodes: Seq<DirectoryNode>, a: int, k: int)
    requires
        walk_ok(w.entries),
        complete(w),
        w.is_report(nodes),
        0 <= a < nodes.len(),
        0 <= k < w.entries.len(),
        !w.entries[k].is_dir,
        w.entries[k].path@.len() > 0,
        forall|p: int|
            0 <= p < w.settings.ignore_files@.len() ==> !wild_match(
                (#[trigger] w.settings.ignore_files@[p])@,
                name_text(w.root.wide, w.entries[k].file_name@),
            ),
        !w.entries[k].is_file || !w.settings.consider_empty_files_empty || w.entries[k].size
            != Some(0u64),
        nodes[a].path@.is_prefix_of(w.root.path@ + w.entries[k].path@.drop_last()),
    ensures
        nodes[a].status != EMPTY,
{
    let name = name_text(w.root.wide, w.entries[k].file_name@);
    let list = texts(w.settings.ignore_files@);
    if any_match(list, name) {
        let p = choose|p: int| 0 <= p < list.len() && #[trigger] wild_match(list[p], name);
        assert(w.settings.ignore_files@[p]@ == list[p]);
    }
    assert(w.keeps(k));
    if nodes[a].status == EMPTY {
        occupied_is_never_empty(w, nodes, a, k);
        let whole = w.root.path@ + w.at(k).drop_last();
        assert(whole.take(nodes[a].path@.len() as int) =~= nodes[a].path@);
    }
}

/// A directory that is hidden, or part of the operating system, and is to be skipped, one that is
/// younger than the given hours, one that matches a listed directory, and one that lies deeper than
/// the scan goes keep themselves and every directory that they lie in from being reported as empty.
pub proof fn protected_directory_keeps_all_above(
    w: Walk,
    nodes: Seq<DirectoryNode>,
    a: int,
    j: int,
)
    requires
        walk_ok(w.entries),
        complete(w),
        w.is_report(nodes),
        0 <= a < nodes.len(),
        0 <= j < w.entries.len(),
        w.entries[j].is_dir,
        nodes[a].path@.is_prefix_of(w.root.path@ + w.entries[j].path@),
        ({
            ||| w.settings.ignore_hidden && w.entries[j].marked_hidden
            ||| w.settings.ignore_hidden && name_text(
                w.root.wide,
                w.entries[j].file_name@,
            ).len() > 0 && name_text(w.root.wide, w.entries[j].file_name@)[0] == '.'
            ||| w.settings.keep_system && w.entries[j].is_system
            ||| w.entries[j].age_secs matches Some(s) && s < w.settings.min_age_hours * 3600
            ||| any_match(
                dir_patterns(texts(w.settings.ignore_dirs@)),
                folded(w.text(w.entries[j].path@)),
            )
            ||| 0 <= w.settings.max_depth < w.entries[j].path@.len()
        }),
    ensures
        nodes[a].status != EMPTY,
{
    lemma_reasons(w, j);
    assert(w.dir(j));
    if nodes[a].status == EMPTY {
        protected_is_never_empty(w, nodes, a, j);
        let whole = w.root.path@ + w.at(j);
        assert(whole.take(nodes[a].path@.len() as int) =~= nodes[a].path@);
    }
}

/// Nothing under a directory that is hidden, or part of the operating system, and is to be skipped
/// is reported as empty; the root is never skipped.
pub proof fn nothing_under_a_skipped_directory_is_empty(
    w: Walk,
    nodes: Seq<DirectoryNode>,
    a: int,
    j: int,
)
    requires
        walk_ok(w.entries),
        w.is_report(nodes),
        0 <= a < nodes.len(),
        0 <= j < w.entries.len(),
        w.entries[j].is_dir,
        w.entries[j].path@.len() > 0,
        (w.root.path@ + w.entries[j].path@).is_prefix_of(nodes[a].path@),
        ({
            ||| w.settings.ignore_hidden && w.entries[j].marked_hidden
            ||| w.settings.ignore_hidden && name_text(
                w.root.wide,
                w.entries[j].file_name@,
            ).len() > 0 && name_text(w.root.wide, w.entries[j].file_name@)[0] == '.'
            ||| w.settings.keep_system && w.entries[j].is_system
        }),
    ensures
        nodes[a].status != EMPTY,
{
    assert(w.skips(j));
    let whole = w.root.path@ + w.at(j);
    assert(nodes[a].path@.take(whole.len() as int) =~= whole);
    crate::scan_laws::skipped_is_never_empty(w, nodes, a, j);
}

/// No node lies deeper than the scan goes.
pub proof fn no_node_is_too_deep(w: Walk, nodes: Seq<DirectoryNode>, a: int)
    requires
        w.is_report(nodes),
        0 <= a < nodes.len(),
        w.settings.max_depth >= 0,
    ensures
        nodes[a].path@.len() - w.root.path@.len() <= w.settings.max_depth,
{
    let d = nodes[a].path@.skip(w.root.path@.len() as int);
    assert(w.shown(d));
    assert(w.describes(d, nodes[a]));
    let i = choose|i: int| #[trigger] w.shows(i, d);
    assert(d.len() <= w.at(i).len());
}

/// Every node is the root or lies under it, and is reported as empty or as protected or leads to a
/// node that is.
pub proof fn every_node_leads_to_a_find(w: Walk, nodes: Seq<DirectoryNode>, a: int)
    requires
        walk_ok(w.entries),
        w.is_report(nodes),
        0 <= a < nodes.len(),
    ensures
        w.root.path@.is_prefix_of(nodes[a].path@),
        exists|b: int|
            0 <= b < nodes.len() && (#[trigger] nodes[b]).path@.len() > w.root.path@.len()
                && nodes[a].path@.is_prefix_of(nodes[b].path@) && (nodes[b].status == EMPTY
                || nodes[b].status == PROTECTED),
{
    let b = lemma_find(w, nodes, a);
    lemma_prefix(w.root.path@, nodes[a].path@);
    lemma_prefix(nodes[a].path@, nodes[b].path@);
}

proof fn lemma_prefix(p: Names, q: Names)
    requires
        p.len() <= q.len(),
        q.take(p.len() as int) == p,
    ensures
        p.is_prefix_of(q),
{
    assert(p =~= q.subrange(0, p.len() as int));
}

/// What a node is about.
proof fn lemma_described(w: Walk, nodes: Seq<DirectoryNode>, a: int) -> (d: Names)
    requires
        w.is_report(nodes),
        0 <= a < nodes.len(),
    ensures
        nodes[a].path@ == w.root.path@ + d,
        w.shown(d),
        w.describes(d, nodes[a]),
{
    let d = nodes[a].path@.skip(w.root.path@.len() as int);
    assert(w.describes(d, nodes[a]));
    d
}

proof fn lemma_find(w: Walk, nodes: Seq<DirectoryNode>, a: int) -> (b: int)
    requires
        walk_ok(w.entries),
        w.is_report(nodes),
        0 <= a < nodes.len(),
    ensures
        0 <= b < nodes.len(),
        w.root.path@.len() <= nodes[a].path@.len() <= nodes[b].path@.len(),
        w.root.path@.len() < nodes[b].path@.len(),
        nodes[a].path@.take(w.root.path@.len() as int) == w.root.path@,
        nodes[b].path@.take(nodes[a].path@.len() as int) == nodes[a].path@,
        nodes[b].status == EMPTY || nodes[b].status == PROTECTED,
{
    let d = lemma_described(w, nodes, a);
    let i = choose|i: int| #[trigger] w.shows(i, d);
    let b = lemma_node(w, nodes, i);
    lemma_status(w, nodes, b, i);
    lemma_joined(w.root.path@, d, w.at(i));
    b
}

proof fn lemma_joined(r: Names, d: Names, e: Names)
    requires
        d.len() <= e.len(),
        e.take(d.len() as int) == d,
    ensures
        (r + d).take(r.len() as int) == r,
        (r + e).take((r + d).len() as int) == r + d,
{
    assert((r + d).take(r.len() as int) =~= r);
    assert((r + e).take((r + d).len() as int) =~= r + d) by {
        assert forall|k: int| 0 <= k < d.len() implies e[k] == d[k] by {
            assert(e.take(d.len() as int)[k] == e[k]);
        }
    }
}

/// The path of a node is the root's and that of a directory, or of one that leads to it; with a
/// node every directory between it and the root has one.
pub proof fn report_goes_back_to_the_root(w: Walk, nodes: Seq<DirectoryNode>, a: int, p: Names)
    requires
        w.is_report(nodes),
        0 <= a < nodes.len(),
        w.root.path@.is_prefix_of(p),
        p.is_prefix_of(nodes[a].path@),
    ensures
        exists|b: int| 0 <= b < nodes.len() && (#[trigger] nodes[b]).path@ == p,
{
    let d = p.skip(w.root.path@.len() as int);
    lemma_between(w.root.path@, p, nodes[a].path@);
    crate::scan_laws::report_is_a_tree(w, nodes, a, d);
}

proof fn lemma_between(r: Names, p: Names, q: Names)
    requires
        r.is_prefix_of(p),
        p.is_prefix_of(q),
    ensures
        p == r + p.skip(r.len() as int),
        p.len() <= q.len(),
        q.take(p.len() as int) == p,
{
    assert(p =~= r + p.skip(r.len() as int));
    assert(q.take(p.len() as int) =~= p);
}

/// A node shows its directory as the walk met it: its own name, its depth below the root, whether it
/// is hidden and whether it is a link; it is expanded.
pub proof fn node_shows_its_directory(w: Walk, nodes: Seq<DirectoryNode>, a: int, j: int)
    requires
        walk_ok(w.entries),
        w.is_report(nodes),
        0 <= a < nodes.len(),
        0 <= j < w.entries.len(),
        w.entries[j].is_dir,
        nodes[a].path@ == w.root.path@ + w.entries[j].path@,
    ensures
        nodes[a].depth == w.entries[j].path@.len(),
        nodes[a].is_expanded,
        nodes[a].is_hidden == (w.entries[j].marked_hidden || (name_text(
            w.root.wide,
            w.entries[j].file_name@,
        ).len() > 0 && name_text(w.root.wide, w.entries[j].file_name@)[0] == '.')),
        nodes[a].is_symlink == w.entries[j].is_symlink,
        w.entries[j].path@.len() > 0 ==> nodes[a].name@ == name_text(
            w.root.wide,
            w.entries[j].path@[w.entries[j].path@.len() - 1],
        ),
        w.entries[j].path@.len() == 0 ==> nodes[a].name@ == name_text(w.root.wide, w.root.text@),
{
    let d = w.at(j);
    assert(w.dir(j));
    lemma_status(w, nodes, a, j);
    if w.settings.max_depth >= 0 {
        no_node_is_too_deep(w, nodes, a);
    }
    assert forall|i: int| (#[trigger] w.hides(i, d)) implies i == j by {
        assert(w.entries[i].is_dir && w.entries[j].is_dir);
    }
    assert forall|i: int| (#[trigger] w.links(i, d)) implies i == j by {
        assert(w.entries[i].is_dir && w.entries[j].is_dir);
    }
    assert(w.hides(j, d) == w.hidden(j));
    assert(w.links(j, d) == w.entries[j].is_symlink);
}

/// The text of the root is the root's own; that of a directory in it goes on with what stands
/// between the two; and every further name goes on with the separator.
pub proof fn texts_of_paths_grow_by_names(
    w: Walk,
    nodes: Seq<DirectoryNode>,
    a: int,
    b: int,
    name: Seq<u8>,
)
    requires
        w.is_report(nodes),
        0 <= a < nodes.len(),
        0 <= b < nodes.len(),
        nodes[b].path@ == nodes[a].path@.push(name),
    ensures
        nodes[a].depth == 0 ==> {
            &&& nodes[a].path_str@ == name_text(w.root.wide, w.root.text@)
            &&& nodes[b].path_str@ == name_text(w.root.wide, w.root.text@ + w.root.lead@ + name)
        },
        nodes[a].depth > 0 ==> exists|s: Seq<u8>|
            nodes[a].path_str@ == name_text(w.root.wide, s) && nodes[b].path_str@ == #[trigger]
                name_text(w.root.wide, s + seq![w.root.sep] + name),
{
    let d = lemma_described(w, nodes, a);
    let e = lemma_described(w, nodes, b);
    lemma_same_tail(w.root.path@, d, e, name);
    path_text_by_names(w, d, name);
    if d.len() == 0 {
        assert(d == Seq::<Seq<u8>>::empty());
        assert(e == seq![name]);
    } else {
        let s = path_bytes(w.root, d);
        assert(nodes[b].path_str@ == name_text(w.root.wide, s + seq![w.root.sep] + name));
    }
}

proof fn lemma_same_tail(r: Names, d: Names, e: Names, name: Seq<u8>)
    requires
        r + e == (r + d).push(name),
    ensures
        e == d.push(name),
        d.len() == 0 ==> d == Seq::<Seq<u8>>::empty() && e == seq![name],
{
    let n = r.len() as int;
    assert((r + e).skip(n) =~= e);
    assert((r + d).push(name).skip(n) =~= d.push(name));
    if d.len() == 0 {
        assert(d =~= Seq::<Seq<u8>>::empty());
        assert(e =~= seq![name]);
    }
}

/// The text of a path below the root, one name after the other.
pub proof fn path_text_by_names(w: Walk, below: Names, name: Seq<u8>)
    ensures
        w.text(Seq::empty()) == name_text(w.root.wide, w.root.text@),
        w.text(seq![name]) == name_text(w.root.wide, w.root.text@ + w.root.lead@ + name),
        below.len() > 0 ==> path_bytes(w.root, below.push(name)) == path_bytes(w.root, below)
            + seq![w.root.sep] + name,
        w.text(below) == name_text(w.root.wide, path_bytes(w.root, below)),
{
    assert(below.push(name).drop_last() =~= below);
    if below.len() > 0 {
        assert(path_bytes(w.root, below.push(name)) =~= path_bytes(w.root, below)
            + seq![w.root.sep] + name);
    }
}

/// The nodes stand in the order of their paths: where two paths part, the one whose name there comes
/// first in the order of bytes comes first, and a directory comes before all that lies in it.
pub proof fn nodes_stand_in_path_order(
    w: Walk,
    nodes: Seq<DirectoryNode>,
    a: int,
    b: int,
    n: int,
)
    requires
        w.is_report(nodes),
        0 <= a < nodes.len(),
        0 <= b < nodes.len(),
        0 <= n <= nodes[a].path@.len(),
        0 <= n < nodes[b].path@.len(),
        nodes[a].path@.take(n) == nodes[b].path@.take(n),
        n < nodes[a].path@.len() ==> exists|i: int|
            0 <= i < nodes[b].path@[n].len() && i <= nodes[a].path@[n].len()
                && #[trigger] nodes[a].path@[n].take(i) == nodes[b].path@[n].take(i) && (i
                < nodes[a].path@[n].len() ==> nodes[a].path@[n][i] < nodes[b].path@[n][i]),
    ensures
        a < b,
{
    let p = nodes[a].path@;
    let q = nodes[b].path@;
    if n < p.len() {
        let i = choose|i: int|
            0 <= i < q[n].len() && i <= p[n].len() && #[trigger] p[n].take(i) == q[n].take(i) && (i
                < p[n].len() ==> p[n][i] < q[n][i]);
        bytes_by_first_difference(p[n], q[n], i);
    }
    paths_by_first_difference(p, q, n);
    crate::path::path_order_is_total(p, q);
    if b <= a {
        if b < a {
            assert(path_before(nodes[b].path@, nodes[a].path@));
        }
    }
}

/// Byte strings compare by the first byte in which they differ, and a beginning comes first.
pub proof fn bytes_by_first_difference(x: Seq<u8>, y: Seq<u8>, i: int)
    requires
        0 <= i <= x.len(),
        i < y.len(),
        x.take(i) == y.take(i),
        i < x.len() ==> x[i] < y[i],
    ensures
        crate::path::bytes_before(x, y),
        x != y,
    decreases i,
{
    if i > 0 {
        assert(x[0] == x.take(i)[0] && y[0] == y.take(i)[0]);
        assert(x.skip(1).take(i - 1) =~= x.take(i).skip(1));
        assert(y.skip(1).take(i - 1) =~= y.take(i).skip(1));
        bytes_by_first_difference(x.skip(1), y.skip(1), i - 1);
    } else if x.len() > 0 {
        assert(x[0] != y[0]);
    }
}

/// Paths compare by the first component in which they differ, and a path comes before those under
/// it.
pub proof fn paths_by_first_difference(p: Names, q: Names, n: int)
    requires
        0 <= n <= p.len(),
        n < q.len(),
        p.take(n) == q.take(n),
        n < p.len() ==> p[n] != q[n] && crate::path::bytes_before(p[n], q[n]),
    ensures
        path_before(p, q),
    decreases n,
{
    if n > 0 {
        assert(p[0] == p.take(n)[0] && q[0] == q.take(n)[0]);
        assert(p.skip(1).take(n - 1) =~= p.take(n).skip(1));
        assert(q.skip(1).take(n - 1) =~= q.take(n).skip(1));
        paths_by_first_difference(p.skip(1), q.skip(1), n - 1);
    }
}

/// A younger directory is protected no less than an older one.
pub proof fn younger_is_no_less_protected(a: u64, b: u64, hours: u32)
    requires
        too_young(Some(a), hours),
        b <= a,
    ensures
        too_young(Some(b), hours),
{
}

/// A directory is too young from the moment when it is made until the given hours have passed, and
/// never where no hours are given or its age is not known.
pub proof fn too_young_until_the_hours_have_passed(secs: u64, hours: u32)
    ensures
        hours > 0 ==> too_young(Some(0u64), hours),
        too_young(Some(secs), hours) <==> secs < hours * 3600,
        !too_young(Some(secs), 0),
        !too_young(None, hours),
{
}

/// More hours protect no fewer directories.
pub proof fn more_hours_protect_no_less(secs: u64, hours: u32, more: u32)
    requires
        too_young(Some(secs), hours),
        hours <= more,
    ensures
        too_young(Some(secs), more),
{
}

/// The errors of a walk give one line each, in order, or one line in all that counts them; where
/// there are none, no line.
pub proof fn errors_are_told(errors: Seq<Seq<char>>, i: int)
    ensures
        errors.len() == 0 ==> error_lines(errors, true).len() == 0,
        errors.len() > 0 ==> error_lines(errors, true) == seq![
            "[!] "@ + decimal(errors.len()) + " item(s) skipped due to access errors."@,
        ],
        error_lines(errors, false).len() == errors.len(),
        0 <= i < errors.len() ==> error_lines(errors, false)[i] == "[!] Access error: "@
            + errors[i],
{
}

/// A walk can be scanned where no path is longer than a depth can tell and no directory is listed
/// twice, and only there.
pub proof fn what_can_be_scanned(entries: Seq<WalkEntry>)
    ensures
        walk_ok(entries) <==> (forall|i: int|
            0 <= i < entries.len() ==> (#[trigger] entries[i]).path@.len() <= 0x7fff_ffff) && (
        forall|i: int, j: int|
            0 <= i < entries.len() && 0 <= j < entries.len() && i != j && (
            #[trigger] entries[i]).is_dir && (#[trigger] entries[j]).is_dir ==> entries[i].path@
                != entries[j].path@),
{
}

/// An entry is hidden, or part of the operating system, where the attributes are known and have the
/// bit that stands for it, whatever their other bits are.
pub proof fn attributes_by_their_bits(bits: u32)
    ensures
        hidden_attribute(Some(bits)) <==> (bits / 2) % 2 == 1,
        system_attribute(Some(bits)) <==> (bits / 4) % 2 == 1,
        !hidden_attribute(None),
        !system_attribute(None),
{
    assert((bits & 0x2 != 0) <==> (bits / 2) % 2 == 1) by (bit_vector);
    assert((bits & 0x4 != 0) <==> (bits / 4) % 2 == 1) by (bit_vector);
}

} // verus!

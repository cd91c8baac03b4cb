//! What a deletion promises.

use crate::delete::{
    cleaning_goes_on, clears_away, covers, is_deletion, is_target, lists_cleared, not_empty_error,
    tally, ChildEntry, CleanAction, CleanEvent, DeleteMethod, DeleteSettings,
};
use crate::delete_run::{lemma_filter_within, DeleteAction, Note, Phase, RunState};
use crate::path::within;
use crate::scanner::Walk;
use crate::tree::{DirectoryNode, DELETED, EMPTY, FAILED};
use vstd::prelude::*;

verus! {

/// A dry run never asks for anything that changes a directory, and clears nothing away.
pub proof fn dry_run_touches_nothing(run: RunState, action: DeleteAction, child: ChildEntry)
    requires
        run.wf(),
        run.settings.dry_run,
        run.awaits(action),
    ensures
        !(action is Verify),
        !(action is TrashAll),
        !(action is DeleteOne),
        action matches DeleteAction::DeleteAll(_, dry_run) ==> dry_run,
        !clears_away(run.settings, child),
{
}

/// Whether all that lies in a directory is cleared away.
pub open spec fn all_cleared(settings: DeleteSettings, children: Seq<ChildEntry>) -> bool {
    forall|i: int| 0 <= i < children.len() ==> clears_away(settings, #[trigger] children[i])
}

/// Whether the entries at the places `list` are all that lies in a directory.
pub open spec fn nothing_but(children: Seq<ChildEntry>, list: Seq<usize>) -> bool {
    forall|i: int| 0 <= i < children.len() ==> list.contains(#[trigger] (i as usize))
}

/// A proper directory is listed, cleared and verified, in this order. Once exactly the entries that
/// it asked for are gone, the verdict is that it may be deleted if and only if all that lay in it
/// was to be cleared away; else it is the error that the directory is not empty, and nothing
/// deletes it.
pub proof fn cleaning_decides(
    settings: DeleteSettings,
    children: Vec<ChildEntry>,
    first: CleanAction,
    second: CleanAction,
    third: CleanAction,
    last: CleanAction,
    method: Result<DeleteMethod, String>,
)
    requires
        cleaning_goes_on(settings, CleanEvent::Looked(Ok(false)), first),
        cleaning_goes_on(settings, CleanEvent::Listed(Some(children)), second),
        cleaning_goes_on(settings, CleanEvent::Cleared, third),
        cleaning_goes_on(
            settings,
            CleanEvent::Verified(Ok(nothing_but(children@, second->Clear_0@))),
            last,
        ),
        is_deletion(last->Verdict_0, settings, false, method),
    ensures
        first is List,
        second is Clear,
        third is Verify,
        last matches CleanAction::Verdict(verdict) && if all_cleared(settings, children@) {
            verdict == Ok::<bool, String>(true)
        } else {
            verdict matches Err(m) && m@ == not_empty_error()
        },
        if all_cleared(settings, children@) {
            method == Ok::<DeleteMethod, String>(
                if settings.move_to_trash {
                    DeleteMethod::Trash
                } else {
                    DeleteMethod::Directory
                },
            )
        } else {
            method matches Err(m) && m@ == not_empty_error()
        },
{
    let list = second->Clear_0@;
    assert(lists_cleared(settings, children@, list));
    if nothing_but(children@, list) {
        assert forall|i: int| 0 <= i < children@.len() implies clears_away(
            settings,
            #[trigger] children@[i],
        ) by {
            assert(list.contains(i as usize));
        }
    }
    if all_cleared(settings, children@) {
        assert forall|i: int| 0 <= i < children@.len() implies list.contains(
            #[trigger] (i as usize),
        ) by {
            assert(clears_away(settings, children@[i]));
        }
    }
}

/// A link is removed as it is: nothing in it is listed or cleared.
pub proof fn link_is_not_entered(
    settings: DeleteSettings,
    first: CleanAction,
    method: Result<DeleteMethod, String>,
)
    requires
        cleaning_goes_on(settings, CleanEvent::Looked(Ok(true)), first),
        is_deletion(first->Verdict_0, settings, true, method),
    ensures
        first == CleanAction::Verdict(Ok(true)),
        method == Ok::<DeleteMethod, String>(DeleteMethod::Link),
{
}

/// Without the option to go on after errors the first failure ends the run: until then none is
/// counted, and after it nothing more is tried.
pub proof fn first_failure_ends_the_run(run: RunState)
    requires
        run.wf(),
        !run.settings.ignore_errors,
    ensures
        run.failed == 0 || (run.failed == 1 && run.phase is Done),
{
}

/// Whether an action names node `i`.
pub open spec fn names(action: DeleteAction, i: int) -> bool {
    match action {
        DeleteAction::Verify(k) => i == k,
        DeleteAction::DeleteOne(k) => i == k,
        DeleteAction::TrashAll(list) => exists|a: int| 0 <= a < list@.len() && list@[a] == i,
        DeleteAction::DeleteAll(list, _) => exists|a: int| 0 <= a < list@.len() && list@[a] == i,
        _ => false,
    }
}

proof fn lemma_queue_holds(run: RunState, i: int)
    requires
        run.wf(),
        run.listed.contains(i as usize),
        0 <= i <= usize::MAX,
    ensures
        exists|a: int| 0 <= a < run.queue.len() && #[trigger] run.queue[a] == i,
{
    let b = choose|b: int| 0 <= b < run.listed.len() && run.listed[b] == i as usize;
    assert(run.queue.contains(run.listed[b]));
    let a = choose|a: int| 0 <= a < run.queue.len() && run.queue[a] == run.listed[b];
    assert(run.queue[a] == i);
}

/// Every directory that an action names counts as empty at that moment.
pub proof fn only_empty_is_touched(run: RunState, action: DeleteAction, i: int)
    requires
        run.wf(),
        run.awaits(action),
        names(action, i),
    ensures
        0 <= i < run.nodes.len(),
        run.nodes[i].status == EMPTY,
        run.start[i].status == EMPTY,
{
    let pred = |k: usize| is_target(run.start, k as int);
    match run.phase {
        Phase::Verify(k) => {
            lemma_filter_within(run.listed, pred, k as int);
            lemma_queue_holds(run, i);
        },
        Phase::Trash => {
            let a = choose|a: int| 0 <= a < run.targets.len() && run.targets[a] == i;
            lemma_filter_within(run.listed, pred, a);
            lemma_queue_holds(run, i);
        },
        Phase::Parallel(lo, hi) => {
            let list = run.queue.subrange(lo as int, hi as int);
            let a = choose|a: int| 0 <= a < list.len() && list[a] == i;
            assert(run.queue[lo + a] == i);
        },
        _ => {},
    }
    let p = choose|p: int| 0 <= p < run.queue.len() && #[trigger] run.queue[p] == i
        && run.nodes[i].status == EMPTY;
    assert(run.listed.contains(run.queue[p]));
    let b = choose|b: int| 0 <= b < run.listed.len() && run.listed[b] == run.queue[p];
    assert(run.start[run.listed[b] as int].status == EMPTY);
}

/// A run changes nothing but the status of directories that counted as empty.
pub proof fn others_are_left_alone(run: RunState, i: int)
    requires
        run.wf(),
        0 <= i < run.start.len(),
        run.start[i].status != EMPTY,
    ensures
        run.nodes[i] == run.start[i],
{
    assert(run.nodes[i] == (DirectoryNode { status: run.nodes[i].status, ..run.start[i] }));
}

proof fn lemma_none_empty(nodes: Seq<DirectoryNode>, list: Seq<usize>)
    requires
        forall|a: int|
            0 <= a < list.len() ==> nodes[#[trigger] list[a] as int].status == DELETED
                || nodes[list[a] as int].status == FAILED,
    ensures
        tally(nodes, list, DELETED) + tally(nodes, list, FAILED) == list.len(),
    decreases list.len(),
{
    if list.len() > 0 {
        let short = list.drop_last();
        assert forall|a: int| 0 <= a < short.len() implies nodes[#[trigger] short[a] as int].status
            == DELETED || nodes[short[a] as int].status == FAILED by {
            assert(short[a] == list[a]);
        }
        assert(nodes[list[list.len() - 1] as int].status == DELETED
            || nodes[list[list.len() - 1] as int].status == FAILED);
        lemma_none_empty(nodes, short);
    }
}

/// A run that was not cut short has, at its end, tried every directory that counted as empty: each
/// was deleted or failed, and the two counts add up to all of them.
pub proof fn finished_run_is_complete(run: RunState, i: int)
    requires
        run.wf(),
        run.phase is Done,
        !run.cut_short,
        run.nodes.len() <= usize::MAX,
        0 <= i < run.start.len(),
        run.start[i].status == EMPTY,
    ensures
        run.nodes[i].status == DELETED || run.nodes[i].status == FAILED,
        run.deleted + run.failed == run.listed.len(),
{
    assert(run.listed.contains(i as usize));
    lemma_queue_holds(run, i);
    assert forall|a: int| 0 <= a < run.queue.len() implies run.nodes[#[trigger] run.queue[a] as int].status
        == DELETED || run.nodes[run.queue[a] as int].status == FAILED by {
        assert(run.listed.contains(run.queue[a]));
        let b = choose|b: int| 0 <= b < run.listed.len() && run.listed[b] == run.queue[a];
        assert(run.start[run.listed[b] as int].status == EMPTY);
    }
    lemma_none_empty(run.nodes, run.queue);
}

/// Whether a dry run has met no failure: none is counted, and none is among the outcomes that are
/// being taken in.
pub open spec fn is_spotless(run: RunState) -> bool {
    &&& run.settings.dry_run
    &&& run.failed == 0
    &&& run.phase is Settle ==> forall|k: int|
        0 <= k < run.outcomes.len() ==> !(#[trigger] run.outcomes[k] is Failed)
}

/// A dry run meets no failure: whatever the flag says, a run that has met none goes on without one.
/// Outcomes that [`crate::delete_run::before_item`] gives in a dry run hold none either.
pub proof fn dry_run_never_fails(run: RunState, cancelled: bool, next: RunState, said: Seq<Note>)
    requires
        run.wf(),
        is_spotless(run),
        run.phase is Group || run.phase is Settle || run.phase is ItemPoll,
        run.polls(cancelled, next, said),
    ensures
        is_spotless(next),
{
}

/// A dry run that met no failure and was not cut short counts, at its end, every directory that
/// counted as empty as deleted.
pub proof fn finished_dry_run_counts_all(run: RunState)
    requires
        run.wf(),
        is_spotless(run),
        run.phase is Done,
        !run.cut_short,
        run.nodes.len() <= usize::MAX,
    ensures
        run.deleted == run.listed.len(),
{
    if run.listed.len() > 0 {
        let i = run.listed[0] as int;
        finished_run_is_complete(run, i);
    } else {
        assert(run.queue.len() == 0) by {
            if run.queue.len() > 0 {
                assert(run.listed.contains(run.queue[0]));
            }
        }
    }
}

/// A directory is deleted on its own, or with its group, only after every deeper directory that
/// counted as empty has been tried.
pub proof fn deeper_go_first(run: RunState, action: DeleteAction, i: int, j: int)
    requires
        run.wf(),
        run.nodes.len() <= usize::MAX,
        run.awaits(action),
        action is DeleteOne || action is DeleteAll,
        names(action, i),
        !run.cut_short,
        0 <= j < run.start.len(),
        run.start[j].status == EMPTY,
        run.start[j].depth > run.start[i].depth,
    ensures
        run.nodes[j].status != EMPTY,
{
    only_empty_is_touched(run, action, i);
    assert(run.listed.contains(j as usize));
    lemma_queue_holds(run, j);
    let b = choose|b: int| 0 <= b < run.queue.len() && #[trigger] run.queue[b] == j;
    let (p, q) = match run.phase {
        Phase::Item(at, _) => (at as int, at as int),
        Phase::Parallel(lo, hi) => {
            let list = run.queue.subrange(lo as int, hi as int);
            let a = choose|a: int| 0 <= a < list.len() && list[a] == i;
            assert(run.queue[lo + a] == i);
            assert(run.start[run.queue[lo + a] as int].depth
                == run.start[run.queue[lo as int] as int].depth);
            (lo as int, lo + a)
        },
        _ => (0, 0),
    };
    assert(run.queue[q] == i);
    if b >= p {
        if b > p {
            assert(run.start[run.queue[p] as int].depth >= run.start[run.queue[b] as int].depth);
        }
    }
}

/// A run comes to its end: the number of steps left, which every event makes smaller, is never
/// negative, and only a run that is over has none left.
pub proof fn run_ends(run: RunState)
    requires
        run.wf(),
    ensures
        run.steps_left() >= 0,
        run.steps_left() == 0 <==> run.phase is Done,
{
}

/// Whether the depths of a tree are those of its paths below a root of `n` components.
pub open spec fn depths_by_path(nodes: Seq<DirectoryNode>, n: int) -> bool {
    forall|i: int| 0 <= i < nodes.len() ==> (#[trigger] nodes[i]).depth == nodes[i].path@.len() - n
}

/// The depths of the report of a scan are those of its paths.
pub proof fn report_has_depths_by_path(w: Walk, nodes: Seq<DirectoryNode>)
    requires
        w.is_report(nodes),
    ensures
        depths_by_path(nodes, w.root.path@.len() as int),
{
    let n = w.root.path@.len() as int;
    assert forall|i: int| 0 <= i < nodes.len() implies (#[trigger] nodes[i]).depth
        == nodes[i].path@.len() - n by {
        assert(w.describes(nodes[i].path@.skip(n), nodes[i]));
    }
}

/// Every directory that counts as empty is a target or lies under one.
pub proof fn targets_take_all(nodes: Seq<DirectoryNode>, i: int)
    requires
        0 <= i < nodes.len(),
        nodes[i].status == EMPTY,
    ensures
        exists|t: int|
            0 <= t < nodes.len() && nodes[t].status == EMPTY && #[trigger] is_target(nodes, t)
                && within(nodes[i].path@, nodes[t].path@),
    decreases nodes[i].path@.len(),
{
    let p = nodes[i].path@;
    assert(p.take(p.len() as int) == p);
    if !is_target(nodes, i) {
        let j = choose|j: int| #[trigger] covers(nodes, j, i);
        let q = nodes[j].path@;
        if q.len() == p.len() {
            assert(p.take(q.len() as int) == p);
        }
        targets_take_all(nodes, j);
        let t = choose|t: int|
            0 <= t < nodes.len() && nodes[t].status == EMPTY && #[trigger] is_target(nodes, t)
                && within(q, nodes[t].path@);
        let r = nodes[t].path@;
        assert(p.take(r.len() as int) == p.take(q.len() as int).take(r.len() as int));
        assert(is_target(nodes, t) && within(p, r));
    }
}

/// In a tree whose depths are those of its paths no target lies under another.
pub proof fn targets_are_apart(nodes: Seq<DirectoryNode>, n: int, t: int, u: int)
    requires
        depths_by_path(nodes, n),
        0 <= t < nodes.len(),
        0 <= u < nodes.len(),
        nodes[t].status == EMPTY,
        nodes[u].status == EMPTY,
        is_target(nodes, u),
        within(nodes[u].path@, nodes[t].path@),
    ensures
        nodes[u].path@ == nodes[t].path@,
{
    let p = nodes[u].path@;
    let q = nodes[t].path@;
    if p != q {
        if p.len() == q.len() {
            assert(p.take(p.len() as int) == p);
        }
        assert(nodes[t].depth == q.len() - n);
        assert(nodes[u].depth == p.len() - n);
        assert(covers(nodes, t, u));
    }
}

} // verus!

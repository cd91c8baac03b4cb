//! What a deletion does, step by step, by the tree, the settings and what came of each step.

use crate::delete::{
    cleaning_goes_on, clears_away, is_deletion, is_target, lists_cleared, tally, ChildEntry,
    CleanAction, CleanEvent, DeleteMethod, DeleteSettings,
};
use crate::delete_laws::{cleaning_decides, nothing_but};
use crate::delete_run::{lemma_filter_within, DeleteAction, ItemOutcome, Note, Phase, RunState};
use crate::text::{name_text, texts};
use crate::tree::{DirectoryNode, DELETED, EMPTY, FAILED};
use crate::wild::{any_match, wild_match};
use vstd::prelude::*;

verus! {

/// A file, or a link, is cleared away if a pattern matches its name, and a file that is no link if
/// it is empty and such files do not count; nothing is cleared in a dry run, and nothing else ever.
pub proof fn what_is_cleared(
    settings: DeleteSettings,
    children: Seq<ChildEntry>,
    list: Seq<usize>,
    i: int,
)
    requires
        lists_cleared(settings, children, list),
        0 <= i < children.len() <= usize::MAX,
    ensures
        list.contains(i as usize) == (!settings.dry_run && (children[i].is_symlink
            || children[i].is_file) && ((exists|p: int|
            0 <= p < settings.ignore_files@.len() && wild_match(
                (#[trigger] settings.ignore_files@[p])@,
                name_text(children[i].wide, children[i].name@),
            )) || (!children[i].is_symlink && settings.consider_empty_files_empty
            && children[i].size == Some(0u64)))),
        forall|a: int, b: int| 0 <= a < b < list.len() ==> #[trigger] list[a] < #[trigger] list[b],
        forall|a: int| 0 <= a < list.len() ==> #[trigger] list[a] < children.len(),
{
    lemma_cleared(settings, children[i]);
}

proof fn lemma_cleared(settings: DeleteSettings, child: ChildEntry)
    ensures
        clears_away(settings, child) == (!settings.dry_run && (child.is_symlink || child.is_file)
            && ((exists|p: int|
            0 <= p < settings.ignore_files@.len() && wild_match(
                (#[trigger] settings.ignore_files@[p])@,
                name_text(child.wide, child.name@),
            )) || (!child.is_symlink && settings.consider_empty_files_empty && child.size == Some(
            0u64,
        )))),
{
    let name = name_text(child.wide, child.name@);
    let list = texts(settings.ignore_files@);
    if any_match(list, name) {
        let p = choose|p: int| 0 <= p < list.len() && #[trigger] wild_match(list[p], name);
        assert(settings.ignore_files@[p]@ == list[p]);
    }
    if exists|p: int|
        0 <= p < settings.ignore_files@.len() && wild_match(
            (#[trigger] settings.ignore_files@[p])@,
            name,
        ) {
        let p = choose|p: int|
            0 <= p < settings.ignore_files@.len() && wild_match(
                (#[trigger] settings.ignore_files@[p])@,
                name,
            );
        assert(wild_match(list[p], name));
    }
}

/// A proper directory with nothing in it but files and links whose names a pattern matches, and
/// empty files that do not count, is deleted unless it is a dry run: once they are gone, the verdict
/// is that it may be, and it goes to the trash where that is asked for.
pub proof fn only_ignored_files_do_not_keep_it(
    settings: DeleteSettings,
    children: Vec<ChildEntry>,
    first: CleanAction,
    second: CleanAction,
    third: CleanAction,
    last: CleanAction,
    method: Result<DeleteMethod, String>,
)
    requires
        cleaning_goes_on(settings, CleanEvent::Looked(Ok(false)), first),
        cleaning_goes_on(settings, CleanEvent::Listed(Some(children)), second),
        cleaning_goes_on(settings, CleanEvent::Cleared, third),
        cleaning_goes_on(settings, CleanEvent::Verified(Ok(true)), last),
        is_deletion(last->Verdict_0, settings, false, method),
        !settings.dry_run,
        forall|i: int|
            0 <= i < children@.len() ==> ((#[trigger] children@[i]).is_symlink
                || children@[i].is_file) && ((exists|p: int|
                0 <= p < settings.ignore_files@.len() && wild_match(
                    (#[trigger] settings.ignore_files@[p])@,
                    name_text(children@[i].wide, children@[i].name@),
                )) || (!children@[i].is_symlink && settings.consider_empty_files_empty
                && children@[i].size == Some(0u64))),
    ensures
        first is List,
        second matches CleanAction::Clear(list) && (forall|i: int|
            0 <= i < children@.len() ==> list@.contains(#[trigger] (i as usize))),
        third is Verify,
        last == CleanAction::Verdict(Ok(true)),
        method == Ok::<DeleteMethod, String>(
            if settings.move_to_trash {
                DeleteMethod::Trash
            } else {
                DeleteMethod::Directory
            },
        ),
{
    assert forall|i: int| 0 <= i < children@.len() implies clears_away(
        settings,
        #[trigger] children@[i],
    ) by {
        lemma_cleared(settings, children@[i]);
    }
    let list = second->Clear_0@;
    assert forall|i: int| 0 <= i < children@.len() implies list.contains(
        #[trigger] (i as usize),
    ) by {
        assert(clears_away(settings, children@[i]));
    }
    assert(nothing_but(children@, list));
    cleaning_decides(settings, children, first, second, third, last, method);
}

/// A proper directory with something else in it is not deleted: a directory, or a file or link whose
/// name no pattern matches and which is no empty file that does not count.
pub proof fn anything_else_keeps_it(
    settings: DeleteSettings,
    children: Vec<ChildEntry>,
    second: CleanAction,
    last: CleanAction,
    method: Result<DeleteMethod, String>,
    i: int,
)
    requires
        cleaning_goes_on(settings, CleanEvent::Listed(Some(children)), second),
        cleaning_goes_on(settings, CleanEvent::Verified(Ok(false)), last),
        is_deletion(last->Verdict_0, settings, false, method),
        0 <= i < children@.len(),
        ({
            ||| settings.dry_run
            ||| !children@[i].is_symlink && !children@[i].is_file
            ||| (forall|p: int|
                0 <= p < settings.ignore_files@.len() ==> !wild_match(
                    (#[trigger] settings.ignore_files@[p])@,
                    name_text(children@[i].wide, children@[i].name@),
                )) && (children@[i].is_symlink || !settings.consider_empty_files_empty
                || children@[i].size != Some(0u64))
        }),
    ensures
        second matches CleanAction::Clear(list) && !list@.contains(i as usize),
        last matches CleanAction::Verdict(Err(m)) && m@
            == "Directory is not empty (contains non-ignored files)"@,
        method matches Err(m) && m@ == "Directory is not empty (contains non-ignored files)"@,
{
    lemma_cleared(settings, children@[i]);
    assert(!clears_away(settings, children@[i]));
}

/// What cannot be looked at, or cannot be verified, is not deleted, and the reason is given.
pub proof fn errors_keep_it(
    settings: DeleteSettings,
    e: String,
    first: CleanAction,
    last: CleanAction,
)
    requires
        cleaning_goes_on(settings, CleanEvent::Looked(Err(e)), first),
        cleaning_goes_on(settings, CleanEvent::Verified(Err(e)), last),
    ensures
        first == CleanAction::Verdict(Err(e)),
        last matches CleanAction::Verdict(Err(m)) && m@ == "Failed to verify directory: "@ + e@,
{
}

/// A run plans every directory that counts as empty, and no other.
pub proof fn plan_holds_all_that_is_empty(run: RunState, i: int)
    requires
        run.wf(),
        0 <= i < run.start.len() <= usize::MAX,
    ensures
        run.listed.contains(i as usize) == (run.start[i].status == EMPTY),
        run.queue.contains(i as usize) == (run.start[i].status == EMPTY),
{
    if run.listed.contains(i as usize) {
        let a = choose|a: int| 0 <= a < run.listed.len() && run.listed[a] == i as usize;
        assert(run.start[run.listed[a] as int].status == EMPTY);
        assert(run.queue.contains(run.listed[a]));
    }
    if run.queue.contains(i as usize) {
        let a = choose|a: int| 0 <= a < run.queue.len() && run.queue[a] == i as usize;
        assert(run.listed.contains(run.queue[a]));
    }
}

/// A run goes from the deepest directories up, and at one depth in the order of the tree.
pub proof fn plan_goes_from_the_bottom(run: RunState, a: int, b: int)
    requires
        run.wf(),
        0 <= a < b < run.queue.len(),
    ensures
        ({
            let i = run.queue[a] as int;
            let j = run.queue[b] as int;
            run.start[i].depth > run.start[j].depth || (run.start[i].depth == run.start[j].depth
                && i < j)
        }),
{
}

/// The targets for the trash are the topmost of the directories that count as empty: those with no
/// other such directory above them.
pub proof fn targets_are_the_topmost(run: RunState, n: int, i: int)
    requires
        run.wf(),
        0 <= i < run.start.len() <= usize::MAX,
        forall|k: int|
            0 <= k < run.start.len() ==> (#[trigger] run.start[k]).depth == run.start[k].path@.len()
                - n,
    ensures
        run.targets.contains(i as usize) == (run.start[i].status == EMPTY && forall|j: int|
            0 <= j < run.start.len() && (#[trigger] run.start[j]).status == EMPTY
                && run.start[j].path@ != run.start[i].path@ ==> !run.start[j].path@.is_prefix_of(
                run.start[i].path@,
            )),
{
    broadcast use vstd::seq_lib::group_filter_ensures;

    let pred = |k: usize| is_target(run.start, k as int);
    let p = run.start[i].path@;
    plan_holds_all_that_is_empty(run, i);
    if run.targets.contains(i as usize) {
        let a = choose|a: int| 0 <= a < run.targets.len() && run.targets[a] == i as usize;
        lemma_filter_within(run.listed, pred, a);
        assert forall|j: int|
            0 <= j < run.start.len() && (#[trigger] run.start[j]).status == EMPTY
                && run.start[j].path@ != p implies !run.start[j].path@.is_prefix_of(p) by {
            let q = run.start[j].path@;
            if q.is_prefix_of(p) {
                assert(p.take(q.len() as int) =~= q);
                if q.len() == p.len() {
                    assert(p.take(p.len() as int) =~= p);
                }
                assert(run.start[i].depth == p.len() - n);
                assert(crate::delete::covers(run.start, j, i));
            }
        }
    }
    if run.start[i].status == EMPTY && forall|j: int|
        0 <= j < run.start.len() && (#[trigger] run.start[j]).status == EMPTY
            && run.start[j].path@ != p ==> !run.start[j].path@.is_prefix_of(p) {
        assert forall|j: int| !#[trigger] crate::delete::covers(run.start, j, i) by {
            if crate::delete::covers(run.start, j, i) {
                let q = run.start[j].path@;
                assert(q =~= p.subrange(0, q.len() as int));
            }
        }
        assert(pred(i as usize));
        lemma_filter_keeps(run.listed, pred, i as usize);
    }
}

proof fn lemma_filter_keeps(list: Seq<usize>, pred: spec_fn(usize) -> bool, x: usize)
    requires
        list.contains(x),
        pred(x),
    ensures
        list.filter(pred).contains(x),
    decreases list.len(),
{
    reveal(Seq::filter);
    if list.len() > 0 {
        let short = list.drop_last();
        let kept = short.filter(pred);
        if list.last() == x {
            assert(list.filter(pred) == kept.push(x));
            assert(kept.push(x)[kept.len() as int] == x);
        } else {
            let i = choose|i: int| 0 <= i < list.len() && list[i] == x;
            assert(short[i] == x);
            lemma_filter_keeps(short, pred, x);
            let k = choose|k: int| 0 <= k < kept.len() && kept[k] == x;
            assert(list.filter(pred)[k] == x);
        }
    }
}

/// A run begins with the trash where that is asked for, there is no dry run and no pause; where
/// nothing counts as empty it is over at once, and else it looks at the flag.
pub proof fn how_a_run_begins(
    run: RunState,
    nodes: Seq<DirectoryNode>,
    settings: DeleteSettings,
    said: Seq<Note>,
    action: DeleteAction,
)
    requires
        run.wf(),
        run.begins(nodes, settings, said),
        run.awaits(action),
        nodes.len() <= usize::MAX,
    ensures
        run.nodes == nodes,
        run.start == nodes,
        run.settings == settings,
        run.deleted == 0,
        run.failed == 0,
        !run.cut_short,
        (forall|i: int| 0 <= i < nodes.len() ==> (#[trigger] nodes[i]).status != EMPTY)
            ==> action is Finished && said == Seq::<Note>::empty(),
        (exists|i: int| 0 <= i < nodes.len() && (#[trigger] nodes[i]).status == EMPTY) ==> {
            if settings.move_to_trash && !settings.dry_run && settings.pause_ms == 0 {
                &&& action == DeleteAction::Verify(run.targets[0])
                &&& said == seq![
                    Note::Log(
                        "[*] Attempting batch deletion to Recycle Bin (Root-Chop)..."@,
                        0,
                        0,
                    ),
                ]
            } else {
                &&& action is Poll
                &&& said == Seq::<Note>::empty()
            }
        },
{
    if exists|i: int| 0 <= i < nodes.len() && (#[trigger] nodes[i]).status == EMPTY {
        let i = choose|i: int| 0 <= i < nodes.len() && (#[trigger] nodes[i]).status == EMPTY;
        plan_holds_all_that_is_empty(run, i);
    } else if run.queue.len() > 0 {
        assert(run.listed.contains(run.queue[0]));
        let a = choose|a: int| 0 <= a < run.listed.len() && run.listed[a] == run.queue[0];
        assert(run.start[run.listed[a] as int].status == EMPTY);
    }
}

/// Every target is verified, one after the other, and then all are moved to the trash; one that is
/// verified in vain is told of, and the directories are deleted from the bottom up instead.
pub proof fn targets_are_verified_in_turn(
    run: RunState,
    result: Result<bool, String>,
    next: RunState,
    said: Seq<Note>,
    action: DeleteAction,
    k: usize,
)
    requires
        run.phase == Phase::Verify(k),
        run.verifies(result, next, said),
        next.awaits(action),
        k < run.targets.len() <= usize::MAX,
    ensures
        next.nodes == run.nodes,
        next.deleted == run.deleted,
        next.failed == run.failed,
        next.cut_short == run.cut_short,
        result is Ok && k + 1 < run.targets.len() ==> action == DeleteAction::Verify(
            run.targets[k + 1],
        ) && said == Seq::<Note>::empty(),
        result is Ok && k + 1 == run.targets.len() ==> (action matches DeleteAction::TrashAll(list)
            && list@ == run.targets) && said == Seq::<Note>::empty(),
        result matches Err(e) ==> action is Poll && said == seq![
            Note::Log(
                "[!] Verification failed for "@
                    + run.nodes[run.targets[k as int] as int].path_str@ + ": "@ + e@,
                run.targets[k as int],
                FAILED,
            ),
        ],
{
}

/// Once the targets are in the trash every directory that counted as empty counts as deleted, and
/// each is told of, the shallowest first; if they could not be moved nothing changes, and the
/// directories are deleted from the bottom up instead.
pub proof fn trash_takes_all(
    run: RunState,
    result: Result<(), String>,
    next: RunState,
    said: Seq<Note>,
    action: DeleteAction,
)
    requires
        run.wf(),
        run.phase is Trash,
        run.trashes(result, next, said),
        next.awaits(action),
        run.listed.len() <= usize::MAX,
    ensures
        next.cut_short == run.cut_short,
        result is Ok ==> {
            &&& action is Finished
            &&& next.deleted == run.listed.len()
            &&& next.failed == 0
            &&& next.nodes.len() == run.nodes.len()
            &&& forall|i: int|
                0 <= i < run.nodes.len() ==> (#[trigger] next.nodes[i]).status == (
                if run.nodes[i].status == EMPTY {
                    DELETED
                } else {
                    run.nodes[i].status
                }) && next.nodes[i].path == run.nodes[i].path
            &&& said.len() == 2 * run.listed.len()
            &&& forall|k: int|
                0 <= k < run.listed.len() ==> said[2 * k] == Note::Log(
                    "Deleted (Trash): "@
                        + run.nodes[(#[trigger] run.listed[k]) as int].path_str@,
                    run.listed[k],
                    DELETED,
                ) && said[2 * k + 1] == Note::Progress((k + 1) as usize, run.listed.len() as usize)
        },
        result matches Err(e) ==> {
            &&& action is Poll
            &&& next.nodes == run.nodes
            &&& next.deleted == run.deleted
            &&& next.failed == run.failed
            &&& said == seq![
                Note::Log(
                    "[!] Batch Recycle Bin deletion failed: "@ + e@
                        + ". Falling back to safe bottom-up..."@,
                    0,
                    0,
                ),
            ]
        },
{
    lemma_trash_notes(run, run.listed.len() as int);
}

proof fn lemma_trash_notes(run: RunState, n: int)
    requires
        0 <= n <= run.listed.len(),
    ensures
        run.trash_notes(n).len() == 2 * n,
        forall|k: int|
            0 <= k < n ==> run.trash_notes(n)[2 * k] == Note::Log(
                "Deleted (Trash): "@ + run.nodes[(#[trigger] run.listed[k]) as int].path_str@,
                run.listed[k],
                DELETED,
            ) && run.trash_notes(n)[2 * k + 1] == Note::Progress(
                (k + 1) as usize,
                run.listed.len() as usize,
            ),
    decreases n,
{
    if n > 0 {
        lemma_trash_notes(run, n - 1);
        let before = run.trash_notes(n - 1);
        let i = run.listed[n - 1];
        assert forall|k: int| 0 <= k < n implies run.trash_notes(n)[2 * k] == Note::Log(
            "Deleted (Trash): "@ + run.nodes[(#[trigger] run.listed[k]) as int].path_str@,
            run.listed[k],
            DELETED,
        ) && run.trash_notes(n)[2 * k + 1] == Note::Progress(
            (k + 1) as usize,
            run.listed.len() as usize,
        ) by {
            if k < n - 1 {
                assert(run.trash_notes(n)[2 * k] == before[2 * k]);
                assert(run.trash_notes(n)[2 * k + 1] == before[2 * k + 1]);
            }
        }
    }
}

/// A set flag ends a run where it is: nothing more is tried, changed or told.
pub proof fn set_flag_ends_a_run(
    run: RunState,
    next: RunState,
    said: Seq<Note>,
    action: DeleteAction,
)
    requires
        run.polls(true, next, said),
        next.awaits(action),
    ensures
        action is Finished,
        next.cut_short,
        next.nodes == run.nodes,
        next.deleted == run.deleted,
        next.failed == run.failed,
        said == Seq::<Note>::empty(),
{
}

/// A group is handed out whole where there is no pause and it has more than one directory; else its
/// directories are gone through in turn.
pub proof fn groups_without_pause_go_together(
    run: RunState,
    next: RunState,
    said: Seq<Note>,
    action: DeleteAction,
    lo: usize,
)
    requires
        run.wf(),
        run.phase == Phase::Group(lo),
        run.polls(false, next, said),
        next.awaits(action),
        run.queue.len() <= usize::MAX,
    ensures
        said == Seq::<Note>::empty(),
        next.nodes == run.nodes,
        next.deleted == run.deleted,
        next.failed == run.failed,
        next.cut_short == run.cut_short,
        if run.settings.pause_ms == 0 && lo + 1 < run.queue.len()
            && run.start[run.queue[lo + 1] as int].depth == run.start[run.queue[lo as int] as int].depth {
            action matches DeleteAction::DeleteAll(list, dry_run) && dry_run
                == run.settings.dry_run && list@.len() > 1 && list@[0] == run.queue[lo as int]
        } else {
            action is Poll
        },
{
}

/// A group that is handed out holds all directories that still count as empty at the greatest depth
/// of any such, and no others.
pub proof fn group_is_the_deepest_level(run: RunState, action: DeleteAction, i: int)
    requires
        run.wf(),
        !run.cut_short,
        run.awaits(action),
        action is DeleteAll,
        0 <= i < run.nodes.len() <= usize::MAX,
    ensures
        action->DeleteAll_0@.contains(i as usize) == (run.nodes[i].status == EMPTY && forall|j: int|
            0 <= j < run.nodes.len() && (#[trigger] run.nodes[j]).status == EMPTY
                ==> run.nodes[j].depth <= run.nodes[i].depth),
{
    let list = action->DeleteAll_0@;
    let (lo, hi) = match run.phase {
        Phase::Parallel(lo, hi) => (lo as int, hi as int),
        _ => (0, 0),
    };
    let top = run.queue[lo] as int;
    assert forall|j: int| 0 <= j < run.nodes.len() && (#[trigger] run.nodes[j]).status
        == EMPTY implies exists|p: int| lo <= p < run.queue.len() && #[trigger] run.queue[p] == j by {
        lemma_still_queued(run, lo, j);
    }
    lemma_queue_nodes(run);
    if list.contains(i as usize) {
        let a = choose|a: int| 0 <= a < list.len() && list[a] == i as usize;
        assert(run.queue[lo + a] == i);
        assert forall|j: int|
            0 <= j < run.nodes.len() && (#[trigger] run.nodes[j]).status == EMPTY implies run.nodes[j].depth
            <= run.nodes[i].depth by {
            let p = choose|p: int| lo <= p < run.queue.len() && #[trigger] run.queue[p] == j;
            if p > lo {
                plan_goes_from_the_bottom(run, lo, p);
            }
        }
    }
    if run.nodes[i].status == EMPTY && forall|j: int|
        0 <= j < run.nodes.len() && (#[trigger] run.nodes[j]).status == EMPTY ==> run.nodes[j].depth
            <= run.nodes[i].depth {
        let p = choose|p: int| lo <= p < run.queue.len() && #[trigger] run.queue[p] == i;
        assert(run.nodes[top].status == EMPTY);
        if p > lo {
            plan_goes_from_the_bottom(run, lo, p);
        }
        if p >= hi {
            if p > hi {
                plan_goes_from_the_bottom(run, hi, p);
            }
            plan_goes_from_the_bottom(run, lo, hi);
        }
        assert(list[p - lo] == i);
    }
}

proof fn lemma_queue_nodes(run: RunState)
    requires
        run.wf(),
    ensures
        forall|p: int|
            0 <= p < run.queue.len() ==> (#[trigger] run.queue[p]) < run.nodes.len()
                && run.nodes[run.queue[p] as int].depth == run.start[run.queue[p] as int].depth,
        forall|j: int|
            0 <= j < run.nodes.len() ==> (#[trigger] run.nodes[j]).depth == run.start[j].depth,
        run.nodes.len() == run.start.len(),
{
    assert forall|j: int| 0 <= j < run.nodes.len() implies (#[trigger] run.nodes[j]).depth
        == run.start[j].depth by {
        assert(run.nodes[j] == (DirectoryNode { status: run.nodes[j].status, ..run.start[j] }));
    }
    assert forall|p: int| 0 <= p < run.queue.len() implies (#[trigger] run.queue[p])
        < run.nodes.len() && run.nodes[run.queue[p] as int].depth
        == run.start[run.queue[p] as int].depth by {
        assert(run.listed.contains(run.queue[p]));
        let b = choose|b: int| 0 <= b < run.listed.len() && run.listed[b] == run.queue[p];
        assert(run.listed[b] < run.start.len());
        assert(run.nodes[run.queue[p] as int].depth == run.start[run.queue[p] as int].depth);
    }
}

proof fn lemma_still_queued(run: RunState, lo: int, j: int)
    requires
        run.wf(),
        !run.cut_short,
        run.pending(lo),
        0 <= j < run.nodes.len() <= usize::MAX,
        run.nodes[j].status == EMPTY,
    ensures
        exists|p: int| lo <= p < run.queue.len() && #[trigger] run.queue[p] == j,
{
    assert(run.start[j].status == EMPTY);
    plan_holds_all_that_is_empty(run, j);
    let p = choose|p: int| 0 <= p < run.queue.len() && run.queue[p] == j as usize;
    assert(run.queue[p] == j);
}

/// What came of a directory of a group decides its status, the counts and what is told: one that was
/// deleted, or would be, counts as deleted, one that failed as failed, and one that was left out
/// stays as it is. A failure ends the run unless errors are passed over; else the next directory of
/// the group follows, then the next group, and then the end.
pub proof fn outcome_is_taken_in(
    run: RunState,
    next: RunState,
    said: Seq<Note>,
    at: usize,
    hi: usize,
    outcome: ItemOutcome,
)
    requires
        run.wf(),
        run.phase == Phase::Settle(at, hi),
        run.polls(false, next, said),
        outcome == run.outcomes[run.outcomes.len() - (hi - at)],
    ensures
        ({
            let i = run.queue[at as int];
            let path = run.nodes[i as int].path_str@;
            let step = Note::Progress(
                (run.deleted + run.failed + 1) as usize,
                run.queue.len() as usize,
            );
            &&& match outcome {
                ItemOutcome::Cancelled => {
                    &&& next.nodes == run.nodes
                    &&& next.deleted == run.deleted
                    &&& next.failed == run.failed
                    &&& next.cut_short
                    &&& said == Seq::<Note>::empty()
                },
                ItemOutcome::DryRun => {
                    &&& next.nodes == run.nodes.update(
                        i as int,
                        DirectoryNode { status: DELETED, ..run.nodes[i as int] },
                    )
                    &&& next.deleted == run.deleted + 1
                    &&& next.failed == run.failed
                    &&& next.cut_short == run.cut_short
                    &&& said == seq![
                        step,
                        Note::Log("[Dry-Run] Would delete: "@ + path, i, DELETED),
                    ]
                },
                ItemOutcome::Deleted => {
                    &&& next.nodes == run.nodes.update(
                        i as int,
                        DirectoryNode { status: DELETED, ..run.nodes[i as int] },
                    )
                    &&& next.deleted == run.deleted + 1
                    &&& next.failed == run.failed
                    &&& next.cut_short == run.cut_short
                    &&& said == seq![step, Note::Log("Deleted: "@ + path, i, DELETED)]
                },
                ItemOutcome::Failed(e) => {
                    let line = Note::Log(
                        "Failed to delete "@ + path + ": "@ + e@,
                        i,
                        FAILED,
                    );
                    &&& next.nodes == run.nodes.update(
                        i as int,
                        DirectoryNode { status: FAILED, ..run.nodes[i as int] },
                    )
                    &&& next.deleted == run.deleted
                    &&& next.failed == run.failed + 1
                    &&& if run.settings.ignore_errors {
                        &&& next.cut_short == run.cut_short
                        &&& said == seq![step, line]
                    } else {
                        &&& next.cut_short
                        &&& said == seq![
                            step,
                            line,
                            Note::Log("Aborting deletion due to error."@, i, FAILED),
                        ]
                    }
                },
            }
            &&& next.phase == if outcome is Failed && !run.settings.ignore_errors {
                Phase::Done
            } else if at + 1 < hi {
                Phase::Settle((at + 1) as usize, hi)
            } else if hi < run.queue.len() {
                Phase::Group(hi)
            } else {
                Phase::Done
            }
        }),
{
    let i = run.queue[at as int];
    let path = run.nodes[i as int].path_str@;
    let step = Note::Progress((run.deleted + run.failed + 1) as usize, run.queue.len() as usize);
    if let ItemOutcome::Failed(e) = outcome {
        let line = Note::Log("Failed to delete "@ + path + ": "@ + e@, i, FAILED);
        let stop = Note::Log("Aborting deletion due to error."@, i, FAILED);
        assert(seq![step, line].push(stop) =~= seq![step, line, stop]);
    }
}

/// A directory whose turn comes is deleted, or, in a dry run, told of and counted as deleted.
pub proof fn turn_of_a_directory(
    run: RunState,
    next: RunState,
    said: Seq<Note>,
    action: DeleteAction,
    at: usize,
    hi: usize,
)
    requires
        run.wf(),
        run.phase == Phase::ItemPoll(at, hi),
        run.polls(false, next, said),
        next.awaits(action),
    ensures
        next.cut_short == run.cut_short,
        next.failed == run.failed,
        !run.settings.dry_run ==> {
            &&& action == DeleteAction::DeleteOne(run.queue[at as int])
            &&& next.nodes == run.nodes
            &&& next.deleted == run.deleted
            &&& said == Seq::<Note>::empty()
        },
        run.settings.dry_run ==> {
            let i = run.queue[at as int];
            &&& next.nodes == run.nodes.update(
                i as int,
                DirectoryNode { status: DELETED, ..run.nodes[i as int] },
            )
            &&& next.deleted == run.deleted + 1
            &&& said == seq![
                Note::Log(
                    "[Dry-Run] Would delete: "@ + run.nodes[i as int].path_str@,
                    i,
                    DELETED,
                ),
                Note::Progress(
                    (run.deleted + run.failed + 1) as usize,
                    run.queue.len() as usize,
                ),
            ]
            &&& next.phase == if at + 1 < hi {
                Phase::ItemPoll((at + 1) as usize, hi)
            } else if hi < run.queue.len() {
                Phase::Group(hi)
            } else {
                Phase::Done
            }
        },
{
}

/// A directory that was tried on its own counts as deleted or as failed, by what came of it, and is
/// told of. A failure ends the run unless errors are passed over; else a pause follows if there is to
/// be one, and then the next directory.
pub proof fn result_of_a_directory(
    run: RunState,
    result: Result<(), String>,
    next: RunState,
    said: Seq<Note>,
    at: usize,
    hi: usize,
)
    requires
        run.wf(),
        run.phase == Phase::Item(at, hi),
        run.tried(result, next, said),
    ensures
        ({
            let i = run.queue[at as int];
            let path = run.nodes[i as int].path_str@;
            let step = Note::Progress(
                (run.deleted + run.failed + 1) as usize,
                run.queue.len() as usize,
            );
            &&& match result {
                Ok(_) => {
                    &&& next.nodes == run.nodes.update(
                        i as int,
                        DirectoryNode { status: DELETED, ..run.nodes[i as int] },
                    )
                    &&& next.deleted == run.deleted + 1
                    &&& next.failed == run.failed
                    &&& next.cut_short == run.cut_short
                    &&& said == seq![Note::Log("Deleted: "@ + path, i, DELETED), step]
                },
                Err(e) => {
                    let line = Note::Log(
                        "Failed to delete "@ + path + ": "@ + e@,
                        i,
                        FAILED,
                    );
                    &&& next.nodes == run.nodes.update(
                        i as int,
                        DirectoryNode { status: FAILED, ..run.nodes[i as int] },
                    )
                    &&& next.deleted == run.deleted
                    &&& next.failed == run.failed + 1
                    &&& if run.settings.ignore_errors {
                        &&& next.cut_short == run.cut_short
                        &&& said == seq![line, step]
                    } else {
                        &&& next.cut_short
                        &&& said == seq![
                            line,
                            Note::Log("Aborting deletion due to error."@, i, FAILED),
                        ]
                    }
                },
            }
            &&& next.phase == if result is Err && !run.settings.ignore_errors {
                Phase::Done
            } else if run.settings.pause_ms > 0 {
                Phase::Pausing(at, hi)
            } else if at + 1 < hi {
                Phase::ItemPoll((at + 1) as usize, hi)
            } else if hi < run.queue.len() {
                Phase::Group(hi)
            } else {
                Phase::Done
            }
        }),
{
}

/// A pause lasts as long as the settings say, and changes nothing but that the next directory
/// follows.
pub proof fn pause_changes_nothing(
    run: RunState,
    next: RunState,
    action: DeleteAction,
    at: usize,
    hi: usize,
)
    requires
        run.phase == Phase::Pausing(at, hi),
        run.awaits(action),
        run.resumes(next),
    ensures
        action == DeleteAction::Pause(run.settings.pause_ms),
        next.nodes == run.nodes,
        next.deleted == run.deleted,
        next.failed == run.failed,
        next.cut_short == run.cut_short,
        next.phase == if at + 1 < hi {
            Phase::ItemPoll((at + 1) as usize, hi)
        } else if hi < run.queue.len() {
            Phase::Group(hi)
        } else {
            Phase::Done
        },
{
}

/// What came of a group is taken in from its first directory on, one outcome for each.
pub proof fn outcomes_belong_to_their_directories(
    run: RunState,
    outcomes: Seq<ItemOutcome>,
    next: RunState,
    lo: usize,
    hi: usize,
)
    requires
        run.wf(),
        run.phase == Phase::Parallel(lo, hi),
        outcomes.len() == hi - lo,
        run.takes_group(outcomes, next),
    ensures
        next.phase == Phase::Settle(lo, hi),
        next.outcomes == outcomes,
        next.nodes == run.nodes,
        next.deleted == run.deleted,
        next.failed == run.failed,
        next.cut_short == run.cut_short,
        next.queue == run.queue,
        forall|k: int|
            0 <= k < hi - lo ==> next.outcomes[next.outcomes.len() - (hi - (lo + k))]
                == #[trigger] outcomes[k],
{
}

/// The counts of a run are those of the directories that counted as empty at its start and were
/// deleted, or failed, since.
pub proof fn counts_are_those_of_the_tree(run: RunState, s: i32)
    requires
        run.wf(),
        s == DELETED || s == FAILED,
        run.start.len() <= usize::MAX,
    ensures
        ({
            let settled = Set::new(
                |i: int|
                    0 <= i < run.nodes.len() && run.start[i].status == EMPTY && run.nodes[i].status
                        == s,
            );
            settled.finite() && settled.len() == if s == DELETED {
                run.deleted
            } else {
                run.failed
            }
        }),
{
    let settled = Set::new(
        |i: int|
            0 <= i < run.nodes.len() && run.start[i].status == EMPTY && run.nodes[i].status == s,
    );
    let first = first_with(run.nodes, run.queue, run.queue.len() as int, s);
    lemma_queue_nodes(run);
    assert forall|a: int, b: int| 0 <= a < b < run.queue.len() implies #[trigger] run.queue[a]
        != #[trigger] run.queue[b] by {
        plan_goes_from_the_bottom(run, a, b);
    }
    lemma_tally_counts(run.nodes, run.queue, run.queue.len() as int, s);
    assert(run.queue.take(run.queue.len() as int) =~= run.queue);
    assert forall|i: int| first.contains(i) == settled.contains(i) by {
        if first.contains(i) {
            let a = choose|a: int|
                0 <= a < run.queue.len() && #[trigger] run.queue[a] == i && run.nodes[i].status == s;
            plan_holds_all_that_is_empty(run, i);
            assert(run.queue.contains(i as usize)) by {
                assert(run.queue[a] == i as usize);
            }
        }
        if settled.contains(i) {
            plan_holds_all_that_is_empty(run, i);
            let a = choose|a: int| 0 <= a < run.queue.len() && run.queue[a] == i as usize;
            assert(run.queue[a] == i);
        }
    }
    assert(first =~= settled);
}

/// The nodes with a status at the first `n` places of a list.
spec fn first_with(nodes: Seq<DirectoryNode>, list: Seq<usize>, n: int, s: i32) -> Set<int> {
    Set::new(
        |i: int|
            exists|a: int| 0 <= a < n && #[trigger] list[a] == i && nodes[i].status == s,
    )
}

proof fn lemma_tally_counts(nodes: Seq<DirectoryNode>, list: Seq<usize>, n: int, s: i32)
    requires
        0 <= n <= list.len(),
        forall|a: int, b: int|
            0 <= a < b < list.len() ==> #[trigger] list[a] != #[trigger] list[b],
    ensures
        first_with(nodes, list, n, s).finite(),
        first_with(nodes, list, n, s).len() == tally(nodes, list.take(n), s),
    decreases n,
{
    if n == 0 {
        assert(first_with(nodes, list, n, s) =~= Set::<int>::empty());
    } else {
        lemma_tally_counts(nodes, list, n - 1, s);
        assert(list.take(n).drop_last() =~= list.take(n - 1));
        let before = first_with(nodes, list, n - 1, s);
        let now = first_with(nodes, list, n, s);
        let i = list[n - 1] as int;
        assert(list.take(n).last() == list[n - 1]);
        assert(!before.contains(i)) by {
            if before.contains(i) {
                let a = choose|a: int|
                    0 <= a < n - 1 && #[trigger] list[a] == i && nodes[i].status == s;
                assert(list[a] != list[n - 1]);
            }
        }
        assert forall|k: int| now.contains(k) == (before.contains(k) || (k == i && nodes[i].status
            == s)) by {
            if before.contains(k) {
                let a = choose|a: int|
                    0 <= a < n - 1 && #[trigger] list[a] == k && nodes[k].status == s;
                assert(list[a] == k);
            }
            if k == i && nodes[i].status == s {
                assert(list[n - 1] == k);
            }
        }
        if nodes[i].status == s {
            assert(now =~= before.insert(i));
        } else {
            assert(now =~= before);
        }
    }
}

/// A directory that is deleted on its own is the first in the tree among the deepest that still
/// count as empty.
pub proof fn next_is_the_deepest(run: RunState, i: usize, j: int)
    requires
        run.wf(),
        !run.cut_short,
        run.awaits(DeleteAction::DeleteOne(i)),
        0 <= j < run.nodes.len() <= usize::MAX,
        run.nodes[j].status == EMPTY,
    ensures
        i < run.nodes.len(),
        run.nodes[i as int].status == EMPTY,
        run.nodes[j].depth < run.nodes[i as int].depth || (run.nodes[j].depth
            == run.nodes[i as int].depth && i <= j),
{
    lemma_queue_nodes(run);
    if let Phase::Item(at, _) = run.phase {
        lemma_still_queued(run, at as int, j);
        let p = choose|p: int| at <= p < run.queue.len() && #[trigger] run.queue[p] == j;
        if p > at {
            plan_goes_from_the_bottom(run, at as int, p);
        }
    }
}

} // verus!

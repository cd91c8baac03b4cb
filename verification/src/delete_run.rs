//! A run that deletes the empty directories of a tree: after each event, what to tell and what to
//! do next.

use crate::delete::{
    bottom_up, covers, delete_targets, empty_by_depth, is_bottom_up, is_target,
    lemma_tally_all, lemma_tally_bounds, lemma_tally_change, lists_empty, shallower, tally,
    DeleteSettings,
};
use crate::text::{cat, cat3};
use crate::tree::{DirectoryNode, DELETED, EMPTY, FAILED};
use vstd::prelude::*;
use vstd::string::*;

verus! {

/// Something to tell about a run.
pub enum Notice {
    /// A line of the log, with the position of a node and a status for it.
    Log(String, usize, i32),
    /// How many of how many directories are done.
    Progress(usize, usize),
}

/// What a notice says.
pub enum Note {
    Log(Seq<char>, usize, i32),
    Progress(usize, usize),
}

impl View for Notice {
    type V = Note;

    open spec fn view(&self) -> Note {
        match *self {
            Notice::Log(msg, index, status) => Note::Log(msg@, index, status),
            Notice::Progress(done, total) => Note::Progress(done, total),
        }
    }
}

/// What a list of notices says.
pub open spec fn notes(list: Seq<Notice>) -> Seq<Note> {
    list.map_values(|n: Notice| n@)
}

/// What came of one directory of a group.
pub enum ItemOutcome {
    /// The flag was seen set before the directory was tried.
    Cancelled,
    /// The directory would have been deleted.
    DryRun,
    Deleted,
    Failed(String),
}

/// What comes of a directory of a group without a try: it is left out after a cancellation, and
/// in a dry run it is not touched.
pub fn before_item(cancelled: bool, dry_run: bool) -> (outcome: Option<ItemOutcome>)
    ensures
        outcome == (if cancelled {
            Some(ItemOutcome::Cancelled)
        } else if dry_run {
            Some(ItemOutcome::DryRun)
        } else {
            None
        }),
{
    if cancelled {
        Some(ItemOutcome::Cancelled)
    } else if dry_run {
        Some(ItemOutcome::DryRun)
    } else {
        None
    }
}

/// What came of a directory of a group that was tried.
pub fn after_item(result: Result<(), String>) -> (outcome: ItemOutcome)
    ensures
        outcome == (match result {
            Ok(_) => ItemOutcome::Deleted,
            Err(e) => ItemOutcome::Failed(e),
        }),
{
    match result {
        Ok(_) => ItemOutcome::Deleted,
        Err(e) => ItemOutcome::Failed(e),
    }
}

/// Where a run stands.
pub enum Phase {
    /// Target `k` is to be cleaned and verified.
    Verify(usize),
    /// The targets are to be moved to the trash together.
    Trash,
    /// The group that starts at `lo` of the queue is next, unless the run is cancelled.
    Group(usize),
    /// The group `lo..hi` of the queue is to be deleted.
    Parallel(usize, usize),
    /// What came of place `at` of the queue is to be taken in, unless the run is cancelled; the
    /// group ends at `hi`.
    Settle(usize, usize),
    /// Place `at` of the queue is next, unless the run is cancelled; the group ends at `hi`.
    ItemPoll(usize, usize),
    /// Place `at` of the queue is to be deleted; the group ends at `hi`.
    Item(usize, usize),
    /// A pause is due after place `at` of the queue; the group ends at `hi`.
    Pausing(usize, usize),
    /// Nothing is left to do.
    Done,
}

/// What a run needs done next.
pub enum DeleteAction {
    /// Clean and verify the directory of a node.
    Verify(usize),
    /// Move the directories of the nodes to the trash, all at once.
    TrashAll(Vec<usize>),
    /// Look whether the run is cancelled.
    Poll,
    /// Delete the directories of the nodes, or only say so where it is a dry run.
    DeleteAll(Vec<usize>, bool),
    /// Delete the directory of a node.
    DeleteOne(usize),
    /// Wait for some milliseconds.
    Pause(u32),
    /// The run is over.
    Finished,
}

/// A state of a run.
pub struct RunState {
    pub nodes: Seq<DirectoryNode>,
    pub settings: DeleteSettings,
    /// The nodes that count as empty, the shallowest first.
    pub listed: Seq<usize>,
    /// The topmost of them.
    pub targets: Seq<usize>,
    /// All of them, the deepest first.
    pub queue: Seq<usize>,
    /// What came of the group that is being taken in.
    pub outcomes: Seq<ItemOutcome>,
    pub phase: Phase,
    pub deleted: usize,
    pub failed: usize,
    /// Whether some directory was left out: after a cancellation or an error that ends the run.
    pub cut_short: bool,
    /// The nodes as they were at the start.
    pub start: Seq<DirectoryNode>,
}

/// A run over the directories of a tree.
pub struct DeleteRun {
    nodes: Vec<DirectoryNode>,
    settings: DeleteSettings,
    listed: Vec<usize>,
    targets: Vec<usize>,
    queue: Vec<usize>,
    outcomes: Vec<ItemOutcome>,
    phase: Phase,
    deleted: usize,
    failed: usize,
    cut_short: bool,
    start: Ghost<Seq<DirectoryNode>>,
}

impl View for DeleteRun {
    type V = RunState;

    closed spec fn view(&self) -> RunState {
        RunState {
            nodes: self.nodes@,
            settings: self.settings,
            listed: self.listed@,
            targets: self.targets@,
            queue: self.queue@,
            outcomes: self.outcomes@,
            phase: self.phase,
            deleted: self.deleted,
            failed: self.failed,
            cut_short: self.cut_short,
            start: self.start@,
        }
    }
}

/// Whether a deletion tries the trash first, with all targets at once.
pub open spec fn batches(settings: DeleteSettings) -> bool {
    settings.move_to_trash && !settings.dry_run && settings.pause_ms == 0
}

/// Whether `now` differs from `start` at most in the status of nodes that counted as empty, each
/// of which counts as empty still, or was deleted, or failed.
pub open spec fn only_settled(start: Seq<DirectoryNode>, now: Seq<DirectoryNode>) -> bool {
    &&& now.len() == start.len()
    &&& forall|i: int|
        0 <= i < start.len() ==> (#[trigger] now[i]) == (DirectoryNode {
            status: now[i].status,
            ..start[i]
        })
    &&& forall|i: int|
        0 <= i < start.len() ==> (#[trigger] now[i]).status == start[i].status || (start[i].status
            == EMPTY && (now[i].status == DELETED || now[i].status == FAILED))
}

/// Whether the places `lo..hi` of the queue are the nodes of one depth, from `lo` on.
pub open spec fn is_group(nodes: Seq<DirectoryNode>, queue: Seq<usize>, lo: int, hi: int) -> bool {
    &&& 0 <= lo < hi <= queue.len()
    &&& forall|a: int|
        lo <= a < hi ==> nodes[#[trigger] queue[a] as int].depth == nodes[queue[lo] as int].depth
    &&& hi < queue.len() ==> nodes[queue[hi] as int].depth != nodes[queue[lo] as int].depth
}

impl RunState {
    /// Whether the places of the queue from `p` on are still to be done and, if nothing was left
    /// out, all places before are done.
    pub open spec fn pending(self, p: int) -> bool {
        &&& 0 <= p <= self.queue.len()
        &&& forall|a: int|
            p <= a < self.queue.len() ==> self.nodes[#[trigger] self.queue[a] as int].status
                == EMPTY
        &&& !self.cut_short ==> forall|a: int|
            0 <= a < p ==> self.nodes[#[trigger] self.queue[a] as int].status != EMPTY
    }

    /// Whether the run is where its phase says.
    pub open spec fn in_phase(self) -> bool {
        let len = self.queue.len();
        match self.phase {
            Phase::Verify(k) => batches(self.settings) && k < self.targets.len() && self.pending(0),
            Phase::Trash => batches(self.settings) && len > 0 && self.pending(0),
            Phase::Group(lo) => lo < len && self.pending(lo as int),
            Phase::Parallel(lo, hi) => {
                &&& is_group(self.start, self.queue, lo as int, hi as int)
                &&& self.settings.pause_ms == 0
                &&& hi - lo > 1
                &&& self.pending(lo as int)
            },
            Phase::Settle(at, hi) => {
                &&& hi - at <= self.outcomes.len()
                &&& is_group(self.start, self.queue, at as int, hi as int)
                &&& self.pending(at as int)
            },
            Phase::ItemPoll(at, hi) => {
                &&& is_group(self.start, self.queue, at as int, hi as int)
                &&& self.pending(at as int)
            },
            Phase::Item(at, hi) => {
                &&& is_group(self.start, self.queue, at as int, hi as int)
                &&& self.pending(at as int)
                &&& !self.settings.dry_run
            },
            Phase::Pausing(at, hi) => {
                &&& is_group(self.start, self.queue, at as int, hi as int)
                &&& self.pending(at + 1)
            },
            Phase::Done => !self.cut_short ==> self.pending(len as int),
        }
    }

    /// Whether the plan and the results of the run are consistent.
    pub open spec fn sound(self) -> bool {
        &&& lists_empty(self.start, self.listed)
        &&& self.targets == self.listed.filter(|i: usize| is_target(self.start, i as int))
        &&& is_bottom_up(self.start, self.listed, self.queue)
        &&& only_settled(self.start, self.nodes)
        &&& self.deleted == tally(self.nodes, self.queue, DELETED)
        &&& self.failed == tally(self.nodes, self.queue, FAILED)
    }

    /// Whether the run ends with the first failure, unless errors are passed over.
    pub open spec fn ends_with_failure(self) -> bool {
        !self.settings.ignore_errors ==> self.failed == 0 || (self.failed == 1
            && self.phase is Done)
    }

    /// Whether the run is consistent.
    pub open spec fn wf(self) -> bool {
        self.sound() && self.in_phase() && self.ends_with_failure()
    }

    /// Whether `next` is a later state of this run.
    pub open spec fn same_run(self, next: RunState) -> bool {
        &&& next.settings == self.settings
        &&& next.listed == self.listed
        &&& next.targets == self.targets
        &&& next.queue == self.queue
        &&& next.start == self.start
    }

    /// Whether `next` is a later state of this run with nothing new about any directory.
    pub open spec fn same_results(self, next: RunState) -> bool {
        &&& self.same_run(next)
        &&& next.nodes == self.nodes
        &&& next.deleted == self.deleted
        &&& next.failed == self.failed
    }

    /// Whether `next` is a later state of this run in which node `i` has the status `s`, and else
    /// nothing is new about any directory.
    pub open spec fn settles(self, next: RunState, i: int, s: i32) -> bool {
        &&& self.same_run(next)
        &&& next.nodes == self.nodes.update(i, DirectoryNode { status: s, ..self.nodes[i] })
        &&& next.deleted == self.deleted + if s == DELETED {
            1int
        } else {
            0
        }
        &&& next.failed == self.failed + if s == FAILED {
            1int
        } else {
            0
        }
    }

    /// The phase after place `at` of the queue, in a group that ends at `hi`.
    pub open spec fn after(self, at: int, hi: int, in_turn: bool) -> Phase {
        if at + 1 < hi {
            if in_turn {
                Phase::ItemPoll((at + 1) as usize, hi as usize)
            } else {
                Phase::Settle((at + 1) as usize, hi as usize)
            }
        } else if hi < self.queue.len() {
            Phase::Group(hi as usize)
        } else {
            Phase::Done
        }
    }

    /// What the run needs done next.
    pub open spec fn awaits(self, action: DeleteAction) -> bool {
        match self.phase {
            Phase::Verify(k) => action == DeleteAction::Verify(self.targets[k as int]),
            Phase::Trash => action matches DeleteAction::TrashAll(list) && list@ == self.targets,
            Phase::Group(_) | Phase::Settle(_, _) | Phase::ItemPoll(_, _) => action
                == DeleteAction::Poll,
            Phase::Parallel(lo, hi) => action matches DeleteAction::DeleteAll(list, dry_run)
                && list@ == self.queue.subrange(lo as int, hi as int) && dry_run
                == self.settings.dry_run,
            Phase::Item(at, _) => action == DeleteAction::DeleteOne(self.queue[at as int]),
            Phase::Pausing(_, _) => action == DeleteAction::Pause(self.settings.pause_ms),
            Phase::Done => action == DeleteAction::Finished,
        }
    }

    /// A number that every event makes smaller.
    pub open spec fn steps_left(self) -> int {
        let n = self.queue.len() as int;
        match self.phase {
            Phase::Verify(k) => 5 * n + 6 + self.targets.len() - k,
            Phase::Trash => 5 * n + 6,
            Phase::Group(lo) => 5 * (n - lo) + 5,
            Phase::Parallel(lo, _) => 5 * (n - lo) + 4,
            Phase::Settle(at, _) => 5 * (n - at) + 3,
            Phase::ItemPoll(at, _) => 5 * (n - at) + 3,
            Phase::Item(at, _) => 5 * (n - at) + 2,
            Phase::Pausing(at, _) => 5 * (n - at) + 1,
            Phase::Done => 0,
        }
    }

    /// The text of the path of node `i`.
    pub open spec fn path_text(self, i: int) -> Seq<char> {
        self.nodes[i].path_str@
    }
}

/// A copy of the places `lo..hi` of a list of positions.
fn copy_range(list: &Vec<usize>, lo: usize, hi: usize) -> (copy: Vec<usize>)
    requires
        lo <= hi <= list@.len(),
    ensures
        copy@ == list@.subrange(lo as int, hi as int),
{
    let mut copy: Vec<usize> = Vec::new();
    let mut i: usize = lo;
    while i < hi
        invariant
            lo <= i <= hi <= list@.len(),
            copy@ == list@.subrange(lo as int, i as int),
        decreases hi - i,
    {
        copy.push(list[i]);
        assert(list@.subrange(lo as int, i + 1) == list@.subrange(lo as int, i as int).push(
            list@[i as int],
        ));
        i += 1;
    }
    copy
}

/// Begins to delete the directories of the nodes that count as empty.
pub fn delete_empty_dirs(nodes: Vec<DirectoryNode>, settings: DeleteSettings) -> (r: (DeleteRun, Vec<Notice>))
    ensures
        r.0@.wf(),
        r.0@.begins(nodes@, settings, notes(r.1@)),
{
    let ghost start = nodes@;
    let count = nodes.len();
    let listed = empty_by_depth(&nodes);
    let targets = delete_targets(&nodes, &listed);
    let queue = bottom_up(&nodes, &listed);
    let mut notices: Vec<Notice> = Vec::new();
    let ghost none = notes(notices@);
    assert(none =~= Seq::<Note>::empty());
    let batch = settings.move_to_trash && !settings.dry_run && settings.pause_ms == 0;
    let phase = if queue.len() == 0 {
        Phase::Done
    } else if batch {
        notices.push(
            Notice::Log(
                "[*] Attempting batch deletion to Recycle Bin (Root-Chop)...".to_owned(),
                0,
                0,
            ),
        );
        assert(notes(notices@) =~= none.push(notices@[0]@));
        Phase::Verify(0)
    } else {
        Phase::Group(0)
    };
    proof {
        assert forall|a: int| 0 <= a < queue@.len() implies start[#[trigger] queue@[a] as int].status
            == EMPTY by {
            assert(listed@.contains(queue@[a]));
            let b = choose|b: int| 0 <= b < listed@.len() && listed@[b] == queue@[a];
            assert(start[listed@[b] as int].status == EMPTY);
        }
        lemma_tally_all(start, queue@, EMPTY, DELETED);
        lemma_tally_all(start, queue@, EMPTY, FAILED);
        if queue@.len() > 0 {
            lemma_some_target(start, listed@);
        }
    }
    (
        DeleteRun {
            nodes,
            settings,
            listed,
            targets,
            queue,
            outcomes: Vec::new(),
            phase,
            deleted: 0,
            failed: 0,
            cut_short: false,
            start: Ghost(start),
        },
        notices,
    )
}

impl DeleteRun {
    /// The nodes as they are now.
    pub fn nodes(&self) -> (nodes: &Vec<DirectoryNode>)
        ensures
            nodes@ == self@.nodes,
    {
        &self.nodes
    }

    /// How many directories were deleted.
    pub fn deleted(&self) -> (n: usize)
        ensures
            n == self@.deleted,
    {
        self.deleted
    }

    /// How many directories could not be deleted.
    pub fn failed(&self) -> (n: usize)
        ensures
            n == self@.failed,
    {
        self.failed
    }

    /// Whether some directory was left out.
    pub fn cut_short(&self) -> (r: bool)
        ensures
            r == self@.cut_short,
    {
        self.cut_short
    }

    /// The nodes as the run leaves them.
    pub fn into_nodes(self) -> (nodes: Vec<DirectoryNode>)
        ensures
            nodes@ == self@.nodes,
    {
        self.nodes
    }

    /// What the run needs done next.
    pub fn action(&self) -> (action: DeleteAction)
        requires
            self@.wf(),
        ensures
            self@.awaits(action),
    {
        match self.phase {
            Phase::Verify(k) => DeleteAction::Verify(self.targets[k]),
            Phase::Trash => {
                let list = copy_range(&self.targets, 0, self.targets.len());
                assert(list@ =~= self.targets@);
                DeleteAction::TrashAll(list)
            },
            Phase::Group(_) | Phase::Settle(_, _) | Phase::ItemPoll(_, _) => DeleteAction::Poll,
            Phase::Parallel(lo, hi) => DeleteAction::DeleteAll(
                copy_range(&self.queue, lo, hi),
                self.settings.dry_run,
            ),
            Phase::Item(at, _) => DeleteAction::DeleteOne(self.queue[at]),
            Phase::Pausing(_, _) => DeleteAction::Pause(self.settings.pause_ms),
            Phase::Done => DeleteAction::Finished,
        }
    }

    /// Gives the node at place `at` of the queue its status.
    fn mark(&mut self, at: usize, status: i32)
        requires
            old(self)@.sound(),
            old(self)@.pending(at as int),
            at < old(self)@.queue.len(),
            status == DELETED || status == FAILED,
        ensures
            final(self)@.sound(),
            final(self)@.pending(at + 1),
            old(self)@.settles(final(self)@, old(self)@.queue[at as int] as int, status),
            final(self)@.phase == old(self)@.phase,
            final(self)@.cut_short == old(self)@.cut_short,
            final(self)@.outcomes == old(self)@.outcomes,
    {
        let ghost before = self.nodes@;
        let ghost queue = self.queue@;
        let i: usize = self.queue[at];
        let total = self.queue.len();
        proof {
            lemma_queue(self@);
        }
        self.nodes[i].status = status;
        proof {
            let after = self.nodes@;
            assert(after == before.update(
                i as int,
                DirectoryNode { status, ..before[i as int] },
            ));
            assert forall|a: int| 0 <= a < queue.len() && a != at implies after[#[trigger] queue[a] as int].status
                == before[queue[a] as int].status by {
                assert(queue[a] != queue[at as int]);
            }
            lemma_tally_change(before, after, queue, at as int, DELETED);
            lemma_tally_change(before, after, queue, at as int, FAILED);
            lemma_tally_bounds(after, queue);
        }
        if status == DELETED {
            self.deleted = self.deleted + 1;
        } else {
            self.failed = self.failed + 1;
        }
    }
}

/// The line about a directory that was verified in vain.
pub open spec fn verify_failed_line(path: Seq<char>, e: Seq<char>) -> Seq<char> {
    "[!] Verification failed for "@ + path + ": "@ + e
}

/// The line about targets that could not be moved to the trash.
pub open spec fn batch_failed_line(e: Seq<char>) -> Seq<char> {
    "[!] Batch Recycle Bin deletion failed: "@ + e + ". Falling back to safe bottom-up..."@
}

/// The line about a directory that could not be deleted.
pub open spec fn failed_line(path: Seq<char>, e: Seq<char>) -> Seq<char> {
    "Failed to delete "@ + path + ": "@ + e
}

/// The status that an outcome gives to a node.
pub open spec fn outcome_status(outcome: ItemOutcome) -> i32 {
    match outcome {
        ItemOutcome::Cancelled => EMPTY,
        ItemOutcome::DryRun => DELETED,
        ItemOutcome::Deleted => DELETED,
        ItemOutcome::Failed(_) => FAILED,
    }
}

/// The line about an outcome.
pub open spec fn outcome_line(outcome: ItemOutcome, path: Seq<char>) -> Seq<char> {
    match outcome {
        ItemOutcome::Cancelled => "Cancelled"@,
        ItemOutcome::DryRun => "[Dry-Run] Would delete: "@ + path,
        ItemOutcome::Deleted => "Deleted: "@ + path,
        ItemOutcome::Failed(e) => failed_line(path, e@),
    }
}

/// The line about an error that ends the run.
pub open spec fn abort_note(i: usize) -> Note {
    Note::Log("Aborting deletion due to error."@, i, FAILED)
}

impl RunState {
    /// What is told of the first `k` listed directories once all are in the trash.
    pub open spec fn trash_notes(self, k: int) -> Seq<Note>
        decreases k,
    {
        if k <= 0 {
            Seq::empty()
        } else {
            let i = self.listed[k - 1];
            self.trash_notes(k - 1).push(
                Note::Log("Deleted (Trash): "@ + self.path_text(i as int), i, DELETED),
            ).push(Note::Progress(k as usize, self.listed.len() as usize))
        }
    }

    /// Whether the run goes on from this state to `next`, and tells `said`, when the flag is read
    /// before a group: the group is handed out whole if there is no pause and it has more than one
    /// directory, and is gone through in turn otherwise.
    pub open spec fn enters_group(self, lo: int, next: RunState, said: Seq<Note>) -> bool {
        &&& self.same_results(next)
        &&& !next.cut_short == !self.cut_short
        &&& said == Seq::<Note>::empty()
        &&& exists|hi: int| #[trigger]
            is_group(self.start, self.queue, lo, hi) && next.phase == (
            if self.settings.pause_ms == 0 && hi - lo > 1 {
                Phase::Parallel(lo as usize, hi as usize)
            } else {
                Phase::ItemPoll(lo as usize, hi as usize)
            })
    }

    /// Whether the run goes on from this state to `next`, and tells `said`, when the outcome of
    /// place `at` of the queue is taken in.
    pub open spec fn takes_in(
        self,
        at: int,
        hi: int,
        outcome: ItemOutcome,
        next: RunState,
        said: Seq<Note>,
    ) -> bool {
        let i = self.queue[at];
        let s = outcome_status(outcome);
        let told = seq![
            Note::Progress(
                (self.deleted + self.failed + 1) as usize,
                self.queue.len() as usize,
            ),
            Note::Log(outcome_line(outcome, self.path_text(i as int)), i, s),
        ];
        if outcome is Cancelled {
            &&& self.same_results(next)
            &&& next.cut_short
            &&& next.phase == self.after(at, hi, false)
            &&& said == Seq::<Note>::empty()
        } else if outcome is Failed && !self.settings.ignore_errors {
            &&& self.settles(next, i as int, s)
            &&& next.cut_short
            &&& next.phase == Phase::Done
            &&& said == told.push(abort_note(i))
        } else {
            &&& self.settles(next, i as int, s)
            &&& next.cut_short == self.cut_short
            &&& next.phase == self.after(at, hi, false)
            &&& said == told
        }
    }

    /// Whether the run goes on from this state to `next`, and tells `said`, when the flag was not
    /// set before place `at` of the queue, in a group that is gone through in turn.
    pub open spec fn tries(self, at: int, hi: int, next: RunState, said: Seq<Note>) -> bool {
        let i = self.queue[at];
        &&& next.cut_short == self.cut_short
        &&& if self.settings.dry_run {
            &&& self.settles(next, i as int, DELETED)
            &&& next.phase == self.after(at, hi, true)
            &&& said == seq![
                Note::Log(
                    outcome_line(ItemOutcome::DryRun, self.path_text(i as int)),
                    i,
                    DELETED,
                ),
                Note::Progress(
                    (self.deleted + self.failed + 1) as usize,
                    self.queue.len() as usize,
                ),
            ]
        } else {
            &&& self.same_results(next)
            &&& next.phase == Phase::Item(at as usize, hi as usize)
            &&& said == Seq::<Note>::empty()
        }
    }

    /// Whether this is a run at its beginning, which tells `said`: with nothing to delete it is
    /// over, with targets for the trash they are verified first, and else the first group is next.
    pub open spec fn begins(
        self,
        nodes: Seq<DirectoryNode>,
        settings: DeleteSettings,
        said: Seq<Note>,
    ) -> bool {
        &&& self.nodes == nodes
        &&& self.start == nodes
        &&& self.settings == settings
        &&& self.deleted == 0
        &&& self.failed == 0
        &&& !self.cut_short
        &&& self.phase == (if self.queue.len() == 0 {
            Phase::Done
        } else if batches(settings) {
            Phase::Verify(0)
        } else {
            Phase::Group(0)
        })
        &&& said == (if self.queue.len() > 0 && batches(settings) {
            seq![
                Note::Log(
                    "[*] Attempting batch deletion to Recycle Bin (Root-Chop)..."@,
                    0,
                    0,
                ),
            ]
        } else {
            Seq::empty()
        })
    }

    /// Whether the run goes on from this state to `next`, and tells `said`, when a target was
    /// verified: with the next one or the trash, or, in vain, with the first group.
    pub open spec fn verifies(
        self,
        result: Result<bool, String>,
        next: RunState,
        said: Seq<Note>,
    ) -> bool {
        let k = self.phase->Verify_0;
        let i = self.targets[k as int];
        &&& self.same_results(next)
        &&& next.outcomes == self.outcomes
        &&& next.cut_short == self.cut_short
        &&& match result {
            Ok(_) => {
                &&& next.phase == (if k + 1 < self.targets.len() {
                    Phase::Verify((k + 1) as usize)
                } else {
                    Phase::Trash
                })
                &&& said == Seq::<Note>::empty()
            },
            Err(e) => {
                &&& next.phase == Phase::Group(0)
                &&& said == seq![
                    Note::Log(verify_failed_line(self.path_text(i as int), e@), i, FAILED),
                ]
            },
        }
    }

    /// Whether the run goes on from this state to `next`, and tells `said`, when the targets were
    /// moved to the trash, which ends it, or were not.
    pub open spec fn trashes(
        self,
        result: Result<(), String>,
        next: RunState,
        said: Seq<Note>,
    ) -> bool {
        &&& self.same_run(next)
        &&& next.outcomes == self.outcomes
        &&& next.cut_short == self.cut_short
        &&& match result {
            Ok(_) => {
                &&& next.phase == Phase::Done
                &&& next.deleted == self.queue.len()
                &&& next.failed == 0
                &&& next.nodes.len() == self.nodes.len()
                &&& forall|i: int|
                    0 <= i < self.nodes.len() ==> (#[trigger] next.nodes[i]) == (DirectoryNode {
                        status: if self.nodes[i].status == EMPTY {
                            DELETED
                        } else {
                            self.nodes[i].status
                        },
                        ..self.nodes[i]
                    })
                &&& said == self.trash_notes(self.listed.len() as int)
            },
            Err(e) => {
                &&& self.same_results(next)
                &&& next.phase == Phase::Group(0)
                &&& said == seq![Note::Log(batch_failed_line(e@), 0, 0)]
            },
        }
    }

    /// Whether the run goes on from this state to `next` when a group was handed out and came back.
    pub open spec fn takes_group(self, outcomes: Seq<ItemOutcome>, next: RunState) -> bool {
        &&& self.same_results(next)
        &&& next.cut_short == self.cut_short
        &&& next.outcomes == outcomes
        &&& next.phase == Phase::Settle(self.phase->Parallel_0, self.phase->Parallel_1)
    }

    /// Whether the run goes on from this state to `next`, and tells `said`, when a directory was
    /// tried on its own.
    pub open spec fn tried(self, result: Result<(), String>, next: RunState, said: Seq<Note>) -> bool {
        &&& next.outcomes == self.outcomes
        &&& self.ends_item(
            self.phase->Item_0 as int,
            self.phase->Item_1 as int,
            result,
            next,
            said,
        )
    }

    /// Whether the run goes on from this state to `next` after a pause.
    pub open spec fn resumes(self, next: RunState) -> bool {
        &&& self.same_results(next)
        &&& next.outcomes == self.outcomes
        &&& next.cut_short == self.cut_short
        &&& next.phase == self.after(
            self.phase->Pausing_0 as int,
            self.phase->Pausing_1 as int,
            true,
        )
    }

    /// Whether the run goes on from this state to `next`, and tells `said`, when the flag is read:
    /// a set flag ends the run.
    pub open spec fn polls(self, cancelled: bool, next: RunState, said: Seq<Note>) -> bool {
        &&& next.outcomes == self.outcomes
        &&& if cancelled {
            &&& self.same_results(next)
            &&& next.cut_short
            &&& next.phase == Phase::Done
            &&& said == Seq::<Note>::empty()
        } else {
            match self.phase {
                Phase::Group(lo) => self.enters_group(lo as int, next, said),
                Phase::Settle(at, hi) => self.takes_in(
                    at as int,
                    hi as int,
                    self.outcomes[self.outcomes.len() - (hi - at)],
                    next,
                    said,
                ),
                Phase::ItemPoll(at, hi) => self.tries(at as int, hi as int, next, said),
                _ => true,
            }
        }
    }

    /// Whether the run goes on from this state to `next`, and tells `said`, when place `at` of the
    /// queue was deleted or failed, in a group that is gone through in turn.
    pub open spec fn ends_item(
        self,
        at: int,
        hi: int,
        result: Result<(), String>,
        next: RunState,
        said: Seq<Note>,
    ) -> bool {
        let i = self.queue[at];
        let progress = Note::Progress(
            (self.deleted + self.failed + 1) as usize,
            self.queue.len() as usize,
        );
        let onward = if self.settings.pause_ms > 0 {
            Phase::Pausing(at as usize, hi as usize)
        } else {
            self.after(at, hi, true)
        };
        match result {
            Ok(_) => {
                &&& self.settles(next, i as int, DELETED)
                &&& next.cut_short == self.cut_short
                &&& next.phase == onward
                &&& said == seq![
                    Note::Log("Deleted: "@ + self.path_text(i as int), i, DELETED),
                    progress,
                ]
            },
            Err(e) => {
                let line = Note::Log(failed_line(self.path_text(i as int), e@), i, FAILED);
                &&& self.settles(next, i as int, FAILED)
                &&& if self.settings.ignore_errors {
                    &&& next.cut_short == self.cut_short
                    &&& next.phase == onward
                    &&& said == seq![line, progress]
                } else {
                    &&& next.cut_short
                    &&& next.phase == Phase::Done
                    &&& said == seq![line, abort_note(i)]
                }
            },
        }
    }
}

impl DeleteRun {
    /// Goes on from a verified target.
    pub fn verified(&mut self, result: Result<bool, String>) -> (notices: Vec<Notice>)
        requires
            old(self)@.wf(),
            old(self)@.phase is Verify,
        ensures
            final(self)@.wf(),
            final(self)@.steps_left() < old(self)@.steps_left(),
            old(self)@.verifies(result, final(self)@, notes(notices@)),
    {
        let mut notices: Vec<Notice> = Vec::new();
        assert(notes(notices@) =~= Seq::<Note>::empty());
        if let Phase::Verify(k) = self.phase {
            proof {
                lemma_targets(self@);
            }
            let i: usize = self.targets[k];
            let n = self.targets.len();
            match result {
                Ok(_) => {
                    if k + 1 < n {
                        self.phase = Phase::Verify(k + 1);
                    } else {
                        self.phase = Phase::Trash;
                    }
                },
                Err(e) => {
                    let mut line = cat3(
                        "[!] Verification failed for ",
                        self.nodes[i].path_str.as_str(),
                        ": ",
                    );
                    line.append(e.as_str());
                    notices.push(Notice::Log(line, i, FAILED));
                    assert(notes(notices@) =~= seq![notices@[0]@]);
                    self.phase = Phase::Group(0);
                },
            }
        }
        notices
    }

    /// Goes on from the attempt to move all targets to the trash.
    pub fn trashed(&mut self, result: Result<(), String>) -> (notices: Vec<Notice>)
        requires
            old(self)@.wf(),
            old(self)@.phase is Trash,
        ensures
            final(self)@.wf(),
            final(self)@.steps_left() < old(self)@.steps_left(),
            old(self)@.trashes(result, final(self)@, notes(notices@)),
    {
        let mut notices: Vec<Notice> = Vec::new();
        let count = self.nodes.len();
        assert(notes(notices@) =~= Seq::<Note>::empty());
        proof {
            lemma_targets(self@);
            lemma_listed(self@);
        }
        match result {
            Ok(_) => {
                let n = self.listed.len();
                let mut k: usize = 0;
                while k < n
                    invariant
                        n == self.listed@.len(),
                        count == self.nodes@.len(),
                        k <= n,
                        old(self)@.sound(),
                        old(self)@.pending(0),
                        old(self)@.same_run(self@),
                        self.cut_short == old(self)@.cut_short,
                        self.outcomes == old(self).outcomes,
                        self.nodes@.len() == old(self)@.nodes.len(),
                        forall|a: int|
                            0 <= a < n ==> (#[trigger] self.listed@[a]) < self.nodes@.len(),
                        forall|a: int, b: int|
                            0 <= a < b < n ==> #[trigger] self.listed@[a]
                                != #[trigger] self.listed@[b],
                        forall|i: int|
                            0 <= i < self.nodes@.len() ==> (#[trigger] self.nodes@[i]) == (
                            DirectoryNode {
                                status: if self.listed@.take(k as int).contains(i as usize) {
                                    DELETED
                                } else {
                                    old(self)@.nodes[i].status
                                },
                                ..old(self)@.nodes[i]
                            }),
                        notes(notices@) == old(self)@.trash_notes(k as int),
                    decreases n - k,
                {
                    let i: usize = self.listed[k];
                    let ghost said = notes(notices@);
                    let ghost before = self.nodes@;
                    self.nodes[i].status = DELETED;
                    let line = cat("Deleted (Trash): ", self.nodes[i].path_str.as_str());
                    notices.push(Notice::Log(line, i, DELETED));
                    notices.push(Notice::Progress(k + 1, n));
                    proof {
                        assert(before[i as int].path_str == old(self)@.nodes[i as int].path_str);
                        assert(notes(notices@) =~= said.push(notices@[notices@.len() - 2]@).push(
                            notices@[notices@.len() - 1]@,
                        ));
                        let now = self.listed@.take(k + 1);
                        let then = self.listed@.take(k as int);
                        assert(now =~= then.push(i));
                        assert forall|j: int| 0 <= j < self.nodes@.len() implies #[trigger] now.contains(
                            j as usize,
                        ) == (then.contains(j as usize) || j == i) by {
                            if then.contains(j as usize) {
                                let a = choose|a: int| 0 <= a < then.len() && then[a] == j as usize;
                                assert(now[a] == j as usize);
                            }
                            if j == i {
                                assert(now[k as int] == i);
                            }
                        }
                    }
                    k += 1;
                }
                self.deleted = n;
                self.failed = 0;
                self.phase = Phase::Done;
                proof {
                    lemma_all_trashed(old(self)@, self@);
                }
            },
            Err(e) => {
                let line = cat3(
                    "[!] Batch Recycle Bin deletion failed: ",
                    e.as_str(),
                    ". Falling back to safe bottom-up...",
                );
                notices.push(Notice::Log(line, 0, 0));
                assert(notes(notices@) =~= seq![notices@[0]@]);
                self.phase = Phase::Group(0);
            },
        }
        notices
    }
}

impl DeleteRun {
    /// Where the group that starts at place `lo` of the queue ends.
    fn group_end(&self, lo: usize) -> (hi: usize)
        requires
            self@.sound(),
            lo < self.queue@.len(),
        ensures
            is_group(self.start@, self.queue@, lo as int, hi as int),
    {
        proof {
            lemma_queue(self@);
        }
        let n = self.queue.len();
        let depth: i32 = self.nodes[self.queue[lo]].depth;
        let mut hi: usize = lo + 1;
        while hi < n && self.nodes[self.queue[hi]].depth == depth
            invariant
                self@.sound(),
                n == self.queue@.len(),
                lo < hi <= n,
                depth == self.start@[self.queue@[lo as int] as int].depth,
                forall|a: int|
                    0 <= a < n ==> (#[trigger] self.queue@[a]) < self.nodes@.len(),
                forall|a: int|
                    lo <= a < hi ==> self.start@[#[trigger] self.queue@[a] as int].depth == depth,
            ensures
                hi < n ==> self.start@[self.queue@[hi as int] as int].depth != depth,
            decreases n - hi,
        {
            hi += 1;
        }
        hi
    }

    /// Goes on after place `at` of the queue, in a group that ends at `hi`.
    fn go_on(&mut self, at: usize, hi: usize, in_turn: bool)
        requires
            old(self)@.sound(),
            is_group(old(self)@.start, old(self)@.queue, at as int, hi as int),
            old(self)@.pending(at + 1),
            !old(self)@.settings.ignore_errors ==> old(self)@.failed == 0,
            !in_turn ==> hi - at <= old(self)@.outcomes.len(),
        ensures
            final(self)@.wf(),
            old(self)@.same_results(final(self)@),
            final(self)@.cut_short == old(self)@.cut_short,
            final(self)@.outcomes == old(self)@.outcomes,
            final(self)@.phase == old(self)@.after(at as int, hi as int, in_turn),
    {
        if at + 1 < hi {
            proof {
                let q = self.queue@;
                assert forall|a: int| at + 1 <= a < hi implies self.start@[#[trigger] q[a] as int].depth
                    == self.start@[q[at + 1] as int].depth by {}
            }
            if in_turn {
                self.phase = Phase::ItemPoll(at + 1, hi);
            } else {
                self.phase = Phase::Settle(at + 1, hi);
            }
        } else if hi < self.queue.len() {
            self.phase = Phase::Group(hi);
        } else {
            self.phase = Phase::Done;
        }
    }

    /// Goes on from the flag: a set flag ends the run.
    pub fn polled(&mut self, cancelled: bool) -> (notices: Vec<Notice>)
        requires
            old(self)@.wf(),
            old(self)@.phase is Group || old(self)@.phase is Settle || old(self)@.phase is ItemPoll,
        ensures
            final(self)@.wf(),
            final(self)@.steps_left() < old(self)@.steps_left(),
            old(self)@.polls(cancelled, final(self)@, notes(notices@)),
    {
        if cancelled {
            self.cut_short = true;
            self.phase = Phase::Done;
            let notices: Vec<Notice> = Vec::new();
            assert(notes(notices@) =~= Seq::<Note>::empty());
            return notices;
        }
        match self.phase {
            Phase::Group(lo) => self.enter_group(lo),
            Phase::Settle(at, hi) => self.settle(at, hi),
            Phase::ItemPoll(at, hi) => self.try_item(at, hi),
            _ => Vec::new(),
        }
    }

    /// Goes on to the group that starts at `lo` of the queue.
    fn enter_group(&mut self, lo: usize) -> (notices: Vec<Notice>)
        requires
            old(self)@.wf(),
            old(self)@.phase == Phase::Group(lo),
        ensures
            final(self)@.wf(),
            final(self)@.steps_left() < old(self)@.steps_left(),
            final(self)@.outcomes == old(self)@.outcomes,
            old(self)@.enters_group(lo as int, final(self)@, notes(notices@)),
    {
        let notices: Vec<Notice> = Vec::new();
        assert(notes(notices@) =~= Seq::<Note>::empty());
        proof {
            lemma_queue(self@);
        }
        let hi = self.group_end(lo);
        if self.settings.pause_ms == 0 && hi - lo > 1 {
            self.phase = Phase::Parallel(lo, hi);
        } else {
            self.phase = Phase::ItemPoll(lo, hi);
        }
        notices
    }

    /// Goes on to place `at` of the queue.
    fn try_item(&mut self, at: usize, hi: usize) -> (notices: Vec<Notice>)
        requires
            old(self)@.wf(),
            old(self)@.phase == Phase::ItemPoll(at, hi),
        ensures
            final(self)@.wf(),
            final(self)@.steps_left() < old(self)@.steps_left(),
            final(self)@.outcomes == old(self)@.outcomes,
            old(self)@.tries(at as int, hi as int, final(self)@, notes(notices@)),
    {
        let mut notices: Vec<Notice> = Vec::new();
        assert(notes(notices@) =~= Seq::<Note>::empty());
        if !self.settings.dry_run {
            self.phase = Phase::Item(at, hi);
            return notices;
        }
        proof {
            lemma_queue(self@);
        }
        let i: usize = self.queue[at];
        let line = cat("[Dry-Run] Would delete: ", self.nodes[i].path_str.as_str());
        self.mark(at, DELETED);
        proof {
            lemma_counts(self@);
        }
        notices.push(Notice::Log(line, i, DELETED));
        let total = self.queue.len();
        notices.push(Notice::Progress(self.deleted + self.failed, total));
        assert(notes(notices@) =~= seq![notices@[0]@, notices@[1]@]);
        self.go_on(at, hi, true);
        notices
    }

    /// Takes in what came of place `at` of the queue.
    fn settle(&mut self, at: usize, hi: usize) -> (notices: Vec<Notice>)
        requires
            old(self)@.wf(),
            old(self)@.phase == Phase::Settle(at, hi),
        ensures
            final(self)@.wf(),
            final(self)@.steps_left() < old(self)@.steps_left(),
            final(self)@.outcomes == old(self)@.outcomes,
            old(self)@.takes_in(
                at as int,
                hi as int,
                old(self)@.outcomes[old(self)@.outcomes.len() - (hi - at)],
                final(self)@,
                notes(notices@),
            ),
    {
        let mut notices: Vec<Notice> = Vec::new();
        assert(notes(notices@) =~= Seq::<Note>::empty());
        proof {
            lemma_queue(self@);
        }
        let place: usize = self.outcomes.len() - (hi - at);
        let i: usize = self.queue[at];
        let total = self.queue.len();
        let path = self.nodes[i].path_str.as_str();
        let (line, status): (String, i32) = match &self.outcomes[place] {
            ItemOutcome::Cancelled => {
                self.cut_short = true;
                self.go_on(at, hi, false);
                return notices;
            },
            ItemOutcome::DryRun => (cat("[Dry-Run] Would delete: ", path), DELETED),
            ItemOutcome::Deleted => (cat("Deleted: ", path), DELETED),
            ItemOutcome::Failed(e) => {
                let mut line = cat3("Failed to delete ", path, ": ");
                line.append(e.as_str());
                (line, FAILED)
            },
        };
        self.mark(at, status);
        proof {
            lemma_counts(self@);
        }
        notices.push(Notice::Progress(self.deleted + self.failed, total));
        notices.push(Notice::Log(line, i, status));
        let ghost told = notes(notices@);
        assert(told =~= seq![notices@[0]@, notices@[1]@]);
        if status == FAILED && !self.settings.ignore_errors {
            notices.push(Notice::Log("Aborting deletion due to error.".to_owned(), i, FAILED));
            assert(notes(notices@) =~= told.push(notices@[2]@));
            self.cut_short = true;
            self.phase = Phase::Done;
            return notices;
        }
        self.go_on(at, hi, false);
        notices
    }

    /// Goes on from the outcomes of a group that was handed out whole.
    pub fn group_done(&mut self, outcomes: Vec<ItemOutcome>)
        requires
            old(self)@.wf(),
            old(self)@.phase matches Phase::Parallel(lo, hi) && outcomes@.len() == hi - lo,
        ensures
            final(self)@.wf(),
            final(self)@.steps_left() < old(self)@.steps_left(),
            old(self)@.takes_group(outcomes@, final(self)@),
    {
        if let Phase::Parallel(lo, hi) = self.phase {
            self.outcomes = outcomes;
            self.phase = Phase::Settle(lo, hi);
        }
    }

    /// Goes on from the deletion of one directory.
    pub fn item_done(&mut self, result: Result<(), String>) -> (notices: Vec<Notice>)
        requires
            old(self)@.wf(),
            old(self)@.phase is Item,
        ensures
            final(self)@.wf(),
            final(self)@.steps_left() < old(self)@.steps_left(),
            old(self)@.tried(result, final(self)@, notes(notices@)),
    {
        match self.phase {
            Phase::Item(at, hi) => match result {
                Ok(_) => self.item_deleted(at, hi),
                Err(e) => self.item_failed(at, hi, e),
            },
            _ => Vec::new(),
        }
    }

    /// Goes on from place `at` of the queue, which was deleted.
    fn item_deleted(&mut self, at: usize, hi: usize) -> (notices: Vec<Notice>)
        requires
            old(self)@.wf(),
            old(self)@.phase == Phase::Item(at, hi),
        ensures
            final(self)@.wf(),
            final(self)@.steps_left() < old(self)@.steps_left(),
            final(self)@.outcomes == old(self)@.outcomes,
            old(self)@.ends_item(at as int, hi as int, Ok(()), final(self)@, notes(notices@)),
    {
        let mut notices: Vec<Notice> = Vec::new();
        proof {
            lemma_queue(self@);
        }
        let i: usize = self.queue[at];
        let total = self.queue.len();
        let line = cat("Deleted: ", self.nodes[i].path_str.as_str());
        notices.push(Notice::Log(line, i, DELETED));
        self.mark(at, DELETED);
        proof {
            lemma_counts(self@);
        }
        notices.push(Notice::Progress(self.deleted + self.failed, total));
        assert(notes(notices@) =~= seq![notices@[0]@, notices@[1]@]);
        self.go_on_after_pause(at, hi);
        notices
    }

    /// Goes on from place `at` of the queue, which could not be deleted.
    fn item_failed(&mut self, at: usize, hi: usize, e: String) -> (notices: Vec<Notice>)
        requires
            old(self)@.wf(),
            old(self)@.phase == Phase::Item(at, hi),
        ensures
            final(self)@.wf(),
            final(self)@.steps_left() < old(self)@.steps_left(),
            final(self)@.outcomes == old(self)@.outcomes,
            old(self)@.ends_item(at as int, hi as int, Err(e), final(self)@, notes(notices@)),
    {
        let mut notices: Vec<Notice> = Vec::new();
        proof {
            lemma_queue(self@);
        }
        let i: usize = self.queue[at];
        let total = self.queue.len();
        let mut line = cat3("Failed to delete ", self.nodes[i].path_str.as_str(), ": ");
        line.append(e.as_str());
        notices.push(Notice::Log(line, i, FAILED));
        self.mark(at, FAILED);
        if !self.settings.ignore_errors {
            notices.push(Notice::Log("Aborting deletion due to error.".to_owned(), i, FAILED));
            assert(notes(notices@) =~= seq![notices@[0]@, notices@[1]@]);
            self.cut_short = true;
            self.phase = Phase::Done;
            return notices;
        }
        proof {
            lemma_counts(self@);
        }
        notices.push(Notice::Progress(self.deleted + self.failed, total));
        assert(notes(notices@) =~= seq![notices@[0]@, notices@[1]@]);
        self.go_on_after_pause(at, hi);
        notices
    }

    /// Goes on after place `at` of the queue, with a pause if there is to be one.
    fn go_on_after_pause(&mut self, at: usize, hi: usize)
        requires
            old(self)@.sound(),
            is_group(old(self)@.start, old(self)@.queue, at as int, hi as int),
            old(self)@.pending(at + 1),
            !old(self)@.settings.ignore_errors ==> old(self)@.failed == 0,
        ensures
            final(self)@.wf(),
            old(self)@.same_results(final(self)@),
            final(self)@.cut_short == old(self)@.cut_short,
            final(self)@.outcomes == old(self)@.outcomes,
            final(self)@.phase == (if old(self)@.settings.pause_ms > 0 {
                Phase::Pausing(at, hi)
            } else {
                old(self)@.after(at as int, hi as int, true)
            }),
    {
        if self.settings.pause_ms > 0 {
            self.phase = Phase::Pausing(at, hi);
        } else {
            self.go_on(at, hi, true);
        }
    }

    /// Goes on from a pause.
    pub fn paused(&mut self)
        requires
            old(self)@.wf(),
            old(self)@.phase is Pausing,
        ensures
            final(self)@.wf(),
            final(self)@.steps_left() < old(self)@.steps_left(),
            old(self)@.resumes(final(self)@),
    {
        if let Phase::Pausing(at, hi) = self.phase {
            self.go_on(at, hi, true);
        }
    }
}

/// The counts of a run are no more than the directories in its queue.
proof fn lemma_counts(run: RunState)
    requires
        run.sound(),
    ensures
        run.deleted + run.failed <= run.queue.len(),
{
    lemma_tally_bounds(run.nodes, run.queue);
}

/// What the list of a run holds.
proof fn lemma_listed(run: RunState)
    requires
        run.sound(),
    ensures
        forall|a: int|
            0 <= a < run.listed.len() ==> (#[trigger] run.listed[a]) < run.nodes.len(),
        forall|a: int, b: int|
            0 <= a < b < run.listed.len() ==> #[trigger] run.listed[a]
                != #[trigger] run.listed[b],
{
    assert forall|a: int, b: int| 0 <= a < b < run.listed.len() implies #[trigger] run.listed[a]
        != #[trigger] run.listed[b] by {
        assert(shallower(run.start, run.listed[a] as int, run.listed[b] as int));
    }
}

/// What the targets of a run are.
proof fn lemma_targets(run: RunState)
    requires
        run.sound(),
    ensures
        forall|a: int|
            0 <= a < run.targets.len() ==> (#[trigger] run.targets[a]) < run.nodes.len()
                && run.listed.contains(run.targets[a]),
        run.targets.len() > 0 ==> run.queue.len() > 0,
{
    broadcast use vstd::seq_lib::group_filter_ensures;

    let pred = |i: usize| is_target(run.start, i as int);
    assert forall|a: int| 0 <= a < run.targets.len() implies (#[trigger] run.targets[a])
        < run.nodes.len() && run.listed.contains(run.targets[a]) by {
        assert(run.listed.filter(pred).contains(run.targets[a]));
        lemma_filter_within(run.listed, pred, a);
    }
}

/// A member of a filtered list is a member of the list that passes the filter.
pub(crate) proof fn lemma_filter_within(list: Seq<usize>, pred: spec_fn(usize) -> bool, a: int)
    requires
        0 <= a < list.filter(pred).len(),
    ensures
        list.contains(list.filter(pred)[a]),
        pred(list.filter(pred)[a]),
    decreases list.len(),
{
    reveal(Seq::filter);
    if list.len() > 0 {
        let short = list.drop_last();
        if a < short.filter(pred).len() {
            lemma_filter_within(short, pred, a);
            let x = choose|x: int| 0 <= x < short.len() && short[x] == short.filter(pred)[a];
            assert(list[x] == list.filter(pred)[a]);
        } else {
            assert(list[list.len() - 1] == list.filter(pred)[a]);
        }
    }
}

/// With all listed nodes deleted the run is over.
proof fn lemma_all_trashed(before: RunState, after: RunState)
    requires
        before.sound(),
        before.pending(0),
        before.same_run(after),
        before.nodes.len() <= usize::MAX,
        after.cut_short == before.cut_short,
        after.phase is Done,
        after.deleted == after.listed.len(),
        after.failed == 0,
        after.nodes.len() == before.nodes.len(),
        forall|i: int|
            0 <= i < after.nodes.len() ==> (#[trigger] after.nodes[i]) == (DirectoryNode {
                status: if after.listed.take(after.listed.len() as int).contains(i as usize) {
                    DELETED
                } else {
                    before.nodes[i].status
                },
                ..before.nodes[i]
            }),
    ensures
        after.wf(),
        forall|i: int|
            0 <= i < before.nodes.len() ==> (#[trigger] after.nodes[i]) == (DirectoryNode {
                status: if before.nodes[i].status == EMPTY {
                    DELETED
                } else {
                    before.nodes[i].status
                },
                ..before.nodes[i]
            }),
{
    lemma_queue(before);
    let listed = before.listed;
    assert(listed.take(listed.len() as int) =~= listed);
    assert forall|i: int| 0 <= i < before.nodes.len() implies listed.contains(i as usize) == (
    #[trigger] before.nodes[i].status == EMPTY) by {
        if listed.contains(i as usize) {
            let a = choose|a: int| 0 <= a < listed.len() && listed[a] == i as usize;
            assert(before.queue.contains(listed[a]));
            let b = choose|b: int| 0 <= b < before.queue.len() && before.queue[b] == listed[a];
            assert(before.nodes[before.queue[b] as int].status == EMPTY);
        }
        if before.nodes[i].status == EMPTY {
            assert(before.start[i].status == EMPTY);
        }
    }
    assert forall|i: int| 0 <= i < before.nodes.len() implies (#[trigger] after.nodes[i]) == (
    DirectoryNode {
        status: if before.nodes[i].status == EMPTY {
            DELETED
        } else {
            before.nodes[i].status
        },
        ..before.nodes[i]
    }) by {
        assert(listed.contains(i as usize) == (before.nodes[i].status == EMPTY));
    }
    assert forall|a: int| 0 <= a < after.queue.len() implies after.nodes[#[trigger] after.queue[a] as int].status
        == DELETED by {
        assert(before.nodes[before.queue[a] as int].status == EMPTY);
    }
    lemma_tally_all(after.nodes, after.queue, DELETED, DELETED);
    lemma_tally_all(after.nodes, after.queue, DELETED, FAILED);
}

/// What the queue of a run holds.
proof fn lemma_queue(run: RunState)
    requires
        run.sound(),
    ensures
        forall|a: int|
            0 <= a < run.queue.len() ==> (#[trigger] run.queue[a]) < run.nodes.len()
                && run.start[run.queue[a] as int].status == EMPTY,
        forall|a: int, b: int|
            0 <= a < b < run.queue.len() ==> #[trigger] run.queue[a] != #[trigger] run.queue[b],
{
    assert forall|a: int| 0 <= a < run.queue.len() implies (#[trigger] run.queue[a])
        < run.nodes.len() && run.start[run.queue[a] as int].status == EMPTY by {
        assert(run.listed.contains(run.queue[a]));
        let b = choose|b: int| 0 <= b < run.listed.len() && run.listed[b] == run.queue[a];
        assert(run.start[run.listed[b] as int].status == EMPTY);
    }
}

/// Where there are empty nodes there is a target: the first of them.
proof fn lemma_some_target(nodes: Seq<DirectoryNode>, listed: Seq<usize>)
    requires
        lists_empty(nodes, listed),
        listed.len() > 0,
        nodes.len() <= usize::MAX,
    ensures
        listed.filter(|i: usize| is_target(nodes, i as int)).len() > 0,
{
    let pred = |i: usize| is_target(nodes, i as int);
    let i = listed[0] as int;
    assert forall|j: int| !#[trigger] covers(nodes, j, i) by {
        if covers(nodes, j, i) {
            assert(nodes[j].status == EMPTY);
            assert(listed.contains(j as usize));
            let a = choose|a: int| 0 <= a < listed.len() && listed[a] == j as usize;
            if a > 0 {
                assert(shallower(nodes, listed[0] as int, listed[a] as int));
            }
        }
    }
    assert(pred(listed[0]));
    broadcast use vstd::seq_lib::group_filter_ensures;

    assert(listed.filter(pred).contains(listed[0]));
}

} // verus!

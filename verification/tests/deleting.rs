use redr::delete::{
    bottom_up, choose_deletion, clean_step, delete_targets, early_verdict, empty_by_depth,
    entries_to_clear, late_verdict, ChildEntry, CleanAction, CleanEvent, DeleteMethod,
    DeleteSettings,
};
use redr::delete_run::{
    after_item, before_item, delete_empty_dirs, DeleteAction, DeleteRun, ItemOutcome, Notice,
};
use redr::path::DirPath;
use redr::tree::DirectoryNode;

fn node(names: &[&str], status: i32) -> DirectoryNode {
    DirectoryNode {
        path: DirPath {
            names: names.iter().map(|n| n.as_bytes().to_vec()).collect(),
        },
        name: names.last().unwrap().to_string(),
        path_str: names.join("/"),
        depth: names.len() as i32 - 1,
        status,
        has_children: false,
        is_expanded: true,
        is_last_sibling: false,
        is_hidden: false,
        is_symlink: false,
    }
}

fn tree() -> Vec<DirectoryNode> {
    vec![
        node(&["r"], 0),
        node(&["r", "a"], 1),
        node(&["r", "a", "b"], 1),
        node(&["r", "c"], 3),
        node(&["r", "d"], 1),
    ]
}

fn settings() -> DeleteSettings {
    DeleteSettings {
        move_to_trash: false,
        ignore_errors: true,
        pause_ms: 0,
        ignore_files: vec!["*.tmp".to_string()],
        consider_empty_files_empty: true,
        dry_run: false,
    }
}

fn say(notices: Vec<Notice>) -> Vec<String> {
    notices
        .into_iter()
        .map(|n| match n {
            Notice::Log(msg, i, s) => format!("{msg} [{i}:{s}]"),
            Notice::Progress(done, total) => format!("{done}/{total}"),
        })
        .collect()
}

struct World {
    verified: Result<bool, String>,
    trashed: Result<(), String>,
    deleted: fn(usize) -> Result<(), String>,
    cancel_after: usize,
}

fn world() -> World {
    World {
        verified: Ok(true),
        trashed: Ok(()),
        deleted: |_| Ok(()),
        cancel_after: usize::MAX,
    }
}

fn drive(nodes: Vec<DirectoryNode>, settings: DeleteSettings, w: World) -> (DeleteRun, Vec<String>) {
    let (mut run, first) = delete_empty_dirs(nodes, settings);
    let mut told = say(first);
    let mut polls = 0;
    loop {
        match run.action() {
            DeleteAction::Verify(i) => {
                told.push(format!("verify {i}"));
                told.extend(say(run.verified(w.verified.clone())));
            }
            DeleteAction::TrashAll(list) => {
                told.push(format!("trash {list:?}"));
                told.extend(say(run.trashed(w.trashed.clone())));
            }
            DeleteAction::Poll => {
                polls += 1;
                told.extend(say(run.polled(polls > w.cancel_after)));
            }
            DeleteAction::DeleteAll(list, dry_run) => {
                told.push(format!("delete all {list:?} {dry_run}"));
                let outcomes = list
                    .iter()
                    .map(|i| match before_item(false, dry_run) {
                        Some(outcome) => outcome,
                        None => after_item((w.deleted)(*i)),
                    })
                    .collect();
                run.group_done(outcomes);
            }
            DeleteAction::DeleteOne(i) => {
                told.push(format!("delete {i}"));
                told.extend(say(run.item_done((w.deleted)(i))));
            }
            DeleteAction::Pause(ms) => {
                told.push(format!("pause {ms}"));
                run.paused();
            }
            DeleteAction::Finished => break,
        }
    }
    (run, told)
}

fn statuses(run: &DeleteRun) -> Vec<i32> {
    run.nodes().iter().map(|n| n.status).collect()
}

#[test]
fn empties_are_listed_from_the_top() {
    let nodes = vec![
        node(&["r", "a", "b"], 1),
        node(&["r"], 0),
        node(&["r", "z"], 1),
        node(&["r", "y"], 1),
    ];
    let list = empty_by_depth(&nodes);
    assert_eq!(list, vec![2, 3, 0]);
    assert_eq!(bottom_up(&nodes, &list), vec![0, 2, 3]);
}

#[test]
fn targets_are_the_topmost_empties() {
    let nodes = tree();
    let list = empty_by_depth(&nodes);
    assert_eq!(list, vec![1, 4, 2]);
    assert_eq!(delete_targets(&nodes, &list), vec![1, 4]);
}

#[test]
fn nothing_to_do_without_empties() {
    let (run, told) = drive(vec![node(&["r"], 0)], settings(), world());
    assert!(told.is_empty());
    assert_eq!((run.deleted(), run.failed()), (0, 0));
    assert!(!run.cut_short());
}

#[test]
fn deeper_directories_are_deleted_first() {
    let (run, told) = drive(tree(), settings(), world());
    assert_eq!(
        told,
        vec![
            "delete 2",
            "Deleted: r/a/b [2:2]",
            "1/3",
            "delete all [1, 4] false",
            "2/3",
            "Deleted: r/a [1:2]",
            "3/3",
            "Deleted: r/d [4:2]",
        ]
    );
    assert_eq!((run.deleted(), run.failed()), (3, 0));
    assert_eq!(statuses(&run), vec![0, 2, 2, 3, 2]);
}

#[test]
fn a_dry_run_touches_nothing() {
    let dry = DeleteSettings {
        dry_run: true,
        move_to_trash: true,
        ..settings()
    };
    let (run, told) = drive(tree(), dry, world());
    assert_eq!(
        told,
        vec![
            "[Dry-Run] Would delete: r/a/b [2:2]",
            "1/3",
            "delete all [1, 4] true",
            "2/3",
            "[Dry-Run] Would delete: r/a [1:2]",
            "3/3",
            "[Dry-Run] Would delete: r/d [4:2]",
        ]
    );
    assert_eq!((run.deleted(), run.failed()), (3, 0));
}

#[test]
fn the_trash_takes_all_targets_at_once() {
    let trash = DeleteSettings {
        move_to_trash: true,
        ..settings()
    };
    let (run, told) = drive(tree(), trash, world());
    assert_eq!(
        told,
        vec![
            "[*] Attempting batch deletion to Recycle Bin (Root-Chop)... [0:0]",
            "verify 1",
            "verify 4",
            "trash [1, 4]",
            "Deleted (Trash): r/a [1:2]",
            "1/3",
            "Deleted (Trash): r/d [4:2]",
            "2/3",
            "Deleted (Trash): r/a/b [2:2]",
            "3/3",
        ]
    );
    assert_eq!((run.deleted(), run.failed()), (3, 0));
    assert_eq!(statuses(&run), vec![0, 2, 2, 3, 2]);
}

#[test]
fn a_failed_verification_falls_back_to_single_deletions() {
    let trash = DeleteSettings {
        move_to_trash: true,
        ..settings()
    };
    let w = World {
        verified: Err("not empty".to_string()),
        ..world()
    };
    let (run, told) = drive(tree(), trash, w);
    assert_eq!(
        told[..4],
        [
            "[*] Attempting batch deletion to Recycle Bin (Root-Chop)... [0:0]",
            "verify 1",
            "[!] Verification failed for r/a: not empty [1:4]",
            "delete 2",
        ]
    );
    assert_eq!((run.deleted(), run.failed()), (3, 0));
}

#[test]
fn a_failed_trash_falls_back_to_single_deletions() {
    let trash = DeleteSettings {
        move_to_trash: true,
        ..settings()
    };
    let w = World {
        trashed: Err("full".to_string()),
        ..world()
    };
    let (run, told) = drive(tree(), trash, w);
    assert_eq!(
        told[3..6],
        [
            "trash [1, 4]",
            "[!] Batch Recycle Bin deletion failed: full. Falling back to safe bottom-up... [0:0]",
            "delete 2",
        ]
    );
    assert_eq!((run.deleted(), run.failed()), (3, 0));
}

#[test]
fn errors_are_counted_and_passed_over() {
    let w = World {
        deleted: |i| if i == 1 { Err("busy".to_string()) } else { Ok(()) },
        ..world()
    };
    let (run, told) = drive(tree(), settings(), w);
    assert_eq!(
        told[3..],
        [
            "delete all [1, 4] false",
            "2/3",
            "Failed to delete r/a: busy [1:4]",
            "3/3",
            "Deleted: r/d [4:2]",
        ]
    );
    assert_eq!((run.deleted(), run.failed()), (2, 1));
    assert_eq!(statuses(&run), vec![0, 4, 2, 3, 2]);
    assert!(!run.cut_short());
}

#[test]
fn an_error_in_a_group_can_end_the_run() {
    let strict = DeleteSettings {
        ignore_errors: false,
        ..settings()
    };
    let w = World {
        deleted: |i| if i == 1 { Err("busy".to_string()) } else { Ok(()) },
        ..world()
    };
    let (run, told) = drive(tree(), strict, w);
    assert_eq!(
        told[4..],
        [
            "2/3",
            "Failed to delete r/a: busy [1:4]",
            "Aborting deletion due to error. [1:4]",
        ]
    );
    assert_eq!((run.deleted(), run.failed()), (1, 1));
    assert_eq!(statuses(&run), vec![0, 4, 2, 3, 1]);
    assert!(run.cut_short());
}

#[test]
fn an_error_in_turn_can_end_the_run() {
    let strict = DeleteSettings {
        ignore_errors: false,
        ..settings()
    };
    let w = World {
        deleted: |_| Err("busy".to_string()),
        ..world()
    };
    let (run, told) = drive(tree(), strict, w);
    assert_eq!(
        told,
        vec![
            "delete 2",
            "Failed to delete r/a/b: busy [2:4]",
            "Aborting deletion due to error. [2:4]",
        ]
    );
    assert_eq!((run.deleted(), run.failed()), (0, 1));
    assert!(run.cut_short());
}

#[test]
fn pauses_follow_every_deletion() {
    let slow = DeleteSettings {
        pause_ms: 20,
        move_to_trash: true,
        ..settings()
    };
    let (run, told) = drive(tree(), slow, world());
    assert_eq!(
        told,
        vec![
            "delete 2",
            "Deleted: r/a/b [2:2]",
            "1/3",
            "pause 20",
            "delete 1",
            "Deleted: r/a [1:2]",
            "2/3",
            "pause 20",
            "delete 4",
            "Deleted: r/d [4:2]",
            "3/3",
            "pause 20",
        ]
    );
    assert_eq!(run.deleted(), 3);
}

#[test]
fn a_cancelled_run_leaves_the_rest() {
    let w = World {
        cancel_after: 2,
        ..world()
    };
    let (run, told) = drive(tree(), settings(), w);
    assert_eq!(told, vec!["delete 2", "Deleted: r/a/b [2:2]", "1/3"]);
    assert_eq!((run.deleted(), run.failed()), (1, 0));
    assert_eq!(statuses(&run), vec![0, 1, 2, 3, 1]);
    assert!(run.cut_short());
}

#[test]
fn a_cancelled_item_of_a_group_is_passed_over() {
    let nodes = vec![node(&["a"], 1), node(&["b"], 1)];
    let (mut run, _) = delete_empty_dirs(nodes, settings());
    assert!(matches!(run.action(), DeleteAction::Poll));
    run.polled(false);
    run.group_done(vec![
        before_item(true, false).unwrap(),
        after_item(Ok(())),
    ]);
    assert!(say(run.polled(false)).is_empty());
    assert_eq!(say(run.polled(false)), vec!["1/2", "Deleted: b [1:2]"]);
    assert!(matches!(run.action(), DeleteAction::Finished));
    assert_eq!(statuses(&run), vec![1, 2]);
    assert!(run.cut_short());
}

#[test]
fn every_outcome_of_a_group_is_taken_in_at_its_place() {
    let nodes = vec![node(&["a"], 1), node(&["b"], 1), node(&["c"], 1)];
    let (mut run, _) = delete_empty_dirs(nodes, settings());
    run.polled(false);
    run.group_done(vec![
        after_item(Ok(())),
        after_item(Err("locked".to_string())),
        after_item(Ok(())),
    ]);
    let mut told = Vec::new();
    while matches!(run.action(), DeleteAction::Poll) {
        told.extend(say(run.polled(false)));
    }
    assert_eq!(
        told,
        vec![
            "1/3",
            "Deleted: a [0:2]",
            "2/3",
            "Failed to delete b: locked [1:4]",
            "3/3",
            "Deleted: c [2:2]",
        ]
    );
    assert_eq!((run.deleted(), run.failed()), (2, 1));
    let left: Vec<i32> = run.into_nodes().iter().map(|n| n.status).collect();
    assert_eq!(left, vec![2, 4, 2]);
}

#[test]
fn a_dry_run_in_turn_counts_all_as_deleted() {
    let rules = DeleteSettings {
        dry_run: true,
        pause_ms: 3,
        ..settings()
    };
    let (run, told) = drive(tree(), rules, world());
    assert_eq!((run.deleted(), run.failed()), (3, 0));
    assert_eq!(statuses(&run), vec![0, 2, 2, 3, 2]);
    assert!(!run.cut_short());
    assert!(!told.iter().any(|line| line.starts_with("delete ")));
}

#[test]
fn half_a_pair_of_a_wide_name_matches_one_character() {
    let odd = ChildEntry {
        name: vec![b'a', 0xed, 0xb0, 0x80, b'b'],
        wide: true,
        is_symlink: false,
        is_file: true,
        size: Some(9),
    };
    let narrow = ChildEntry {
        name: odd.name.clone(),
        wide: false,
        ..child("x", false, true, Some(9))
    };
    let rules = DeleteSettings {
        ignore_files: vec!["a?b".to_string()],
        ..settings()
    };
    assert_eq!(entries_to_clear(&vec![odd, narrow], &rules), vec![0]);
}

#[test]
fn items_of_a_group() {
    assert!(matches!(before_item(true, true), Some(ItemOutcome::Cancelled)));
    assert!(matches!(before_item(false, true), Some(ItemOutcome::DryRun)));
    assert!(before_item(false, false).is_none());
    assert!(matches!(after_item(Ok(())), ItemOutcome::Deleted));
    assert!(matches!(after_item(Err("e".to_string())), ItemOutcome::Failed(e) if e == "e"));
}

fn child(name: &str, is_symlink: bool, is_file: bool, size: Option<u64>) -> ChildEntry {
    ChildEntry {
        name: name.as_bytes().to_vec(),
        wide: false,
        is_symlink,
        is_file,
        size,
    }
}

#[test]
fn only_ignored_and_empty_files_are_cleared_away() {
    let children = vec![
        child("a.tmp", false, true, Some(9)),
        child("b", false, true, Some(0)),
        child("c", false, true, Some(1)),
        child("d.tmp", false, false, None),
        child("e", true, true, Some(0)),
        child("f.tmp", true, false, None),
        child("g", false, true, None),
    ];
    assert_eq!(entries_to_clear(&children, &settings()), vec![0, 1, 5]);
    let strict = DeleteSettings {
        consider_empty_files_empty: false,
        ..settings()
    };
    assert_eq!(entries_to_clear(&children, &strict), vec![0, 5]);
    let dry = DeleteSettings {
        dry_run: true,
        ..settings()
    };
    assert!(entries_to_clear(&children, &dry).is_empty());
}

#[test]
fn verdicts() {
    assert_eq!(early_verdict(Ok(true)), Some(Ok(true)));
    assert_eq!(early_verdict(Ok(false)), None);
    assert_eq!(early_verdict(Err("x".to_string())), Some(Err("x".to_string())));
    assert_eq!(late_verdict(Ok(true)), Ok(true));
    assert_eq!(
        late_verdict(Ok(false)),
        Err("Directory is not empty (contains non-ignored files)".to_string())
    );
    assert_eq!(
        late_verdict(Err("gone".to_string())),
        Err("Failed to verify directory: gone".to_string())
    );
}

#[test]
fn ways_to_delete() {
    let trash = DeleteSettings {
        move_to_trash: true,
        ..settings()
    };
    assert!(matches!(choose_deletion(Ok(true), &trash, false), Ok(DeleteMethod::Trash)));
    assert!(matches!(choose_deletion(Ok(true), &trash, true), Ok(DeleteMethod::Link)));
    assert!(matches!(choose_deletion(Ok(true), &settings(), true), Ok(DeleteMethod::Link)));
    assert!(matches!(choose_deletion(Ok(true), &settings(), false), Ok(DeleteMethod::Directory)));
    assert_eq!(
        choose_deletion(Ok(false), &trash, false).err().unwrap(),
        "Directory is not empty (contains non-ignored files)"
    );
    assert_eq!(choose_deletion(Err("e".to_string()), &trash, false).err().unwrap(), "e");
}

fn clean(children: Vec<ChildEntry>, rules: &DeleteSettings) -> (Vec<usize>, Result<bool, String>) {
    let count = children.len();
    assert!(matches!(
        clean_step(rules, CleanEvent::Looked(Ok(false))),
        CleanAction::List
    ));
    let cleared = match clean_step(rules, CleanEvent::Listed(Some(children))) {
        CleanAction::Clear(places) => places,
        _ => panic!("the entries are to be cleared"),
    };
    assert!(matches!(
        clean_step(rules, CleanEvent::Cleared),
        CleanAction::Verify
    ));
    match clean_step(rules, CleanEvent::Verified(Ok(cleared.len() == count))) {
        CleanAction::Verdict(verdict) => (cleared, verdict),
        _ => panic!("the verdict is due"),
    }
}

#[test]
fn a_cleaning_from_beginning_to_end() {
    let full = "Directory is not empty (contains non-ignored files)".to_string();
    let rules = settings();
    let ignored = || child("a.tmp", false, true, Some(9));
    let zero = || child("zero", false, true, Some(0));
    let kept = || child("b.txt", false, true, Some(9));
    assert_eq!(clean(vec![], &rules), (vec![], Ok(true)));
    assert_eq!(clean(vec![ignored(), zero()], &rules), (vec![0, 1], Ok(true)));
    assert_eq!(clean(vec![kept(), ignored()], &rules), (vec![1], Err(full.clone())));
    let dry = DeleteSettings {
        dry_run: true,
        ..settings()
    };
    assert_eq!(clean(vec![ignored()], &dry), (vec![], Err(full)));
}

#[test]
fn a_cleaning_that_stops_early_or_fails() {
    let rules = settings();
    let link = clean_step(&rules, CleanEvent::Looked(Ok(true)));
    assert!(matches!(link, CleanAction::Verdict(Ok(true))));
    let gone = clean_step(&rules, CleanEvent::Looked(Err("gone".to_string())));
    assert!(matches!(gone, CleanAction::Verdict(Err(e)) if e == "gone"));
    let closed = clean_step(&rules, CleanEvent::Listed(None));
    assert!(matches!(closed, CleanAction::Verify));
    let denied = clean_step(&rules, CleanEvent::Verified(Err("denied".to_string())));
    assert!(
        matches!(denied, CleanAction::Verdict(Err(e)) if e == "Failed to verify directory: denied")
    );
}

#[test]
fn the_first_failure_ends_a_run_that_heeds_errors() {
    let rules = DeleteSettings {
        ignore_errors: false,
        ..settings()
    };
    let failing = World {
        deleted: |_| Err("locked".to_string()),
        ..world()
    };
    let (run, _) = drive(tree(), rules, failing);
    assert_eq!((run.deleted(), run.failed()), (0, 1));
    assert_eq!(statuses(&run), vec![0, 1, 4, 3, 1]);
}

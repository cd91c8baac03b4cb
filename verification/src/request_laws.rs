//! What the program does with its arguments, and what it prints.

use crate::cli::{deleted_text, lists, status_word, Cli, JsonDir, JsonReport};
use crate::cli_run::{begins_run, CliRun};
use crate::delete::DeleteSettings;
use crate::gui::empty_count;
use crate::scanner::ScanSettings;
use crate::text::{decimal, list_items, texts};
use crate::tree::DirectoryNode;
use vstd::prelude::*;

verus! {

/// A run begins where the arguments name a directory, and only there: it scans that directory by the
/// rules that the arguments give, by the file table where that is asked for and can be done.
pub proof fn arguments_reach_the_scan(
    cli: Cli,
    on_windows: bool,
    is_admin: bool,
    r: Result<CliRun, String>,
)
    requires
        begins_run(cli, on_windows, is_admin, r),
    ensures
        r is Ok == cli.path is Some,
        r matches Err(e) ==> e@ == "Path is required for CLI/Quiet/JSON mode."@,
        r matches Ok(run) ==> {
            &&& run.path@ == cli.path->0@
            &&& run.cli == cli
            &&& texts(run.settings.ignore_files@) == list_items(cli.ignore_files@, ',')
            &&& texts(run.settings.ignore_dirs@) == list_items(cli.ignore_dirs@, ',')
            &&& run.settings.ignore_hidden == cli.ignore_hidden
            &&& run.settings.keep_system == cli.keep_system
            &&& run.settings.min_age_hours == cli.min_age_hours
            &&& run.settings.max_depth == cli.max_depth
            &&& run.settings.consider_empty_files_empty == cli.consider_empty_files_empty
            &&& run.settings.hide_search_errors == cli.hide_search_errors
            &&& run.phase is Table == (cli.mft_scan && on_windows && is_admin)
            &&& run.phase is Walk == !(cli.mft_scan && on_windows && is_admin)
            &&& run.found@.len() == 0
            &&& run.report is None
        },
{
}

/// Lines are printed unless the program is to be quiet or prints a report, and then they are
/// printed as they are.
pub proof fn lines_are_printed(cli: Cli, line: Option<String>, text: Seq<char>)
    requires
        cli.prints(line, text),
    ensures
        line is Some <==> !cli.quiet && !cli.json,
        line matches Some(s) ==> s@ == text,
{
}

/// The line about a deletion counts what was deleted and what failed, and tells the two apart.
pub proof fn deletion_is_told(deleted: usize, failed: usize)
    ensures
        deleted_text(deleted, failed) == "[+] Deletion complete. Deleted: "@ + decimal(
            deleted as nat,
        ) + ", Failed: "@ + decimal(failed as nat),
{
}

/// The report lists every directory that the scan gave, and no other, in the same order, each with
/// its path and a word for its status.
pub proof fn report_lists_all(dirs: Seq<JsonDir>, nodes: Seq<DirectoryNode>, i: int)
    requires
        lists(dirs, nodes),
    ensures
        dirs.len() == nodes.len(),
        0 <= i < nodes.len() ==> {
            &&& dirs[i].path@ == nodes[i].path_str@
            &&& nodes[i].status == 1 ==> dirs[i].status@ == "empty"@
            &&& nodes[i].status == 3 ==> dirs[i].status@ == "protected"@
            &&& nodes[i].status != 1 && nodes[i].status != 3 ==> dirs[i].status@ == "normal"@
        },
{
    if 0 <= i < nodes.len() {
        assert(dirs[i].status@ == status_word(nodes[i].status));
    }
}

/// There is a report where one is asked for, and only there. It names the directory that was
/// scanned, lists what was found, and sums up the deletion if there was one.
pub proof fn report_tells_what_was_done(
    run: CliRun,
    report: Option<JsonReport>,
    found: Seq<JsonDir>,
    deletion: Option<(usize, usize)>,
)
    requires
        run.reports(report, found, deletion),
    ensures
        report is Some == run.cli.json,
        report matches Some(r) ==> {
            &&& r.scan_path@ == run.path@
            &&& r.empty_directories_found@ == found
            &&& r.deletion_summary is Some == deletion is Some
            &&& deletion matches Some(counts) ==> {
                &&& r.deletion_summary->0.deleted == counts.0
                &&& r.deletion_summary->0.failed == counts.1
                &&& r.deletion_summary->0.dry_run == run.cli.dry_run
            }
        },
{
}

/// A run keeps its arguments, its directory and its rules.
pub proof fn run_keeps_its_rules(run: CliRun, next: CliRun)
    requires
        run.same_run(next),
    ensures
        next.cli == run.cli,
        next.path == run.path,
        next.settings == run.settings,
{
}

/// A deletion goes by the arguments: to the trash unless it is to be for good, past errors, without
/// pauses, and it clears away the files that the scan ignored.
pub proof fn arguments_reach_the_deletion(cli: Cli, scan: ScanSettings, s: DeleteSettings)
    requires
        cli.deletes_with(scan, s),
    ensures
        s.move_to_trash <==> !cli.delete_permanently,
        s.dry_run <==> cli.dry_run,
        s.ignore_errors,
        s.pause_ms == 0,
        s.consider_empty_files_empty == cli.consider_empty_files_empty,
        s.ignore_files@ == scan.ignore_files@,
{
}

/// A scan by the file table that fails is followed by a walk, without a word; a walk that fails ends
/// the run with its error. After any other scan the number of empty directories is printed, and the
/// directories are deleted if that is asked for and at least one counts as empty; else the run is
/// over, with a report of what was found.
pub proof fn scan_is_followed_up(
    run: CliRun,
    result: Result<Vec<DirectoryNode>, String>,
    next: CliRun,
    r: Result<Option<String>, String>,
)
    requires
        run.phase is Table || run.phase is Walk,
        run.takes_scan(result, next, r),
    ensures
        next.cli == run.cli && next.path == run.path && next.settings == run.settings,
        result is Err && run.phase is Table ==> r == Ok::<Option<String>, String>(None)
            && next.phase is Walk,
        result is Err && run.phase is Walk ==> r is Err && r->Err_0@ == result->Err_0@
            && next.phase is Done,
        result is Err ==> next.report == run.report,
        result matches Ok(nodes) ==> {
            let some = exists|i: int|
                0 <= i < nodes@.len() && (#[trigger] nodes@[i]).status == 1;
            &&& r is Ok
            &&& r->Ok_0 is Some <==> !run.cli.quiet && !run.cli.json
            &&& r->Ok_0 matches Some(line) ==> line@ == "[+] Found "@ + decimal(
                empty_count(nodes@),
            ) + " empty directories."@
            &&& run.cli.delete && some ==> next.phase is Delete && lists(next.found@, nodes@)
                && next.report == run.report
            &&& !(run.cli.delete && some) ==> next.phase is Done && (next.report is Some
                == run.cli.json) && (next.report matches Some(made) ==> made.scan_path@
                == run.path@ && lists(made.empty_directories_found@, nodes@)
                && made.deletion_summary is None)
        },
{
    if let Ok(nodes) = result {
        lemma_some_empty(nodes@);
    }
}

proof fn lemma_some_empty(nodes: Seq<DirectoryNode>)
    ensures
        empty_count(nodes) > 0 <==> exists|i: int|
            0 <= i < nodes.len() && (#[trigger] nodes[i]).status == 1,
    decreases nodes.len(),
{
    if nodes.len() > 0 {
        let short = nodes.drop_last();
        lemma_some_empty(short);
        if empty_count(short) > 0 {
            let i = choose|i: int| 0 <= i < short.len() && (#[trigger] short[i]).status == 1;
            assert(nodes[i].status == 1);
        }
        if nodes.last().status == 1 {
            assert(nodes[nodes.len() - 1].status == 1);
        }
        if exists|i: int| 0 <= i < nodes.len() && (#[trigger] nodes[i]).status == 1 {
            let i = choose|i: int| 0 <= i < nodes.len() && (#[trigger] nodes[i]).status == 1;
            if i < short.len() {
                assert(short[i].status == 1);
            }
        }
    }
}

} // verus!

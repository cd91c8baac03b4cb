//! A run of the program without its window: what it does next and what it prints.

use crate::cli::{deleted_text, json_dirs, lists, Cli, JsonDeletionSummary, JsonDir, JsonReport};
use crate::gui::{empty_count, use_mft};
use crate::scanner::ScanSettings;
use crate::text::decimal;
use crate::tree::DirectoryNode;
use vstd::prelude::*;

verus! {

/// Where a run stands.
#[derive(PartialEq, Eq, Structural, Clone, Copy, Debug)]
pub enum CliPhase {
    /// The directory is to be scanned by the file table.
    Table,
    /// The directory is to be scanned by a walk.
    Walk,
    /// What was found is to be deleted.
    Delete,
    /// Nothing is left to do but to print the report, if there is one.
    Done,
}

/// A run of the program without its window.
pub struct CliRun {
    pub cli: Cli,
    /// The directory to scan.
    pub path: String,
    pub settings: ScanSettings,
    pub phase: CliPhase,
    /// The directories of the report.
    pub found: Vec<JsonDir>,
    pub report: Option<JsonReport>,
}

impl CliRun {
    /// Whether `next` is a later state of this run.
    pub open spec fn same_run(self, next: CliRun) -> bool {
        next.cli == self.cli && next.path == self.path && next.settings == self.settings
    }

    /// Whether `report` is the report of the run, with what the deletion did, if there was one.
    pub open spec fn reports(
        self,
        report: Option<JsonReport>,
        found: Seq<JsonDir>,
        deletion: Option<(usize, usize)>,
    ) -> bool {
        if self.cli.json {
            report matches Some(r) && {
                &&& r.scan_path@ == self.path@
                &&& r.empty_directories_found@ == found
                &&& match deletion {
                    Some((deleted, failed)) => r.deletion_summary == Some(
                        JsonDeletionSummary { deleted, failed, dry_run: self.cli.dry_run },
                    ),
                    None => r.deletion_summary is None,
                }
            }
        } else {
            report is None
        }
    }

    /// Whether the run goes on from this state to `next`, and gives `r`, when a scan ended with
    /// `result`.
    pub open spec fn takes_scan(
        self,
        result: Result<Vec<DirectoryNode>, String>,
        next: CliRun,
        r: Result<Option<String>, String>,
    ) -> bool {
        &&& self.same_run(next)
        &&& match result {
            Err(e) => {
                &&& next.report == self.report
                &&& if self.phase == CliPhase::Table {
                    r == Ok::<Option<String>, String>(None) && next.phase
                        == CliPhase::Walk
                } else {
                    (r matches Err(m) && m@ == e@) && next.phase == CliPhase::Done
                }
            },
            Ok(nodes) => {
                &&& r matches Ok(line) && self.cli.prints(
                    line,
                    "[+] Found "@ + decimal(empty_count(nodes@)) + " empty directories."@,
                )
                &&& if self.cli.delete && empty_count(nodes@) > 0 {
                    &&& next.phase == CliPhase::Delete
                    &&& lists(next.found@, nodes@)
                    &&& next.report == self.report
                } else {
                    &&& next.phase == CliPhase::Done
                    &&& exists|found: Seq<JsonDir>| #[trigger]
                        lists(found, nodes@) && self.reports(
                            next.report,
                            found,
                            None,
                        )
                }
            },
        }
    }
}

/// Whether `r` is the beginning of the run that the arguments ask for, or the error where they name
/// no directory.
pub open spec fn begins_run(
    cli: Cli,
    on_windows: bool,
    is_admin: bool,
    r: Result<CliRun, String>,
) -> bool {
    match cli.path {
        Some(p) => r matches Ok(run) && {
            &&& run.cli == cli
            &&& run.path@ == p@
            &&& cli.scans_with(run.settings)
            &&& run.phase == (if cli.mft_scan && on_windows && is_admin {
                CliPhase::Table
            } else {
                CliPhase::Walk
            })
            &&& run.found@.len() == 0
            &&& run.report is None
        },
        None => r matches Err(e) && e@ == "Path is required for CLI/Quiet/JSON mode."@,
    }
}

/// Begins a run of the program without its window.
pub fn run_cli(cli: Cli, on_windows: bool, is_admin: bool) -> (r: Result<CliRun, String>)
    ensures
        begins_run(cli, on_windows, is_admin, r),
{
    match cli.scan_path() {
        Ok(path) => {
            let settings = cli.scan_settings();
            let phase = if use_mft(cli.mft_scan, on_windows, is_admin) {
                CliPhase::Table
            } else {
                CliPhase::Walk
            };
            Ok(CliRun { cli, path, settings, phase, found: Vec::new(), report: None })
        },
        Err(e) => Err(e),
    }
}

impl CliRun {
    /// Makes the report of the run.
    fn finish(&mut self, deletion: Option<(usize, usize)>)
        ensures
            old(self).same_run(*final(self)),
            final(self).phase == CliPhase::Done,
            old(self).reports(final(self).report, old(self).found@, deletion),
    {
        let mut found: Vec<JsonDir> = Vec::new();
        std::mem::swap(&mut found, &mut self.found);
        self.report = self.cli.report(self.path.as_str(), found, deletion);
        self.phase = CliPhase::Done;
    }

    /// Goes on from a scan; gives the line to print. If the scan by the file table failed, a walk
    /// follows; if a walk failed, the run ends with its error. The report lists the directories as
    /// the scan found them, before any is deleted.
    pub fn scanned(&mut self, result: &Result<Vec<DirectoryNode>, String>) -> (r: Result<
        Option<String>,
        String,
    >)
        requires
            old(self).phase == CliPhase::Table || old(self).phase == CliPhase::Walk,
        ensures
            old(self).takes_scan(*result, *final(self), r),
    {
        match result {
            Err(e) => {
                if self.phase == CliPhase::Table {
                    self.phase = CliPhase::Walk;
                    Ok(None)
                } else {
                    self.phase = CliPhase::Done;
                    Err(e.clone())
                }
            },
            Ok(nodes) => {
                self.found = json_dirs(nodes);
                let line = self.cli.found_line(nodes);
                if self.cli.wants_deletion(nodes) {
                    self.phase = CliPhase::Delete;
                } else {
                    assert(lists(self.found@, nodes@));
                    self.finish(None);
                }
                Ok(line)
            },
        }
    }

    /// Goes on from the deletion; gives the line to print.
    pub fn deleted(&mut self, deleted: usize, failed: usize) -> (line: Option<String>)
        requires
            old(self).phase == CliPhase::Delete,
        ensures
            old(self).same_run(*final(self)),
            final(self).phase == CliPhase::Done,
            old(self).cli.prints(line, deleted_text(deleted, failed)),
            old(self).reports(final(self).report, old(self).found@, Some((deleted, failed))),
    {
        let line = self.cli.deleted_line(deleted, failed);
        self.finish(Some((deleted, failed)));
        line
    }
}

} // verus!

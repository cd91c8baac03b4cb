//! The program without its window: what its arguments mean and what it prints.

use crate::delete::DeleteSettings;
use crate::gui::{count_empty, empty_count};
use crate::scanner::ScanSettings;
use crate::text::{cat, cat3, copy_texts, decimal, decimal_text, list_items, split_list, texts};
use crate::tree::{DirectoryNode, EMPTY, PROTECTED};
use vstd::prelude::*;
use vstd::string::*;

verus! {

/// The arguments of the program.
#[derive(Debug)]
pub struct Cli {
    /// The directory to scan.
    pub path: Option<String>,
    /// Whether to print nothing.
    pub quiet: bool,
    /// Whether to delete the empty directories that are found.
    pub delete: bool,
    /// Whether to only say what would be deleted.
    pub dry_run: bool,
    /// Whether to print a report in JSON.
    pub json: bool,
    /// Whether to read the file table directly where that can be done.
    pub mft_scan: bool,
    /// How deep to scan; a negative number for no limit.
    pub max_depth: i32,
    /// Whether to delete without the trash.
    pub delete_permanently: bool,
    /// The files to ignore, separated by commas.
    pub ignore_files: String,
    /// The directories to ignore, separated by commas.
    pub ignore_dirs: String,
    /// Whether to skip hidden directories.
    pub ignore_hidden: bool,
    /// Whether to skip the directories of the operating system.
    pub keep_system: bool,
    /// How many hours old a directory has to be.
    pub min_age_hours: u32,
    /// Whether a directory with nothing but empty files in it counts as empty.
    pub consider_empty_files_empty: bool,
    /// Whether the errors of a walk are summed up in one line.
    pub hide_search_errors: bool,
}

impl Cli {
    /// Whether these are the settings of the scan that the arguments ask for.
    pub open spec fn scans_with(self, settings: ScanSettings) -> bool {
        &&& texts(settings.ignore_files@) == list_items(self.ignore_files@, ',')
        &&& texts(settings.ignore_dirs@) == list_items(self.ignore_dirs@, ',')
        &&& settings.ignore_hidden == self.ignore_hidden
        &&& settings.keep_system == self.keep_system
        &&& settings.min_age_hours == self.min_age_hours
        &&& settings.max_depth == self.max_depth
        &&& settings.consider_empty_files_empty == self.consider_empty_files_empty
        &&& settings.hide_search_errors == self.hide_search_errors
    }

    /// Whether these are the settings of the deletion that the arguments ask for, after a scan with
    /// the settings `scan`.
    pub open spec fn deletes_with(self, scan: ScanSettings, settings: DeleteSettings) -> bool {
        &&& settings.move_to_trash == !self.delete_permanently
        &&& settings.ignore_errors
        &&& settings.pause_ms == 0
        &&& settings.ignore_files@ == scan.ignore_files@
        &&& settings.consider_empty_files_empty == self.consider_empty_files_empty
        &&& settings.dry_run == self.dry_run
    }

    /// Whether `line` is printed, where the program prints lines at all.
    pub open spec fn prints(self, line: Option<String>, text: Seq<char>) -> bool {
        if self.quiet || self.json {
            line is None
        } else {
            line matches Some(s) && s@ == text
        }
    }

    /// Whether the program runs without its window.
    pub fn is_headless(&self) -> (r: bool)
        ensures
            r == (self.quiet || self.delete || self.json),
    {
        self.quiet || self.delete || self.json
    }

    /// Whether the program prints lines about what it does.
    pub fn is_talkative(&self) -> (r: bool)
        ensures
            r == (!self.quiet && !self.json),
    {
        !self.quiet && !self.json
    }

    /// The directory to scan.
    pub fn scan_path(&self) -> (path: Result<String, String>)
        ensures
            match self.path {
                Some(p) => path matches Ok(s) && s@ == p@,
                None => path matches Err(e) && e@ == "Path is required for CLI/Quiet/JSON mode."@,
            },
    {
        match &self.path {
            Some(p) => Ok(p.clone()),
            None => Err("Path is required for CLI/Quiet/JSON mode.".to_owned()),
        }
    }

    /// The settings of the scan.
    pub fn scan_settings(&self) -> (settings: ScanSettings)
        ensures
            self.scans_with(settings),
    {
        ScanSettings {
            ignore_files: split_list(self.ignore_files.as_str(), ','),
            ignore_dirs: split_list(self.ignore_dirs.as_str(), ','),
            ignore_hidden: self.ignore_hidden,
            keep_system: self.keep_system,
            min_age_hours: self.min_age_hours,
            max_depth: self.max_depth,
            consider_empty_files_empty: self.consider_empty_files_empty,
            hide_search_errors: self.hide_search_errors,
        }
    }

    /// The settings of the deletion.
    pub fn delete_settings(&self, scan: &ScanSettings) -> (settings: DeleteSettings)
        ensures
            self.deletes_with(*scan, settings),
    {
        DeleteSettings {
            move_to_trash: !self.delete_permanently,
            ignore_errors: true,
            pause_ms: 0,
            ignore_files: copy_texts(&scan.ignore_files),
            consider_empty_files_empty: self.consider_empty_files_empty,
            dry_run: self.dry_run,
        }
    }

    /// Whether the directories that a scan gave are to be deleted: that is asked for, and some
    /// count as empty.
    pub fn wants_deletion(&self, nodes: &Vec<DirectoryNode>) -> (r: bool)
        ensures
            r == (self.delete && empty_count(nodes@) > 0),
    {
        self.delete && count_empty(nodes) > 0
    }

    /// The line about what a scan gave.
    pub fn found_line(&self, nodes: &Vec<DirectoryNode>) -> (line: Option<String>)
        ensures
            self.prints(
                line,
                "[+] Found "@ + decimal(empty_count(nodes@)) + " empty directories."@,
            ),
    {
        if self.is_talkative() {
            let count = decimal_text(count_empty(nodes));
            Some(cat3("[+] Found ", count.as_str(), " empty directories."))
        } else {
            None
        }
    }

    /// The line about what a deletion did.
    pub fn deleted_line(&self, deleted: usize, failed: usize) -> (line: Option<String>)
        ensures
            self.prints(line, deleted_text(deleted, failed)),
    {
        if self.is_talkative() {
            let d = decimal_text(deleted);
            let f = decimal_text(failed);
            let start = cat3("[+] Deletion complete. Deleted: ", d.as_str(), ", Failed: ");
            Some(cat(start.as_str(), f.as_str()))
        } else {
            None
        }
    }

    /// The report in JSON, where it is asked for. It lists what the scan gave, with the statuses
    /// from before the deletion, and what the deletion did, if there was one.
    pub fn report(
        &self,
        scan_path: &str,
        found: Vec<JsonDir>,
        deletion: Option<(usize, usize)>,
    ) -> (report: Option<JsonReport>)
        ensures
            if self.json {
                report matches Some(r) && {
                    &&& r.scan_path@ == scan_path@
                    &&& r.empty_directories_found == found
                    &&& match deletion {
                        Some((deleted, failed)) => r.deletion_summary == Some(
                            JsonDeletionSummary { deleted, failed, dry_run: self.dry_run },
                        ),
                        None => r.deletion_summary is None,
                    }
                }
            } else {
                report is None
            },
    {
        if !self.json {
            return None;
        }
        let deletion_summary = match deletion {
            Some((deleted, failed)) => Some(
                JsonDeletionSummary { deleted, failed, dry_run: self.dry_run },
            ),
            None => None,
        };
        Some(
            JsonReport {
                scan_path: scan_path.to_owned(),
                empty_directories_found: found,
                deletion_summary,
            },
        )
    }
}

/// The line about what a deletion did.
pub open spec fn deleted_text(deleted: usize, failed: usize) -> Seq<char> {
    "[+] Deletion complete. Deleted: "@ + decimal(deleted as nat) + ", Failed: "@ + decimal(
        failed as nat,
    )
}

/// The report of the program.
pub struct JsonReport {
    pub scan_path: String,
    pub empty_directories_found: Vec<JsonDir>,
    pub deletion_summary: Option<JsonDeletionSummary>,
}

/// A directory in the report.
pub struct JsonDir {
    pub path: String,
    pub status: String,
}

/// A deletion in the report.
pub struct JsonDeletionSummary {
    pub deleted: usize,
    pub failed: usize,
    pub dry_run: bool,
}

/// The word for a status in the report.
pub open spec fn status_word(status: i32) -> Seq<char> {
    if status == EMPTY {
        "empty"@
    } else if status == PROTECTED {
        "protected"@
    } else {
        "normal"@
    }
}

/// The word for a status in the report.
fn make_status_word(status: i32) -> (word: String)
    ensures
        word@ == status_word(status),
{
    if status == EMPTY {
        "empty".to_owned()
    } else if status == PROTECTED {
        "protected".to_owned()
    } else {
        "normal".to_owned()
    }
}

/// Whether `dirs` are the directories of the report of `nodes`.
pub open spec fn lists(dirs: Seq<JsonDir>, nodes: Seq<DirectoryNode>) -> bool {
    &&& dirs.len() == nodes.len()
    &&& forall|i: int|
        0 <= i < nodes.len() ==> (#[trigger] dirs[i]).path@ == nodes[i].path_str@
            && dirs[i].status@ == status_word(nodes[i].status)
}

/// The directories of the report, from what a scan gave.
pub fn json_dirs(nodes: &Vec<DirectoryNode>) -> (dirs: Vec<JsonDir>)
    ensures
        lists(dirs@, nodes@),
{
    let mut dirs: Vec<JsonDir> = Vec::new();
    let mut i: usize = 0;
    while i < nodes.len()
        invariant
            i <= nodes@.len(),
            dirs@.len() == i,
            forall|k: int|
                0 <= k < i ==> (#[trigger] dirs@[k]).path@ == nodes@[k].path_str@
                    && dirs@[k].status@ == status_word(nodes@[k].status),
        decreases nodes@.len() - i,
    {
        dirs.push(
            JsonDir {
                path: nodes[i].path_str.clone(),
                status: make_status_word(nodes[i].status),
            },
        );
        i += 1;
    }
    dirs
}

} // verus!

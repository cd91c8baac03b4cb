//! What the window of the program does with its state.

use crate::config::{default_ignore_files, AppSettings};
use crate::delete::DeleteSettings;
use crate::path::within;
use crate::scanner::ScanSettings;
use crate::text::{
    cat, cat3, contains_item, decimal, decimal_text, find_first, has_char, has_item, list_items,
    occurs_at, split, split_list, texts, to_chars, trim,
};
use crate::tree::{DirectoryNode, EMPTY, PROTECTED};
use vstd::prelude::*;
use vstd::string::*;

verus! {

/// What the controls of the window are set to.
#[derive(Clone, Debug)]
pub struct UiState {
    pub selected_folder: String,
    pub consider_empty_files_empty: bool,
    pub ignore_hidden: bool,
    pub ignore_errors: bool,
    pub hide_search_errors: bool,
    pub skip_system: bool,
    pub delete_mode: i32,
    pub max_depth: i32,
    pub pause_ms: i32,
    pub min_age_hours: i32,
    pub auto_save_logs: bool,
    pub mft_scan: bool,
    pub ignore_list_text: String,
    pub ignore_files_text: String,
    pub dry_run: bool,
}

impl UiState {
    /// Whether the controls show these settings.
    pub open spec fn shows(self, s: AppSettings) -> bool {
        &&& s.consider_empty_files_empty == self.consider_empty_files_empty
        &&& s.ignore_hidden == self.ignore_hidden
        &&& s.ignore_errors == self.ignore_errors
        &&& s.hide_search_errors == self.hide_search_errors
        &&& s.skip_system == self.skip_system
        &&& s.delete_mode == self.delete_mode
        &&& s.max_depth == self.max_depth
        &&& s.pause_ms == self.pause_ms
        &&& s.min_age_hours == self.min_age_hours
        &&& s.auto_save_logs == self.auto_save_logs
        &&& s.mft_scan == self.mft_scan
        &&& s.ignore_list_text@ == self.ignore_list_text@
        &&& s.ignore_files_text@ == self.ignore_files_text@
        &&& s.dry_run == self.dry_run
    }

    /// Whether these are the settings of a scan that is started from the window.
    pub open spec fn scans_with(self, s: ScanSettings) -> bool {
        &&& texts(s.ignore_files@) == list_items(self.ignore_files_text@, '\n')
        &&& texts(s.ignore_dirs@) == list_items(self.ignore_list_text@, '\n')
        &&& s.ignore_hidden == self.ignore_hidden
        &&& s.keep_system == self.skip_system
        &&& s.min_age_hours == self.min_age_hours as u32
        &&& s.max_depth == self.max_depth
        &&& s.consider_empty_files_empty == self.consider_empty_files_empty
        &&& s.hide_search_errors == self.hide_search_errors
    }

    /// Whether these are the settings of a deletion that is started from the window.
    pub open spec fn deletes_with(self, s: DeleteSettings) -> bool {
        &&& s.move_to_trash == (self.delete_mode == 0)
        &&& s.ignore_errors == self.ignore_errors
        &&& s.pause_ms == self.pause_ms as u32
        &&& texts(s.ignore_files@) == list_items(self.ignore_files_text@, '\n')
        &&& s.consider_empty_files_empty == self.consider_empty_files_empty
        &&& s.dry_run == self.dry_run
    }
}

/// The settings that the controls show.
pub fn ui_to_settings(ui: &UiState) -> (settings: AppSettings)
    ensures
        ui.shows(settings),
{
    AppSettings {
        consider_empty_files_empty: ui.consider_empty_files_empty,
        ignore_hidden: ui.ignore_hidden,
        ignore_errors: ui.ignore_errors,
        hide_search_errors: ui.hide_search_errors,
        skip_system: ui.skip_system,
        delete_mode: ui.delete_mode,
        max_depth: ui.max_depth,
        pause_ms: ui.pause_ms,
        min_age_hours: ui.min_age_hours,
        auto_save_logs: ui.auto_save_logs,
        mft_scan: ui.mft_scan,
        ignore_list_text: ui.ignore_list_text.clone(),
        ignore_files_text: ui.ignore_files_text.clone(),
        dry_run: ui.dry_run,
    }
}

/// The controls at the start of a session: they show the settings, and the folder that was named
/// when the program was started.
pub fn settings_to_ui(settings: AppSettings, path: Option<String>) -> (ui: UiState)
    ensures
        ui.shows(settings),
        match path {
            Some(p) => ui.selected_folder@ == p@,
            None => ui.selected_folder@ == ""@,
        },
{
    UiState {
        selected_folder: match path {
            Some(p) => p,
            None => "".to_owned(),
        },
        consider_empty_files_empty: settings.consider_empty_files_empty,
        ignore_hidden: settings.ignore_hidden,
        ignore_errors: settings.ignore_errors,
        hide_search_errors: settings.hide_search_errors,
        skip_system: settings.skip_system,
        delete_mode: settings.delete_mode,
        max_depth: settings.max_depth,
        pause_ms: settings.pause_ms,
        min_age_hours: settings.min_age_hours,
        auto_save_logs: settings.auto_save_logs,
        mft_scan: settings.mft_scan,
        ignore_list_text: settings.ignore_list_text,
        ignore_files_text: settings.ignore_files_text,
        dry_run: settings.dry_run,
    }
}

/// Settings survive a session in which no control is touched: what the controls show of them, read
/// back, is the same.
pub proof fn settings_survive(s: AppSettings, ui: UiState, back: AppSettings)
    requires
        ui.shows(s),
        ui.shows(back),
    ensures
        back.consider_empty_files_empty == s.consider_empty_files_empty,
        back.ignore_hidden == s.ignore_hidden,
        back.ignore_errors == s.ignore_errors,
        back.hide_search_errors == s.hide_search_errors,
        back.skip_system == s.skip_system,
        back.delete_mode == s.delete_mode,
        back.max_depth == s.max_depth,
        back.pause_ms == s.pause_ms,
        back.min_age_hours == s.min_age_hours,
        back.auto_save_logs == s.auto_save_logs,
        back.mft_scan == s.mft_scan,
        back.ignore_list_text@ == s.ignore_list_text@,
        back.ignore_files_text@ == s.ignore_files_text@,
        back.dry_run == s.dry_run,
{
}

/// Sets the controls back, but for those of the folder, the saving of logs and the direct scan.
pub fn reset_defaults(ui: &mut UiState, ignore_list: String)
    ensures
        final(ui).selected_folder == old(ui).selected_folder,
        final(ui).auto_save_logs == old(ui).auto_save_logs,
        final(ui).mft_scan == old(ui).mft_scan,
        final(ui).consider_empty_files_empty,
        final(ui).ignore_hidden,
        final(ui).ignore_errors,
        final(ui).hide_search_errors,
        final(ui).skip_system,
        final(ui).max_depth == -1,
        final(ui).pause_ms == 0,
        final(ui).min_age_hours == 0,
        final(ui).delete_mode == 0,
        !final(ui).dry_run,
        final(ui).ignore_files_text@ == default_ignore_files(),
        final(ui).ignore_list_text@ == ignore_list@,
{
    ui.consider_empty_files_empty = true;
    ui.ignore_hidden = true;
    ui.ignore_errors = true;
    ui.hide_search_errors = true;
    ui.skip_system = true;
    ui.max_depth = -1;
    ui.pause_ms = 0;
    ui.min_age_hours = 0;
    ui.delete_mode = 0;
    ui.dry_run = false;
    ui.ignore_files_text = "desktop.ini\nThumbs.db\n.DS_Store".to_owned();
    ui.ignore_list_text = ignore_list;
}

/// The settings of a scan that is started from the window.
pub fn gui_scan_settings(ui: &UiState) -> (settings: ScanSettings)
    ensures
        ui.scans_with(settings),
{
    ScanSettings {
        ignore_files: split_list(ui.ignore_files_text.as_str(), '\n'),
        ignore_dirs: split_list(ui.ignore_list_text.as_str(), '\n'),
        ignore_hidden: ui.ignore_hidden,
        keep_system: ui.skip_system,
        min_age_hours: ui.min_age_hours as u32,
        max_depth: ui.max_depth,
        consider_empty_files_empty: ui.consider_empty_files_empty,
        hide_search_errors: ui.hide_search_errors,
    }
}

/// The settings of a deletion that is started from the window.
pub fn gui_delete_settings(ui: &UiState) -> (settings: DeleteSettings)
    ensures
        ui.deletes_with(settings),
{
    DeleteSettings {
        move_to_trash: ui.delete_mode == 0,
        ignore_errors: ui.ignore_errors,
        pause_ms: ui.pause_ms as u32,
        ignore_files: split_list(ui.ignore_files_text.as_str(), '\n'),
        consider_empty_files_empty: ui.consider_empty_files_empty,
        dry_run: ui.dry_run,
    }
}

/// Whether a scan reads the file table directly: it is asked for, the system is one that has it,
/// and the program may read it.
pub fn use_mft(asked: bool, on_windows: bool, is_admin: bool) -> (r: bool)
    ensures
        r == (asked && on_windows && is_admin),
{
    asked && on_windows && is_admin
}

/// How many of `nodes` count as empty.
pub open spec fn empty_count(nodes: Seq<DirectoryNode>) -> nat
    decreases nodes.len(),
{
    if nodes.len() == 0 {
        0
    } else {
        empty_count(nodes.drop_last()) + if nodes.last().status == EMPTY {
            1nat
        } else {
            0nat
        }
    }
}

/// How many of `nodes` count as empty.
pub fn count_empty(nodes: &Vec<DirectoryNode>) -> (n: usize)
    ensures
        n == empty_count(nodes@),
{
    let mut n: usize = 0;
    let mut i: usize = 0;
    assert(nodes@.take(0) =~= Seq::<DirectoryNode>::empty());
    while i < nodes.len()
        invariant
            i <= nodes@.len(),
            n == empty_count(nodes@.take(i as int)),
            n <= i,
        decreases nodes@.len() - i,
    {
        assert(nodes@.take(i + 1).drop_last() == nodes@.take(i as int));
        if nodes[i].status == EMPTY {
            n += 1;
        }
        i += 1;
    }
    assert(nodes@.take(i as int) == nodes@);
    n
}

/// What the window shows about the work.
pub struct Panel {
    pub is_scanning: bool,
    pub is_deleting: bool,
    pub status_msg: String,
    /// How far the work has come, as the bits of a single-precision number.
    pub progress: u32,
    pub empty_count: i32,
    pub deleted_count: i32,
    pub failed_count: i32,
}

/// The bits of the single-precision number zero.
pub const NO_PROGRESS: u32 = 0;

/// The bits of the single-precision number one.
pub const FULL_PROGRESS: u32 = 0x3f800000;

/// How a scan starts.
pub enum ScanStart {
    /// It does not: no folder is selected. A line says so.
    NoFolder(String),
    /// The folder is scanned.
    Scan(String),
}

/// Whether `part` stands somewhere in `s`.
pub open spec fn has_part(s: Seq<char>, part: Seq<char>) -> bool {
    exists|i: int| #[trigger] occurs_at(s, part, i)
}

impl Panel {
    /// A scan is asked for: the folder that is selected is scanned, if one is.
    pub fn begin_scan(&mut self, ui: &UiState) -> (start: ScanStart)
        ensures
            final(self).status_msg@ == "Scanning..."@,
            final(self).progress == NO_PROGRESS,
            final(self).is_scanning == (ui.selected_folder@.len() > 0),
            final(self).is_deleting == old(self).is_deleting,
            final(self).empty_count == old(self).empty_count,
            final(self).deleted_count == old(self).deleted_count,
            final(self).failed_count == old(self).failed_count,
            if ui.selected_folder@.len() == 0 {
                start matches ScanStart::NoFolder(line) && line@ == "Please select a folder first."@
            } else {
                start matches ScanStart::Scan(folder) && folder@ == ui.selected_folder@
            },
    {
        self.is_scanning = true;
        self.status_msg = "Scanning...".to_owned();
        self.progress = NO_PROGRESS;
        if ui.selected_folder.as_str().is_empty() {
            self.is_scanning = false;
            ScanStart::NoFolder("Please select a folder first.".to_owned())
        } else {
            ScanStart::Scan(ui.selected_folder.clone())
        }
    }

    /// A scan gave `nodes`; gives a line for the log.
    pub fn scan_found(&mut self, nodes: &Vec<DirectoryNode>) -> (line: String)
        ensures
            line@ == "[+] Found "@ + decimal(empty_count(nodes@)) + " empty directories ("@
                + decimal(nodes@.len()) + " shown in tree)."@,
            !final(self).is_scanning,
            final(self).is_deleting == old(self).is_deleting,
            final(self).status_msg@ == "Found "@ + decimal(empty_count(nodes@))
                + " empty directories."@,
            final(self).progress == FULL_PROGRESS,
            final(self).empty_count == empty_count(nodes@) as i32,
            final(self).deleted_count == 0,
            final(self).failed_count == 0,
    {
        let count = count_empty(nodes);
        let empties = decimal_text(count);
        let total = decimal_text(nodes.len());
        self.empty_count = count as i32;
        self.deleted_count = 0;
        self.failed_count = 0;
        self.is_scanning = false;
        self.status_msg = cat3("Found ", empties.as_str(), " empty directories.");
        self.progress = FULL_PROGRESS;
        let start = cat3("[+] Found ", empties.as_str(), " empty directories (");
        cat3(start.as_str(), total.as_str(), " shown in tree).")
    }

    /// A scan ended with an error; gives a line for the log.
    pub fn scan_failed(&mut self, error: &str) -> (line: String)
        ensures
            line@ == "[!] "@ + error@,
            !final(self).is_scanning,
            final(self).is_deleting == old(self).is_deleting,
            final(self).status_msg@ == (if has_part(error@, "cancelled"@) {
                "Scan cancelled."@
            } else {
                "Scan failed."@
            }),
            final(self).progress == old(self).progress,
            final(self).empty_count == old(self).empty_count,
            final(self).deleted_count == old(self).deleted_count,
            final(self).failed_count == old(self).failed_count,
    {
        let text = to_chars(error);
        let part = to_chars("cancelled");
        self.is_scanning = false;
        self.status_msg = match find_first(&text, &part) {
            Some(i) => {
                assert(occurs_at(error@, "cancelled"@, i as int));
                "Scan cancelled.".to_owned()
            },
            None => "Scan failed.".to_owned(),
        };
        cat("[!] ", error)
    }

    /// A deletion is asked for.
    pub fn begin_delete(&mut self)
        ensures
            final(self).is_deleting,
            final(self).status_msg@ == "Deleting..."@,
            final(self).progress == NO_PROGRESS,
            final(self).is_scanning == old(self).is_scanning,
            final(self).empty_count == old(self).empty_count,
            final(self).deleted_count == old(self).deleted_count,
            final(self).failed_count == old(self).failed_count,
    {
        self.is_deleting = true;
        self.status_msg = "Deleting...".to_owned();
        self.progress = NO_PROGRESS;
    }

    /// There is no tree to delete from.
    pub fn nothing_to_delete(&mut self)
        ensures
            *final(self) == (Panel { is_deleting: false, ..*old(self) }),
    {
        self.is_deleting = false;
    }

    /// A deletion is over; gives a line for the log.
    pub fn deletion_finished(&mut self, deleted: usize, failed: usize, was_cancelled: bool) -> (line:
        String)
        ensures
            line@ == "[+] Deletion finished. Deleted: "@ + decimal(deleted as nat) + ", Failed: "@
                + decimal(failed as nat),
            !final(self).is_deleting,
            final(self).is_scanning == old(self).is_scanning,
            final(self).status_msg@ == (if was_cancelled {
                "Deletion cancelled."@
            } else {
                "Deletion complete."@
            }),
            final(self).progress == FULL_PROGRESS,
            final(self).empty_count == old(self).empty_count,
            final(self).deleted_count == deleted as i32,
            final(self).failed_count == failed as i32,
    {
        self.deleted_count = deleted as i32;
        self.failed_count = failed as i32;
        self.is_deleting = false;
        self.status_msg = if was_cancelled {
            "Deletion cancelled.".to_owned()
        } else {
            "Deletion complete.".to_owned()
        };
        self.progress = FULL_PROGRESS;
        let d = decimal_text(deleted);
        let f = decimal_text(failed);
        let start = cat3("[+] Deletion finished. Deleted: ", d.as_str(), ", Failed: ");
        cat(start.as_str(), f.as_str())
    }

    /// A cancellation is asked for.
    pub fn cancel_requested(&mut self)
        ensures
            final(self).status_msg@ == "Cancellation requested..."@,
            *final(self) == (Panel { status_msg: final(self).status_msg, ..*old(self) }),
    {
        self.status_msg = "Cancellation requested...".to_owned();
    }

    /// The tree has changed.
    pub fn recount(&mut self, nodes: &Vec<DirectoryNode>)
        ensures
            *final(self) == (Panel { empty_count: empty_count(nodes@) as i32, ..*old(self) }),
    {
        self.empty_count = count_empty(nodes) as i32;
    }
}

/// The line that tells that the file table could not be used.
pub fn mft_failed_line(error: &str) -> (line: String)
    ensures
        line@ == "[!] Direct MFT Scan failed: "@ + error@
            + ". Falling back to standard scan..."@,
{
    cat3("[!] Direct MFT Scan failed: ", error, ". Falling back to standard scan...")
}

/// With the settings of a first session a deletion from the window goes to the trash, and is not
/// a dry run.
pub proof fn first_session_uses_the_trash(
    settings: AppSettings,
    ui: UiState,
    ignore_list: Seq<char>,
    deletion: DeleteSettings,
)
    requires
        settings.is_default(ignore_list),
        ui.shows(settings),
        ui.deletes_with(deletion),
    ensures
        deletion.move_to_trash,
        !deletion.dry_run,
        deletion.pause_ms == 0,
        deletion.ignore_errors,
{
}

/// Expands or collapses the node with the number `id`, if there is one.
pub fn toggle_expand(nodes: &mut Vec<DirectoryNode>, id: i32)
    ensures
        final(nodes)@ == (if 0 <= id < old(nodes)@.len() {
            old(nodes)@.update(
                id as int,
                DirectoryNode {
                    is_expanded: !old(nodes)@[id as int].is_expanded,
                    ..old(nodes)@[id as int]
                },
            )
        } else {
            old(nodes)@
        }),
{
    if id >= 0 && (id as usize) < nodes.len() {
        let i: usize = id as usize;
        let ghost before = nodes@;
        let expanded = nodes[i].is_expanded;
        nodes[i].is_expanded = !expanded;
        assert(nodes@ =~= before.update(
            i as int,
            DirectoryNode { is_expanded: !expanded, ..before[i as int] },
        ));
    }
}

/// To toggle a node twice leaves the tree as it was.
pub proof fn toggle_twice(nodes: Seq<DirectoryNode>, once: Seq<DirectoryNode>, i: int)
    requires
        0 <= i < nodes.len(),
        once == nodes.update(
            i,
            DirectoryNode { is_expanded: !nodes[i].is_expanded, ..nodes[i] },
        ),
    ensures
        once.update(i, DirectoryNode { is_expanded: !once[i].is_expanded, ..once[i] }) == nodes,
{
    assert(once.update(i, DirectoryNode { is_expanded: !once[i].is_expanded, ..once[i] })
        =~= nodes);
}

/// The text of a list of lines with one more line, unless the list has it.
pub open spec fn with_line(list: Seq<char>, line: Seq<char>) -> Seq<char> {
    if has_item(list, '\n', line) {
        list
    } else if list.len() > 0 && list.last() != '\n' {
        list.push('\n') + line
    } else {
        list + line
    }
}

proof fn lemma_split_line(s: Seq<char>, line: Seq<char>)
    requires
        !has_char(line, '\n'),
    ensures
        split(s.push('\n') + line, '\n') == split(s, '\n').push(line),
        split(line, '\n') == seq![line],
    decreases line.len(),
{
    if line.len() == 0 {
        assert(line == Seq::<char>::empty());
        assert(s.push('\n') + line == s.push('\n'));
        assert(s.push('\n').drop_last() == s);
    } else {
        let short = line.drop_last();
        assert(!has_char(short, '\n')) by {
            if has_char(short, '\n') {
                let i = choose|i: int| 0 <= i < short.len() && short[i] == '\n';
                assert(line[i] == '\n');
            }
        }
        lemma_split_line(s, short);
        assert(line[line.len() - 1] != '\n');
        let whole = s.push('\n') + line;
        assert(whole.drop_last() == s.push('\n') + short);
        assert(short.push(line.last()) == line);
        assert(split(s, '\n').push(short).drop_last() == split(s, '\n'));
        assert(seq![short].drop_last().push(line) == seq![line]);
    }
}

/// A line that was added is found again, so that to add it once more changes nothing. The line is
/// one without line breaks in it and without white space around it.
pub proof fn added_line_is_found(list: Seq<char>, line: Seq<char>)
    requires
        trim(line) == line,
        !has_char(line, '\n'),
    ensures
        has_item(with_line(list, line), '\n', line),
        with_line(with_line(list, line), line) == with_line(list, line),
{
    if !has_item(list, '\n', line) {
        let all = with_line(list, line);
        let (s, pieces) = if list.len() == 0 {
            (list, seq![line])
        } else if list.last() != '\n' {
            (list, split(list, '\n').push(line))
        } else {
            (list.drop_last(), split(list.drop_last(), '\n').push(line))
        };
        lemma_split_line(s, line);
        if list.len() == 0 {
            assert(all == line);
        } else if list.last() == '\n' {
            assert(list == s.push('\n'));
        }
        assert(split(all, '\n') == pieces);
        assert(split(all, '\n')[pieces.len() - 1] == line);
    }
}

/// A node that is protected where it lies at or under a path.
pub open spec fn protected_under(node: DirectoryNode, target: DirectoryNode) -> DirectoryNode {
    if within(node.path@, target.path@) {
        DirectoryNode { status: PROTECTED, ..node }
    } else {
        node
    }
}

/// The text of a list of lines with one more line, unless the list has it.
pub fn add_line(list: &str, line: &str) -> (text: String)
    ensures
        text@ == with_line(list@, line@),
{
    if contains_item(list, '\n', line) {
        return list.to_owned();
    }
    let chars = to_chars(list);
    let n = chars.len();
    let mut text = list.to_owned();
    if n > 0 && chars[n - 1] != '\n' {
        text.push('\n');
    }
    text.append(line);
    text
}

/// Adds the name of the node with the number `id` to the list of directories to ignore, and
/// protects the node and everything under it; gives the text of the list. Nothing changes if there
/// is no such node.
pub fn add_to_exclusions(nodes: &mut Vec<DirectoryNode>, id: i32, list: &str) -> (text: String)
    ensures
        if 0 <= id < old(nodes)@.len() {
            let target = old(nodes)@[id as int];
            &&& text@ == with_line(list@, target.name@)
            &&& final(nodes)@.len() == old(nodes)@.len()
            &&& forall|k: int|
                0 <= k < old(nodes)@.len() ==> #[trigger] final(nodes)@[k] == protected_under(
                    old(nodes)@[k],
                    target,
                )
        } else {
            text@ == list@ && final(nodes)@ == old(nodes)@
        },
{
    if id < 0 || (id as usize) >= nodes.len() {
        return list.to_owned();
    }
    let i: usize = id as usize;
    let text = add_line(list, nodes[i].name.as_str());
    let ghost before = nodes@;
    let target = nodes[i].path.copy();
    let n = nodes.len();
    let mut k: usize = 0;
    while k < n
        invariant
            n == before.len(),
            nodes@.len() == n,
            k <= n,
            i < n,
            target@ == before[i as int].path@,
            forall|j: int|
                0 <= j < k ==> #[trigger] nodes@[j] == protected_under(before[j], before[i as int]),
            forall|j: int| k <= j < n ==> #[trigger] nodes@[j] == before[j],
        decreases n - k,
    {
        if nodes[k].path.is_within(&target) {
            nodes[k].status = PROTECTED;
        }
        k += 1;
    }
    text
}

/// After an exclusion nothing at or under the excluded path counts as empty.
pub proof fn excluded_is_never_empty(before: Seq<DirectoryNode>, after: Seq<DirectoryNode>, i: int)
    requires
        0 <= i < before.len(),
        after.len() == before.len(),
        forall|k: int|
            0 <= k < before.len() ==> #[trigger] after[k] == protected_under(before[k], before[i]),
    ensures
        after[i].status == PROTECTED,
        forall|k: int|
            0 <= k < after.len() && within((#[trigger] after[k]).path@, before[i].path@)
                ==> after[k].status == PROTECTED,
{
    let p = before[i].path@;
    assert(p.take(p.len() as int) == p);
}

} // verus!

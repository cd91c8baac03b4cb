use redr::config::{
    default_settings, get_config_dir, get_default_ignore_dirs, load_settings, packages_places,
    AppSettings,
};
use redr::gui::{
    add_line, add_to_exclusions, count_empty, gui_delete_settings, gui_scan_settings,
    mft_failed_line, reset_defaults, settings_to_ui, toggle_expand, ui_to_settings, use_mft, Panel,
    ScanStart, UiState,
};
use redr::logger::{
    apply_changes, at_least_one, log_event, log_file_line, status_events, LogEvent, LogPump,
};
use redr::path::DirPath;
use redr::tree::DirectoryNode;
use redr::visible::rebuild_visible_items;

fn node(names: &[&str], status: i32, last: bool) -> DirectoryNode {
    DirectoryNode {
        path: DirPath {
            names: names.iter().map(|n| n.as_bytes().to_vec()).collect(),
        },
        name: names.last().unwrap().to_string(),
        path_str: names.join("/"),
        depth: names.len() as i32 - 1,
        status,
        has_children: false,
        is_expanded: true,
        is_last_sibling: last,
        is_hidden: false,
        is_symlink: false,
    }
}

fn tree() -> Vec<DirectoryNode> {
    vec![
        node(&["r"], 0, true),
        node(&["r", "a"], 1, false),
        node(&["r", "a", "b"], 1, false),
        node(&["r", "a", "b", "c"], 1, true),
        node(&["r", "a", "d"], 1, true),
        node(&["r", "e"], 3, true),
        node(&["r", "e", "f"], 1, true),
    ]
}

fn settings() -> AppSettings {
    AppSettings {
        ignore_list_text: " Temp \n\nKeep*".to_string(),
        ignore_files_text: "a.ini\n b.db".to_string(),
        max_depth: 7,
        pause_ms: 5,
        min_age_hours: 3,
        delete_mode: 1,
        auto_save_logs: true,
        mft_scan: true,
        dry_run: true,
        ..default_settings(None, None)
    }
}

fn ui() -> UiState {
    settings_to_ui(settings(), Some("/data".to_string()))
}

#[test]
fn all_rows_with_their_lines() {
    let items = rebuild_visible_items(&tree());
    let lines: Vec<Vec<i32>> = items.iter().map(|i| i.tree_lines.clone()).collect();
    assert_eq!(
        lines,
        vec![
            vec![],
            vec![2],
            vec![1, 2],
            vec![1, 1, 3],
            vec![1, 3],
            vec![3],
            vec![0, 3],
        ]
    );
    let ids: Vec<i32> = items.iter().map(|i| i.id).collect();
    assert_eq!(ids, vec![0, 1, 2, 3, 4, 5, 6]);
    assert!(items[0].is_root);
    assert!(!items[1].is_root);
    assert_eq!(items[3].name, "c");
    assert_eq!(items[3].path, "r/a/b/c");
    assert_eq!(items[5].status, 3);
}

#[test]
fn collapsed_rows_hide_what_is_below() {
    let mut nodes = tree();
    toggle_expand(&mut nodes, 2);
    let ids = |nodes: &Vec<DirectoryNode>| -> Vec<i32> {
        rebuild_visible_items(nodes).iter().map(|i| i.id).collect()
    };
    assert_eq!(ids(&nodes), vec![0, 1, 2, 4, 5, 6]);
    toggle_expand(&mut nodes, 1);
    assert_eq!(ids(&nodes), vec![0, 1, 5, 6]);
    toggle_expand(&mut nodes, 1);
    toggle_expand(&mut nodes, 2);
    assert_eq!(ids(&nodes).len(), 7);
    toggle_expand(&mut nodes, -1);
    toggle_expand(&mut nodes, 7);
    assert_eq!(ids(&nodes).len(), 7);
    toggle_expand(&mut nodes, 0);
    assert_eq!(ids(&nodes), vec![0]);
}

#[test]
fn collapsing_leaves_the_other_rows_as_they_are() {
    let open = tree();
    let mut shut = tree();
    toggle_expand(&mut shut, 1);
    let rows = |nodes: &Vec<DirectoryNode>| -> Vec<(i32, Vec<i32>)> {
        rebuild_visible_items(nodes)
            .iter()
            .map(|i| (i.id, i.tree_lines.clone()))
            .collect()
    };
    let kept: Vec<(i32, Vec<i32>)> = rows(&open)
        .into_iter()
        .filter(|(id, _)| ![2, 3, 4].contains(id))
        .collect();
    assert_eq!(rows(&shut), kept);
    assert_eq!(kept.len(), 4);
}

#[test]
fn settings_come_back_from_the_controls() {
    let back = ui_to_settings(&ui());
    let s = settings();
    assert_eq!(back.ignore_list_text, s.ignore_list_text);
    assert_eq!(back.ignore_files_text, s.ignore_files_text);
    assert_eq!(
        (back.max_depth, back.pause_ms, back.min_age_hours, back.delete_mode),
        (7, 5, 3, 1)
    );
    assert!(back.auto_save_logs && back.mft_scan && back.dry_run);
    assert!(back.consider_empty_files_empty && back.ignore_hidden && back.ignore_errors);
    assert!(back.hide_search_errors && back.skip_system);
    assert_eq!(ui().selected_folder, "/data");
    assert_eq!(settings_to_ui(settings(), None).selected_folder, "");
}

#[test]
fn controls_are_reset() {
    let mut state = ui();
    reset_defaults(&mut state, "X".to_string());
    assert_eq!(state.ignore_list_text, "X");
    assert_eq!(state.ignore_files_text, "desktop.ini\nThumbs.db\n.DS_Store");
    assert_eq!((state.max_depth, state.pause_ms, state.delete_mode), (-1, 0, 0));
    assert!(!state.dry_run);
    assert!(state.auto_save_logs && state.mft_scan);
    assert_eq!(state.selected_folder, "/data");
}

#[test]
fn settings_of_a_scan_from_the_controls() {
    let s = gui_scan_settings(&ui());
    assert_eq!(s.ignore_dirs, vec!["Temp".to_string(), "Keep*".to_string()]);
    assert_eq!(s.ignore_files, vec!["a.ini".to_string(), "b.db".to_string()]);
    assert_eq!((s.min_age_hours, s.max_depth), (3, 7));
    assert!(s.ignore_hidden && s.keep_system && s.consider_empty_files_empty);
    assert!(s.hide_search_errors);
    let negative = UiState {
        min_age_hours: -1,
        ..ui()
    };
    assert_eq!(gui_scan_settings(&negative).min_age_hours, 4294967295);
}

#[test]
fn settings_of_a_deletion_from_the_controls() {
    let d = gui_delete_settings(&ui());
    assert!(!d.move_to_trash && d.ignore_errors && d.dry_run);
    assert_eq!(d.pause_ms, 5);
    assert_eq!(d.ignore_files, vec!["a.ini".to_string(), "b.db".to_string()]);
    let trash = UiState {
        delete_mode: 0,
        ..ui()
    };
    assert!(gui_delete_settings(&trash).move_to_trash);
}

fn panel() -> Panel {
    Panel {
        is_scanning: false,
        is_deleting: false,
        status_msg: "before".to_string(),
        progress: (0.25f32).to_bits(),
        empty_count: 7,
        deleted_count: 8,
        failed_count: 9,
    }
}

fn counts(p: &Panel) -> (i32, i32, i32) {
    (p.empty_count, p.deleted_count, p.failed_count)
}

#[test]
fn a_scan_needs_a_folder() {
    let mut p = panel();
    assert!(matches!(p.begin_scan(&ui()), ScanStart::Scan(f) if f == "/data"));
    assert!(p.is_scanning && !p.is_deleting);
    assert_eq!(p.status_msg, "Scanning...");
    assert_eq!(f32::from_bits(p.progress), 0.0);
    assert_eq!(counts(&p), (7, 8, 9));
    let none = settings_to_ui(settings(), None);
    let mut p = panel();
    assert!(
        matches!(p.begin_scan(&none), ScanStart::NoFolder(l) if l == "Please select a folder first.")
    );
    assert!(!p.is_scanning);
    assert!(use_mft(true, true, true));
    assert!(!use_mft(true, false, true));
    assert!(!use_mft(true, true, false));
    assert!(!use_mft(false, true, true));
}

#[test]
fn the_end_of_a_scan_is_shown() {
    let mut p = panel();
    p.is_scanning = true;
    assert_eq!(
        p.scan_found(&tree()),
        "[+] Found 5 empty directories (7 shown in tree)."
    );
    assert_eq!(p.status_msg, "Found 5 empty directories.");
    assert!(!p.is_scanning);
    assert_eq!(f32::from_bits(p.progress), 1.0);
    assert_eq!(counts(&p), (5, 0, 0));

    let mut p = panel();
    p.is_scanning = true;
    assert_eq!(
        p.scan_failed("Operation cancelled by user"),
        "[!] Operation cancelled by user"
    );
    assert_eq!(p.status_msg, "Scan cancelled.");
    assert!(!p.is_scanning);
    assert_eq!(f32::from_bits(p.progress), 0.25);
    assert_eq!(counts(&p), (7, 8, 9));
    assert_eq!(p.scan_failed("oops"), "[!] oops");
    assert_eq!(p.status_msg, "Scan failed.");
    assert_eq!(
        mft_failed_line("no"),
        "[!] Direct MFT Scan failed: no. Falling back to standard scan..."
    );
}

#[test]
fn a_deletion_is_shown() {
    let mut p = panel();
    p.begin_delete();
    assert!(p.is_deleting);
    assert_eq!(p.status_msg, "Deleting...");
    assert_eq!(f32::from_bits(p.progress), 0.0);
    p.cancel_requested();
    assert_eq!(p.status_msg, "Cancellation requested...");
    assert_eq!(
        p.deletion_finished(12, 3, true),
        "[+] Deletion finished. Deleted: 12, Failed: 3"
    );
    assert_eq!(p.status_msg, "Deletion cancelled.");
    assert!(!p.is_deleting);
    assert_eq!(counts(&p), (7, 12, 3));
    assert_eq!(f32::from_bits(p.progress), 1.0);
    p.deletion_finished(0, 0, false);
    assert_eq!(p.status_msg, "Deletion complete.");
    p.begin_delete();
    p.nothing_to_delete();
    assert!(!p.is_deleting);
    assert_eq!(p.status_msg, "Deleting...");
    p.recount(&tree());
    assert_eq!(p.empty_count, 5);
}

#[test]
fn exclusions_protect_what_is_below() {
    let mut nodes = tree();
    let text = add_to_exclusions(&mut nodes, 2, "x");
    assert_eq!(text, "x\nb");
    let statuses: Vec<i32> = nodes.iter().map(|n| n.status).collect();
    assert_eq!(statuses, vec![0, 1, 3, 3, 1, 3, 1]);
    assert_eq!(count_empty(&nodes), 3);
    assert_eq!(add_to_exclusions(&mut nodes, 2, &text), text);
    assert_eq!(add_to_exclusions(&mut nodes, 99, "y"), "y");
    assert_eq!(add_to_exclusions(&mut nodes, -1, "y"), "y");
    assert_eq!(count_empty(&nodes), 3);
}

#[test]
fn lines_are_added_once() {
    assert_eq!(add_line("", "a"), "a");
    assert_eq!(add_line("b", "a"), "b\na");
    assert_eq!(add_line("b\n", "a"), "b\na");
    assert_eq!(add_line("b\n  a \nc", "a"), "b\n  a \nc");
    let once = add_line("b", "a");
    assert_eq!(add_line(&once, "a"), once);
}

#[test]
fn events_of_the_log() {
    assert!(matches!(log_event("hi"), LogEvent::Msg(s) if s == "hi\n"));
    let events = status_events("gone", 4, 2);
    assert!(matches!(&events[0], LogEvent::Msg(s) if s == "gone\n"));
    assert!(matches!(events[1], LogEvent::StatusChange(4, 2)));
}

#[test]
fn a_batch_of_events() {
    let mut pump = LogPump::new();
    let batch = pump.take_in(&vec![
        LogEvent::Msg("a\n".to_string()),
        LogEvent::StatusChange(1, 2),
        LogEvent::Progress(1),
        LogEvent::Msg("b\n".to_string()),
        LogEvent::StatusChange(9, 4),
        LogEvent::Progress(2),
    ]);
    assert_eq!(batch.messages, vec!["a\n".to_string(), "b\n".to_string()]);
    assert_eq!(batch.changes, vec![(1, 2), (9, 4)]);
    assert_eq!(batch.progress, Some(2));
    assert_eq!(batch.log_text, Some("a\nb\n".to_string()));
    let mut nodes = tree();
    apply_changes(&mut nodes, &batch.changes);
    assert_eq!(nodes[1].status, 2);
    assert!(pump.should_rebuild(0, nodes.len(), None));
    assert!(!pump.should_rebuild(1000, nodes.len(), None));
    let batch = pump.take_in(&vec![LogEvent::Progress(5)]);
    assert_eq!(batch.log_text, None);
    assert!(!pump.pending);
}

#[test]
fn the_last_lines_are_kept() {
    let mut pump = LogPump::new();
    let events: Vec<LogEvent> = (0..260).map(|i| LogEvent::Msg(format!("{i};"))).collect();
    pump.take_in(&events);
    assert_eq!(pump.lines.len(), 250);
    assert_eq!(pump.lines[0], "10;");
    let batch = pump.take_in(&vec![LogEvent::Msg("x".to_string())]);
    assert_eq!(pump.lines[0], "11;");
    assert!(batch.log_text.unwrap().ends_with("259;x"));
}

#[test]
fn one_batch_or_two_leave_the_same_lines() {
    let events = |from: usize, to: usize| -> Vec<LogEvent> {
        (from..to).map(|i| LogEvent::Msg(format!("{i};"))).collect()
    };
    let mut one = LogPump::new();
    one.take_in(&events(0, 300));
    let mut two = LogPump::new();
    two.take_in(&events(0, 255));
    two.take_in(&events(255, 300));
    assert_eq!(one.lines, two.lines);
    assert_eq!(one.lines[0], "50;");
}

#[test]
fn a_first_session_deletes_to_the_trash() {
    let controls = settings_to_ui(load_settings(None, None, None), None);
    let d = gui_delete_settings(&controls);
    assert!(d.move_to_trash && !d.dry_run && d.ignore_errors);
    assert_eq!(d.pause_ms, 0);
}

#[test]
fn a_large_tree_is_shown_again_after_a_while_or_at_the_end() {
    let changed = vec![LogEvent::StatusChange(0, 2)];
    let mut pump = LogPump::new();
    pump.take_in(&changed);
    assert!(!pump.should_rebuild(119, 150, None));
    assert!(pump.should_rebuild(120, 150, None));
    pump.take_in(&changed);
    assert!(pump.should_rebuild(0, 149, None));
    pump.take_in(&changed);
    assert!(!pump.should_rebuild(0, 150, Some((0.5f32).to_bits())));
    assert!(pump.should_rebuild(0, 150, Some((1.0f32).to_bits())));
}

#[test]
fn numbers_of_at_least_one() {
    for p in [1.0f32, 1.5, f32::MAX, f32::INFINITY] {
        assert!(at_least_one(p.to_bits()));
    }
    for p in [0.0f32, 0.99999994, -1.0, -2.0, f32::NEG_INFINITY, f32::NAN, -f32::NAN] {
        assert!(!at_least_one(p.to_bits()));
    }
}

#[test]
fn lines_of_the_log_file() {
    assert_eq!(
        log_file_line("2024-01-02 03:04:05", "done \u{2003}\n"),
        "[2024-01-02 03:04:05] done"
    );
}

#[test]
fn default_settings_of_a_first_session() {
    let s = load_settings(None, None, None);
    assert!(s.ignore_list_text.starts_with("System Volume Information\nRECYCLER\nRecycled\n"));
    assert!(s.ignore_list_text.ends_with("\nSystem32\nAppData\\Local\\Packages"));
    assert_eq!(s.ignore_files_text, "desktop.ini\nThumbs.db\n.DS_Store");
    assert_eq!((s.delete_mode, s.max_depth, s.pause_ms, s.min_age_hours), (0, -1, 0, 0));
    assert!(!s.auto_save_logs && !s.mft_scan && !s.dry_run);
    assert!(s.consider_empty_files_empty && s.ignore_hidden && s.ignore_errors);
    assert!(s.hide_search_errors && s.skip_system);
    assert_eq!(load_settings(Some(settings()), None, None).max_depth, 7);
}

#[test]
fn the_packages_directory_is_looked_for_in_two_places() {
    let some = |s: &str| Some(s.to_string());
    assert!(get_default_ignore_dirs(some("L"), some("P")).ends_with("System32\nL"));
    assert!(get_default_ignore_dirs(None, some("P")).ends_with("System32\nP"));
    assert_eq!(
        get_default_ignore_dirs(None, None),
        "System Volume Information\nRECYCLER\nRecycled\nNtUninstall\n$RECYCLE.BIN\nGAC_MSIL\n\
         GAC_32\nwinsxs\nSystem32\nAppData\\Local\\Packages"
    );
}

#[test]
fn the_places_of_the_packages() {
    let (local, profile) = packages_places();
    assert_eq!(local.variable, "LOCALAPPDATA");
    assert_eq!(local.below, vec!["Packages"]);
    assert_eq!(profile.variable, "USERPROFILE");
    assert_eq!(profile.below, vec!["AppData", "Local", "Packages"]);
}

#[test]
fn the_directory_of_the_settings() {
    let dir = |names: &[&str]| {
        Some(DirPath {
            names: names.iter().map(|n| n.as_bytes().to_vec()).collect(),
        })
    };
    let data = get_config_dir(dir(&["/", "data"]), dir(&["/", "home"])).unwrap();
    assert_eq!(data.names, dir(&["/", "data", "REDR"]).unwrap().names);
    let home = get_config_dir(None, dir(&["/", "home"])).unwrap();
    assert_eq!(home.names, dir(&["/", "home", ".config", "REDR"]).unwrap().names);
    assert!(get_config_dir(None, None).is_none());
}

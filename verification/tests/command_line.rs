use redr::cli::{json_dirs, Cli};
use redr::cli_run::{run_cli, CliPhase};
use redr::path::DirPath;
use redr::sys::{
    check_registry_integration, exe_error, is_admin, is_elevated, is_registered, menu_keys,
    registry_values, set_registry_integration,
};
use redr::text::{
    cat, cat3, concat_all, contains_char, contains_item, copy_texts, decimal_text, end_trimmed,
    join_lines, replace_char, split_list, split_trimmed, trimmed,
};
use redr::tree::DirectoryNode;
use redr::wild::{any_matches, fold_path, make_dir_patterns, widen_entry};

fn cli() -> Cli {
    Cli {
        path: Some("/data".to_string()),
        quiet: false,
        delete: false,
        dry_run: false,
        json: false,
        mft_scan: false,
        max_depth: -1,
        delete_permanently: false,
        ignore_files: "desktop.ini, Thumbs.db,,.DS_Store ".to_string(),
        ignore_dirs: "System Volume Information,$RECYCLE.BIN".to_string(),
        ignore_hidden: true,
        keep_system: true,
        min_age_hours: 4,
        consider_empty_files_empty: true,
        hide_search_errors: false,
    }
}

fn nodes(statuses: &[i32]) -> Vec<DirectoryNode> {
    statuses
        .iter()
        .enumerate()
        .map(|(i, s)| DirectoryNode {
            path: DirPath { names: vec![] },
            name: "n".to_string(),
            path_str: format!("/p{i}"),
            depth: 0,
            status: *s,
            has_children: false,
            is_expanded: true,
            is_last_sibling: true,
            is_hidden: false,
            is_symlink: false,
        })
        .collect()
}

#[test]
fn the_window_is_left_out_where_it_is_not_needed() {
    assert!(!cli().is_headless());
    assert!(Cli { quiet: true, ..cli() }.is_headless());
    assert!(Cli { delete: true, ..cli() }.is_headless());
    assert!(Cli { json: true, ..cli() }.is_headless());
    assert!(!Cli { dry_run: true, ..cli() }.is_headless());
    assert!(cli().is_talkative());
    assert!(!Cli { quiet: true, ..cli() }.is_talkative());
    assert!(!Cli { json: true, ..cli() }.is_talkative());
}

#[test]
fn a_path_is_required() {
    assert_eq!(cli().scan_path(), Ok("/data".to_string()));
    assert_eq!(
        Cli { path: None, ..cli() }.scan_path(),
        Err("Path is required for CLI/Quiet/JSON mode.".to_string())
    );
}

#[test]
fn settings_from_the_arguments() {
    let s = cli().scan_settings();
    assert_eq!(s.ignore_files, vec!["desktop.ini", "Thumbs.db", ".DS_Store"]);
    assert_eq!(s.ignore_dirs, vec!["System Volume Information", "$RECYCLE.BIN"]);
    assert_eq!((s.min_age_hours, s.max_depth), (4, -1));
    assert!(s.ignore_hidden && s.keep_system && s.consider_empty_files_empty);
    assert!(!s.hide_search_errors);
    let d = cli().delete_settings(&s);
    assert!(d.move_to_trash && d.ignore_errors && !d.dry_run && d.consider_empty_files_empty);
    assert_eq!(d.pause_ms, 0);
    assert_eq!(d.ignore_files, s.ignore_files);
    let hard = Cli {
        delete_permanently: true,
        dry_run: true,
        ..cli()
    };
    assert!(!hard.delete_settings(&s).move_to_trash);
    assert!(hard.delete_settings(&s).dry_run);
}

#[test]
fn lines_about_results() {
    let found = nodes(&[1, 0, 3, 1]);
    assert_eq!(
        cli().found_line(&found),
        Some("[+] Found 2 empty directories.".to_string())
    );
    assert_eq!(Cli { quiet: true, ..cli() }.found_line(&found), None);
    assert_eq!(
        cli().deleted_line(10, 2),
        Some("[+] Deletion complete. Deleted: 10, Failed: 2".to_string())
    );
    assert_eq!(Cli { json: true, ..cli() }.deleted_line(10, 2), None);
    assert!(!cli().wants_deletion(&found));
    assert!(Cli { delete: true, ..cli() }.wants_deletion(&found));
    assert!(!Cli { delete: true, ..cli() }.wants_deletion(&nodes(&[0, 3])));
}

#[test]
fn reports() {
    let dirs = json_dirs(&nodes(&[1, 0, 3, 4]));
    let rows: Vec<(String, String)> = dirs
        .iter()
        .map(|d| (d.path.clone(), d.status.clone()))
        .collect();
    let row = |p: &str, s: &str| (p.to_string(), s.to_string());
    assert_eq!(
        rows,
        vec![
            row("/p0", "empty"),
            row("/p1", "normal"),
            row("/p2", "protected"),
            row("/p3", "normal"),
        ]
    );
    assert!(cli().report("/data", vec![], None).is_none());
    let json = Cli {
        json: true,
        dry_run: true,
        ..cli()
    };
    let report = json.report("/data", dirs, Some((3, 1))).unwrap();
    assert_eq!(report.scan_path, "/data");
    assert_eq!(report.empty_directories_found.len(), 4);
    let summary = report.deletion_summary.unwrap();
    assert_eq!((summary.deleted, summary.failed, summary.dry_run), (3, 1, true));
    assert!(json.report("/data", vec![], None).unwrap().deletion_summary.is_none());
}

#[test]
fn a_run_without_deletion() {
    let mut run = run_cli(cli(), true, true).ok().unwrap();
    assert_eq!(run.phase, CliPhase::Walk);
    assert_eq!(run.path, "/data");
    assert_eq!(run.settings.ignore_files.len(), 3);
    let line = run.scanned(&Ok(nodes(&[1, 0])));
    assert_eq!(line, Ok(Some("[+] Found 1 empty directories.".to_string())));
    assert_eq!(run.phase, CliPhase::Done);
    assert!(run.report.is_none());
}

#[test]
fn a_failed_table_is_followed_by_a_walk() {
    let by_table = Cli { mft_scan: true, ..cli() };
    let mut run = run_cli(by_table, true, true).ok().unwrap();
    assert_eq!(run.phase, CliPhase::Table);
    assert_eq!(run.scanned(&Err("no table".to_string())), Ok(None));
    assert_eq!(run.phase, CliPhase::Walk);
    assert_eq!(
        run.scanned(&Err("no walk".to_string())),
        Err("no walk".to_string())
    );
    assert_eq!(run.phase, CliPhase::Done);
    for (windows, admin) in [(false, true), (true, false)] {
        let by_table = Cli { mft_scan: true, ..cli() };
        let run = run_cli(by_table, windows, admin).ok().unwrap();
        assert_eq!(run.phase, CliPhase::Walk);
    }
    assert_eq!(
        run_cli(Cli { path: None, ..cli() }, false, false).err().unwrap(),
        "Path is required for CLI/Quiet/JSON mode."
    );
}

#[test]
fn a_run_with_deletion_and_report() {
    let args = Cli {
        json: true,
        delete: true,
        dry_run: true,
        ..cli()
    };
    let mut run = run_cli(args, false, false).ok().unwrap();
    assert_eq!(run.scanned(&Ok(nodes(&[1, 3]))), Ok(None));
    assert_eq!(run.phase, CliPhase::Delete);
    assert_eq!(run.deleted(1, 0), None);
    assert_eq!(run.phase, CliPhase::Done);
    let report = run.report.unwrap();
    assert_eq!(report.scan_path, "/data");
    assert_eq!(report.empty_directories_found[0].status, "empty");
    assert_eq!(report.empty_directories_found[1].status, "protected");
    let summary = report.deletion_summary.unwrap();
    assert_eq!((summary.deleted, summary.failed, summary.dry_run), (1, 0, true));

    let args = Cli { json: true, delete: true, ..cli() };
    let mut run = run_cli(args, false, false).ok().unwrap();
    assert_eq!(run.scanned(&Ok(nodes(&[3]))), Ok(None));
    assert_eq!(run.phase, CliPhase::Done);
    assert!(run.report.unwrap().deletion_summary.is_none());
    let mut run = run_cli(Cli { delete: true, ..cli() }, false, false).ok().unwrap();
    assert!(run.scanned(&Ok(nodes(&[1]))).is_ok());
    assert_eq!(
        run.deleted(1, 2),
        Some("[+] Deletion complete. Deleted: 1, Failed: 2".to_string())
    );
}

#[test]
fn without_a_menu_there_is_no_entry() {
    assert!(!check_registry_integration());
    assert_eq!(set_registry_integration(true), Ok(()));
    assert_eq!(set_registry_integration(false), Ok(()));
    assert!(!is_admin());
}

#[test]
fn elevation_and_registration() {
    assert!(is_elevated(Some(1)));
    assert!(!is_elevated(Some(0)));
    assert!(!is_elevated(None));
    assert!(is_registered(true, false));
    assert!(is_registered(false, true));
    assert!(!is_registered(false, false));
    assert_eq!(exe_error("x"), "Failed to resolve current executable path: x");
}

#[test]
fn values_of_the_menu_entry() {
    let rows: Vec<String> = registry_values("C:\\redr.exe")
        .iter()
        .map(|v| format!("{}|{}|{}", v.key, v.name, v.text))
        .collect();
    let folder = "Software\\Classes\\Directory\\shell\\RemoveEmptyDirs";
    let background = "Software\\Classes\\Directory\\Background\\shell\\RemoveEmptyDirs";
    assert_eq!(
        rows,
        vec![
            format!("{folder}||Remove empty folders here"),
            format!("{folder}|Icon|C:\\redr.exe"),
            format!("{folder}\\command||\"C:\\redr.exe\" \"%1\""),
            format!("{background}||Remove empty folders here"),
            format!("{background}|Icon|C:\\redr.exe"),
            format!("{background}\\command||\"C:\\redr.exe\" \"%V\""),
        ]
    );
    assert_eq!(menu_keys(), vec![folder.to_string(), background.to_string()]);
}

#[test]
fn patterns() {
    let matches = |p: &str, s: &str| any_matches(&vec![p.to_string()], s);
    assert!(matches("*", ""));
    assert!(matches("a*c", "abbc"));
    assert!(matches("a*c", "ac"));
    assert!(!matches("a*c", "acd"));
    assert!(matches("?", "\u{e4}"));
    assert!(!matches("?", ""));
    assert!(!matches("", "a"));
    assert!(matches("", ""));
    assert!(!matches("A", "a"));
    assert!(matches("*a*b*", "xxaxxbxx"));
    assert!(matches("**", "any"));
    assert!(!matches("*?", ""));
    assert!(!any_matches(&vec![], ""));
    assert!(any_matches(&vec!["x".to_string(), "y".to_string()], "y"));
}

#[test]
fn patterns_of_directories() {
    assert_eq!(fold_path("C:\\\u{c4}\\B/c"), "c:/\u{e4}/b/c");
    assert_eq!(widen_entry("abc".to_string()), "*abc*");
    assert_eq!(widen_entry("a*c".to_string()), "a*c");
    assert_eq!(widen_entry("a?".to_string()), "a?");
    assert_eq!(
        make_dir_patterns(&vec!["WinSxS".to_string(), "*\\Tmp".to_string()]),
        vec!["*winsxs*".to_string(), "*/tmp".to_string()]
    );
}

#[test]
fn texts() {
    assert_eq!(split_list(" a ,, b,c ", ','), vec!["a", "b", "c"]);
    assert!(split_list("", ',').is_empty());
    assert!(split_list(" , ", ',').is_empty());
    assert_eq!(split_trimmed(" a ,,b", ','), vec!["a", "", "b"]);
    assert!(contains_item("x\n y \nz", '\n', "y"));
    assert!(!contains_item("x\n y \nz", '\n', " y "));
    assert!(contains_item("", '\n', ""));
    assert_eq!(trimmed("\u{a0} x y \t"), "x y");
    assert_eq!(end_trimmed(" x \r\n"), " x");
    assert_eq!(decimal_text(0), "0");
    assert_eq!(decimal_text(1207), "1207");
    assert_eq!(decimal_text(usize::MAX), usize::MAX.to_string());
    assert_eq!(cat("a", "b"), "ab");
    assert_eq!(cat3("a", "b", "c"), "abc");
    let list = vec!["a".to_string(), "b".to_string()];
    assert_eq!(join_lines(&list), "a\nb");
    assert_eq!(concat_all(&list), "ab");
    assert_eq!(copy_texts(&list), list);
    assert_eq!(replace_char("a\\b\\", '\\', '/'), "a/b/");
    assert!(contains_char("abc", 'c'));
    assert!(!contains_char("abc", 'd'));
}

#[test]
fn blanks_and_empty_items_change_nothing_about_a_run() {
    let plain = Cli {
        ignore_files: "desktop.ini,Thumbs.db,.DS_Store".to_string(),
        ..cli()
    };
    let one = run_cli(plain, false, true).ok().unwrap();
    let other = Cli {
        mft_scan: true,
        max_depth: -7,
        ignore_dirs: " , System Volume Information\u{a0},\t$RECYCLE.BIN,".to_string(),
        ..cli()
    };
    let two = run_cli(other, false, true).ok().unwrap();
    assert_eq!(one.settings.ignore_files, two.settings.ignore_files);
    assert_eq!(one.settings.ignore_dirs, two.settings.ignore_dirs);
    assert_eq!(one.phase, two.phase);
    assert_eq!(one.path, two.path);
    assert_eq!(two.settings.ignore_dirs, vec!["System Volume Information", "$RECYCLE.BIN"]);
    assert!(split_list(" , ,\u{3000}", ',').is_empty());
}

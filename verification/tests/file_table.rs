use redr::mft::MftRecord;
use redr::mft_drive::{
    cut_at, drive_letter, from_drive_root, make_drive_root, raw_path_form, table_error,
    volume_error, volume_name, RawPath, VolumePrefix,
};
use redr::mft_path::{
    begins_with, count_slashes, folder, is_at_drive, is_below, make_path_key, stripped_end,
};
use redr::mft_report::{check_depths, MftEntry};
use redr::mft_scan::{begin_mft_scan, begin_table, scan_empty_dirs_mft, MftChild, MftScan};
use redr::path::DirPath;
use redr::scanner::ScanSettings;
use std::sync::atomic::AtomicBool;

fn settings() -> ScanSettings {
    ScanSettings {
        ignore_files: vec!["*.tmp".to_string()],
        ignore_dirs: vec!["keep".to_string()],
        ignore_hidden: true,
        keep_system: true,
        min_age_hours: 0,
        max_depth: -1,
        consider_empty_files_empty: true,
        hide_search_errors: true,
    }
}

fn record(path: &str, is_directory: bool) -> MftRecord {
    MftRecord {
        path: path.to_string(),
        file_name: path.rsplit('\\').next().unwrap().to_string(),
        is_directory,
        size: if is_directory { None } else { Some(1) },
    }
}

fn table() -> Vec<MftRecord> {
    vec![
        record("C:\\", true),
        record("C:\\Data", true),
        record("C:\\Data\\A", true),
        record("C:\\Data\\A\\B", true),
        record("C:\\Data\\Full", true),
        record("C:\\Data\\Full\\file.txt", false),
        record("C:\\Data\\Full\\Inner", true),
        record("C:\\Data\\T", true),
        record("C:\\Data\\T\\x.tmp", false),
        record("C:\\Other", true),
    ]
}

fn places(scan: &MftScan) -> Vec<String> {
    let mut list = scan.places()[1..].to_vec();
    list.sort();
    list
}

fn entry(text: &str) -> MftEntry {
    let mut names: Vec<Vec<u8>> = vec![b"C:".to_vec(), b"\\".to_vec()];
    for part in text[3..].split('\\') {
        names.push(part.as_bytes().to_vec());
    }
    MftEntry {
        path: DirPath { names },
        text: text.to_string(),
        name: text.rsplit('\\').next().unwrap().to_string(),
        is_symlink: false,
        marked_hidden: false,
        is_system: false,
        age_secs: None,
    }
}

fn subdir(path: &str) -> MftChild {
    MftChild {
        is_dir: true,
        path: path.to_string(),
        name: path.rsplit('\\').next().unwrap().to_string(),
        size: None,
    }
}

fn plain(name: &str, size: u64) -> MftChild {
    MftChild {
        is_dir: false,
        path: name.to_string(),
        name: name.to_string(),
        size: Some(size),
    }
}

fn look(path: &str) -> Option<Vec<MftChild>> {
    match path {
        "C:\\Data\\A" => Some(vec![subdir("c:\\data\\a\\b")]),
        "C:\\Data\\A\\B" => Some(vec![plain("zero", 0)]),
        "C:\\Data\\T" => Some(vec![plain("x.tmp", 5)]),
        "C:\\Data\\Full\\Inner" => Some(vec![]),
        _ => None,
    }
}

fn finish(scan: &mut MftScan) -> Vec<String> {
    let mut seen = Vec::new();
    while let Some(path) = scan.next_dir() {
        let found = look(&path);
        seen.push(path);
        scan.checked(found);
    }
    seen
}

#[test]
fn keys_are_lowercase_without_a_separator_at_the_end() {
    assert_eq!(make_path_key("C:\\Data\\\\"), "c:\\data");
    assert_eq!(make_path_key("C:\\"), "c:\\");
    assert_eq!(make_path_key("\u{c4}B"), "\u{e4}b");
    assert_eq!(make_path_key(""), "");
}

#[test]
fn folders_of_paths() {
    assert_eq!(folder("c:\\data\\a"), Some("c:\\data".to_string()));
    assert_eq!(folder("c:\\data"), Some("c:\\".to_string()));
    assert_eq!(folder("c:\\"), Some("c:\\".to_string()));
    assert_eq!(folder("\\x"), Some("".to_string()));
    assert_eq!(folder("x"), None);
    assert!(is_at_drive("c:\\"));
    assert!(!is_at_drive("\\"));
    assert_eq!(count_slashes("c:\\data\\a"), 2);
    assert!(begins_with("c:\\data", "c:\\"));
    assert!(!begins_with("c:", "c:\\"));
    assert_eq!(stripped_end("a::", ':'), "a");
}

#[test]
fn drive_letters() {
    assert_eq!(drive_letter(VolumePrefix::Disk(b'C'), None), Ok('C'));
    assert_eq!(
        drive_letter(VolumePrefix::Missing, Some("d:\\".to_string())),
        Ok('d')
    );
    assert_eq!(
        drive_letter(VolumePrefix::Network, None),
        Err("Direct MFT Scan is not supported on network UNC shares.".to_string())
    );
    assert_eq!(
        drive_letter(VolumePrefix::Device, None),
        Err("Direct MFT Scan is not supported on this type of device volume.".to_string())
    );
    assert_eq!(
        drive_letter(VolumePrefix::Missing, None),
        Err("Failed to parse volume drive letter from path".to_string())
    );
    let wrong = "Invalid drive letter extracted: 'data'. \
                 Direct MFT Scan requires a local disk drive (e.g., C:).";
    assert_eq!(
        drive_letter(VolumePrefix::Missing, Some("data".to_string())),
        Err(wrong.to_string())
    );
    assert!(drive_letter(VolumePrefix::Disk(b'1'), None).is_err());
    assert!(drive_letter(VolumePrefix::Missing, Some(":".to_string())).is_err());
}

#[test]
fn names_and_errors_of_a_volume() {
    assert_eq!(volume_name('C'), "\\\\.\\C:");
    assert_eq!(make_drive_root('C'), "C:\\");
    assert_eq!(
        volume_error("denied"),
        "Failed to open physical NTFS volume (Requires Administrator privileges): denied"
    );
    assert_eq!(
        table_error("bad"),
        "Failed to initialize Master File Table parser: bad"
    );
}

#[test]
fn raw_paths_are_completed() {
    assert_eq!(raw_path_form("\\Windows"), RawPath::FromRoot);
    assert_eq!(raw_path_form("\\\\.\\C:\\Windows"), RawPath::Whole);
    assert_eq!(raw_path_form("Windows"), RawPath::Relative);
    assert_eq!(raw_path_form("C:\\Windows"), RawPath::Whole);
    assert_eq!(raw_path_form("\\\\.\\x"), RawPath::Relative);
}

#[test]
fn paths_are_cut_at_the_drive() {
    assert_eq!(
        from_drive_root("\\\\.\\C:\\Data", 'c'),
        Some("C:\\Data".to_string())
    );
    assert_eq!(from_drive_root("D:\\x", 'c'), Some("D:\\x".to_string()));
    assert_eq!(from_drive_root("C:\\x", 'C'), Some("C:\\x".to_string()));
    assert_eq!(
        from_drive_root("\u{130}C:\\x", 'C'),
        Some(":\\x".to_string())
    );
    assert_eq!(
        from_drive_root("\u{130}\u{130}\u{130}\u{130}C:\\\u{e9}", 'C'),
        None
    );
    assert_eq!(cut_at("abcdef", "xxcd", "cd"), "cdef");
    assert_eq!(cut_at("abc", "xyz", "q"), "abc");
}

#[test]
fn vacant_directories_and_the_way_to_them_are_shown() {
    let (records, rules) = (table(), settings());
    let mut scan = begin_mft_scan("C:\\Data", &records, &rules);
    assert_eq!(scan.places()[0], "C:\\Data");
    assert_eq!(
        places(&scan),
        vec!["C:\\Data\\A", "C:\\Data\\A\\B", "C:\\Data\\Full", "C:\\Data\\Full\\Inner", "C:\\Data\\T"]
    );
    let mut seen = finish(&mut scan);
    assert_eq!(count_slashes(&seen[0]), 3);
    assert_eq!(count_slashes(&seen[1]), 3);
    seen.sort();
    assert_eq!(
        seen,
        vec!["C:\\Data\\A", "C:\\Data\\A\\B", "C:\\Data\\Full\\Inner", "C:\\Data\\T"]
    );
    assert!(scan.is_accepted(&"c:\\data\\a\\b".to_string()));
    assert!(!scan.is_accepted(&"c:\\data\\full".to_string()));
    assert_eq!(scan.accepted_count(), 4);
}

#[test]
fn directories_are_looked_at_from_the_bottom_up() {
    let (records, rules) = (table(), settings());
    let mut scan = begin_mft_scan("C:\\Data", &records, &rules);
    let seen = finish(&mut scan);
    assert_eq!(seen.len(), 4);
    let place = |p: &str| seen.iter().position(|s| s == p).unwrap();
    assert!(place("C:\\Data\\A\\B") < place("C:\\Data\\A"));
    assert_eq!(
        scan.done_line(),
        "[+] Direct MFT Scan complete. Found 4 truly empty directories."
    );
    let entries: Vec<MftEntry> = scan.places().iter().map(|p| entry(p)).collect();
    let root = entry("C:\\Data").path;
    assert!(check_depths(&root, &entries));
    let nodes = scan.report(&root, &entries);
    let rows: Vec<(String, String, i32, i32)> = nodes
        .iter()
        .map(|n| (n.path_str.clone(), n.name.clone(), n.depth, n.status))
        .collect();
    let row = |t: &str, n: &str, d: i32, s: i32| (t.to_string(), n.to_string(), d, s);
    assert_eq!(
        rows,
        vec![
            row("C:\\Data", "C:\\Data", 0, 0),
            row("C:\\Data\\A", "A", 1, 1),
            row("C:\\Data\\A\\B", "B", 2, 1),
            row("C:\\Data\\Full", "Full", 1, 0),
            row("C:\\Data\\Full\\Inner", "Inner", 2, 1),
            row("C:\\Data\\T", "T", 1, 1),
        ]
    );
    assert!(nodes[1].has_children);
    assert!(nodes[5].is_last_sibling);
}

#[test]
fn a_directory_that_cannot_be_read_keeps_its_folder() {
    let records = vec![
        record("C:\\Data", true),
        record("C:\\Data\\A", true),
        record("C:\\Data\\A\\Secret", true),
        record("C:\\Data\\A\\Secret\\Deep", true),
    ];
    let rules = settings();
    let mut scan = begin_mft_scan("C:\\Data", &records, &rules);
    assert_eq!(scan.next_dir(), Some("C:\\Data\\A\\Secret\\Deep".to_string()));
    scan.checked(None);
    assert_eq!(scan.next_dir(), None);
    assert_eq!(
        scan.done_line(),
        "[+] Direct MFT Scan complete. Found 0 truly empty directories."
    );
}

#[test]
fn what_lies_in_a_directory_decides() {
    let records = vec![record("C:\\D", true), record("C:\\D\\a", true)];
    let count = |children: Vec<MftChild>, s: ScanSettings| {
        let mut scan = begin_mft_scan("C:\\D", &records, &s);
        assert_eq!(scan.next_dir(), Some("C:\\D\\a".to_string()));
        scan.checked(Some(children));
        assert!(scan.next_dir().is_none());
        scan.done_line() == "[+] Direct MFT Scan complete. Found 1 truly empty directories."
    };
    let strict = || ScanSettings {
        consider_empty_files_empty: false,
        ..settings()
    };
    assert!(count(vec![], settings()));
    assert!(count(vec![plain("a.tmp", 3), plain("z", 0)], settings()));
    assert!(!count(vec![plain("z", 0)], strict()));
    assert!(!count(vec![plain("a.txt", 3)], settings()));
    assert!(!count(vec![subdir("C:\\D\\a\\unknown")], settings()));
}

#[test]
fn protected_directories_of_a_table() {
    let records = vec![
        record("C:\\D", true),
        record("C:\\D\\Keepers", true),
        record("C:\\D\\.h", true),
        record("C:\\D\\x", true),
    ];
    let rules = settings();
    let mut scan = begin_mft_scan("C:\\D", &records, &rules);
    while scan.next_dir().is_some() {
        scan.checked(Some(vec![]));
    }
    let mut entries: Vec<MftEntry> = scan.places().iter().map(|p| entry(p)).collect();
    entries.push(entry("C:\\D\\x"));
    let nodes = scan.report(&entry("C:\\D").path, &entries);
    let rows: Vec<(String, i32)> = nodes.iter().map(|n| (n.name.clone(), n.status)).collect();
    assert_eq!(
        rows,
        vec![
            ("C:\\D".to_string(), 0),
            (".h".to_string(), 3),
            ("Keepers".to_string(), 3),
            ("x".to_string(), 1),
        ]
    );
    assert!(nodes[1].is_hidden);
}

#[test]
fn a_set_flag_ends_the_scan_of_a_table() {
    let (records, rules) = (table(), settings());
    let stopped = scan_empty_dirs_mft("C:\\Data", &records, &rules, &AtomicBool::new(true));
    assert_eq!(stopped.err().unwrap(), "Operation cancelled by user");
    let mut begun =
        scan_empty_dirs_mft("C:\\Data", &records, &rules, &AtomicBool::new(false)).unwrap();
    assert_eq!(finish(&mut begun).len(), 4);
}

#[test]
fn every_reading_of_the_flag_counts_on_the_way_to_a_table_scan() {
    let (records, rules) = (table(), settings());
    let directories = records.iter().filter(|r| r.is_directory).count();
    let steps = records.len() + directories;
    for stop in 0..steps {
        let mut run = begin_table("C:\\Data", &records, &rules);
        for _ in 0..stop {
            assert!(run.polled(false).is_none());
        }
        let ended = run.polled(true).unwrap();
        assert_eq!(ended.err().unwrap(), "Operation cancelled by user");
    }
    let mut run = begin_table("C:\\Data", &records, &rules);
    for _ in 1..steps {
        assert!(run.polled(false).is_none());
    }
    let mut scan = run.polled(false).unwrap().ok().unwrap();
    assert_eq!(finish(&mut scan).len(), 4);
}

#[test]
fn a_table_without_entries_has_one_step() {
    let (records, rules) = (Vec::new(), settings());
    let mut run = begin_table("C:\\Data", &records, &rules);
    let scan = run.polled(false).unwrap().ok().unwrap();
    assert_eq!(*scan.places(), vec!["C:\\Data".to_string()]);
}

#[test]
fn a_root_that_the_table_does_not_list_is_shown_all_the_same() {
    let (records, rules) = (table(), settings());
    let mut scan = begin_mft_scan("C:\\Nowhere\\", &records, &rules);
    assert_eq!(*scan.places(), vec!["C:\\Nowhere\\".to_string()]);
    assert!(scan.next_dir().is_none());
}

#[test]
fn a_name_that_only_begins_like_the_root_is_out_of_scope() {
    let records = vec![
        record("C:\\data", true),
        record("C:\\data\\in", true),
        record("C:\\database", true),
        record("C:\\database\\out", true),
    ];
    let rules = settings();
    let scan = begin_mft_scan("C:\\data", &records, &rules);
    assert_eq!(places(&scan), vec!["C:\\data\\in"]);
    let whole = begin_mft_scan("C:\\", &records, &rules);
    assert_eq!(
        places(&whole),
        vec!["C:\\data", "C:\\data\\in", "C:\\database", "C:\\database\\out"]
    );
    assert!(is_below("c:\\data\\in", "c:\\data"));
    assert!(!is_below("c:\\database", "c:\\data"));
    assert!(!is_below("c:\\data", "c:\\data"));
    assert!(is_below("c:\\data", "c:\\"));
}

#[test]
fn a_table_scan_goes_no_deeper_than_it_may() {
    let records = vec![
        record("C:\\D", true),
        record("C:\\D\\a", true),
        record("C:\\D\\a\\b", true),
        record("C:\\D\\a\\b\\c", true),
        record("C:\\D\\x", true),
        record("C:\\D\\x\\y", true),
    ];
    let at = |max_depth: i32| {
        let rules = ScanSettings {
            max_depth,
            ..settings()
        };
        let mut scan = begin_mft_scan("C:\\D", &records, &rules);
        while scan.next_dir().is_some() {
            scan.checked(Some(vec![]));
        }
        let mut entries: Vec<MftEntry> = scan.places().iter().map(|p| entry(p)).collect();
        entries.push(entry("C:\\D\\a\\b\\c"));
        let nodes = scan.report(&entry("C:\\D").path, &entries);
        let rows: Vec<(String, i32, i32)> = nodes
            .iter()
            .map(|n| (n.name.clone(), n.depth, n.status))
            .collect();
        rows
    };
    let row = |name: &str, depth: i32, status: i32| (name.to_string(), depth, status);
    assert_eq!(at(0), vec![row("C:\\D", 0, 0)]);
    assert_eq!(at(1), vec![row("C:\\D", 0, 0)]);
    assert_eq!(
        at(2),
        vec![row("C:\\D", 0, 0), row("x", 1, 1), row("y", 2, 1)]
    );
    assert_eq!(
        at(3),
        vec![
            row("C:\\D", 0, 0),
            row("a", 1, 1),
            row("b", 2, 1),
            row("c", 3, 1),
            row("x", 1, 1),
            row("y", 2, 1),
        ]
    );
    assert_eq!(at(-1), at(3));
}

#[test]
fn empty_files_of_a_table_do_not_occupy_unless_they_count() {
    let records = vec![
        record("C:\\D", true),
        record("C:\\D\\a", true),
        MftRecord {
            size: Some(0),
            ..record("C:\\D\\a\\zero", false)
        },
        record("C:\\D\\b", true),
        MftRecord {
            size: None,
            ..record("C:\\D\\b\\unknown", false)
        },
    ];
    let rules = settings();
    assert_eq!(places(&begin_mft_scan("C:\\D", &records, &rules)), vec!["C:\\D\\a"]);
    let strict = ScanSettings {
        consider_empty_files_empty: false,
        ..settings()
    };
    assert!(places(&begin_mft_scan("C:\\D", &records, &strict)).is_empty());
}

#[test]
fn what_lies_in_a_hidden_or_system_directory_of_a_table_is_protected() {
    let records = vec![
        record("C:\\D", true),
        record("C:\\D\\.git", true),
        record("C:\\D\\.git\\refs", true),
        record("C:\\D\\sys", true),
        record("C:\\D\\sys\\inner", true),
    ];
    let statuses = |rules: &ScanSettings| {
        let mut scan = begin_mft_scan("C:\\D", &records, rules);
        let children = |path: &str| match path {
            "C:\\D\\.git" => vec![subdir("C:\\D\\.git\\refs")],
            "C:\\D\\sys" => vec![subdir("C:\\D\\sys\\inner")],
            _ => vec![],
        };
        while let Some(path) = scan.next_dir() {
            scan.checked(Some(children(&path)));
        }
        let entries: Vec<MftEntry> = scan
            .places()
            .iter()
            .map(|p| MftEntry {
                is_system: p == "C:\\D\\sys",
                ..entry(p)
            })
            .collect();
        let nodes = scan.report(&entry("C:\\D").path, &entries);
        let rows: Vec<(String, i32)> = nodes.iter().map(|n| (n.name.clone(), n.status)).collect();
        rows
    };
    let row = |name: &str, status: i32| (name.to_string(), status);
    assert_eq!(
        statuses(&settings()),
        vec![row("C:\\D", 0), row(".git", 3), row("refs", 3), row("sys", 3), row("inner", 3)]
    );
    let open = ScanSettings {
        ignore_hidden: false,
        keep_system: false,
        ..settings()
    };
    assert_eq!(
        statuses(&open),
        vec![row("C:\\D", 0), row(".git", 1), row("refs", 1), row("sys", 1), row("inner", 1)]
    );
}

#[test]
fn looser_rules_show_no_fewer_directories_of_a_table() {
    let records = table();
    let strict = ScanSettings {
        ignore_files: vec![],
        max_depth: 1,
        ..settings()
    };
    let rules = settings();
    let few = places(&begin_mft_scan("C:\\Data", &records, &strict));
    let many = places(&begin_mft_scan("C:\\Data", &records, &rules));
    assert!(few.is_empty());
    assert_eq!(many.len(), 5);
}

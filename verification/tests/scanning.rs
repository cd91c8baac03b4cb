use redr::path::DirPath;
use redr::scanner::{
    begin_scan, check_walk, is_dir_too_young, is_directory_protected, is_hidden_dir,
    is_marked_hidden, is_system_dir, scan_empty_dirs, scan_tree, shown_text, walk_error_lines,
    ScanRoot, ScanSettings, WalkEntry,
};
use redr::tree::{compute_tree_relationships, DirectoryNode};
use redr::wild::make_dir_patterns;
use std::sync::atomic::AtomicBool;

fn path(names: &[&str]) -> DirPath {
    DirPath {
        names: names.iter().map(|n| n.as_bytes().to_vec()).collect(),
    }
}

fn root() -> ScanRoot {
    ScanRoot {
        path: path(&["/", "data"]),
        text: b"/data".to_vec(),
        lead: b"/".to_vec(),
        sep: b'/',
        wide: false,
    }
}

fn settings() -> ScanSettings {
    ScanSettings {
        ignore_files: vec!["desktop.ini".to_string(), "*.tmp".to_string()],
        ignore_dirs: vec![],
        ignore_hidden: true,
        keep_system: true,
        min_age_hours: 0,
        max_depth: -1,
        consider_empty_files_empty: true,
        hide_search_errors: true,
    }
}

fn dir(names: &[&str]) -> WalkEntry {
    WalkEntry {
        path: path(names),
        file_name: names.last().unwrap_or(&"data").as_bytes().to_vec(),
        is_dir: true,
        is_file: false,
        is_symlink: false,
        marked_hidden: false,
        is_system: false,
        age_secs: None,
        size: None,
    }
}

fn file(names: &[&str], size: u64) -> WalkEntry {
    WalkEntry {
        is_dir: false,
        is_file: true,
        size: Some(size),
        ..dir(names)
    }
}

fn rows(nodes: &[DirectoryNode]) -> Vec<(String, i32, i32)> {
    nodes
        .iter()
        .map(|n| (n.path_str.clone(), n.depth, n.status))
        .collect()
}

fn row(text: &str, depth: i32, status: i32) -> (String, i32, i32) {
    (text.to_string(), depth, status)
}

#[test]
fn nested_empty_directories_are_reported_with_the_way_to_them() {
    let entries = vec![
        dir(&[]),
        dir(&["b"]),
        dir(&["b", "c"]),
        dir(&["a"]),
        file(&["a", "keep.txt"], 3),
        dir(&["a", "x"]),
    ];
    assert!(check_walk(&entries));
    let nodes = scan_tree(&root(), &entries, &settings());
    assert_eq!(
        rows(&nodes),
        vec![
            row("/data", 0, 0),
            row("/data/a", 1, 0),
            row("/data/a/x", 2, 1),
            row("/data/b", 1, 1),
            row("/data/b/c", 2, 1),
        ]
    );
    assert_eq!(nodes[0].name, "/data");
    assert_eq!(nodes[2].name, "x");
    assert!(nodes.iter().all(|n| n.is_expanded));
    let flags: Vec<(bool, bool)> = nodes
        .iter()
        .map(|n| (n.has_children, n.is_last_sibling))
        .collect();
    assert_eq!(
        flags,
        vec![(true, true), (true, false), (false, true), (true, true), (false, true)]
    );
    assert_eq!(nodes[2].path.names, path(&["/", "data", "a", "x"]).names);
}

#[test]
fn the_order_of_the_walk_does_not_matter() {
    let one = vec![dir(&[]), dir(&["b"]), dir(&["b", "c"]), file(&["k"], 1)];
    let other = vec![file(&["k"], 1), dir(&["b", "c"]), dir(&["b"]), dir(&[])];
    let a = scan_tree(&root(), &one, &settings());
    let b = scan_tree(&root(), &other, &settings());
    assert_eq!(rows(&a), rows(&b));
    assert_eq!(rows(&a).len(), 3);
}

#[test]
fn nothing_is_reported_where_everything_is_occupied() {
    let entries = vec![dir(&[]), dir(&["a"]), file(&["a", "f"], 1)];
    assert!(scan_tree(&root(), &entries, &settings()).is_empty());
}

#[test]
fn the_root_itself_is_never_reported() {
    let entries = vec![dir(&[])];
    assert!(scan_tree(&root(), &entries, &settings()).is_empty());
}

#[test]
fn ignored_and_empty_files_do_not_occupy() {
    let entries = vec![
        dir(&[]),
        dir(&["a"]),
        file(&["a", "desktop.ini"], 10),
        dir(&["b"]),
        file(&["b", "x.tmp"], 10),
        dir(&["c"]),
        file(&["c", "zero"], 0),
    ];
    let nodes = scan_tree(&root(), &entries, &settings());
    assert_eq!(
        rows(&nodes),
        vec![
            row("/data", 0, 0),
            row("/data/a", 1, 1),
            row("/data/b", 1, 1),
            row("/data/c", 1, 1),
        ]
    );
    let strict = ScanSettings {
        consider_empty_files_empty: false,
        ..settings()
    };
    let nodes = scan_tree(&root(), &entries, &strict);
    assert_eq!(rows(&nodes).len(), 3);
}

#[test]
fn a_link_or_an_unknown_thing_occupies() {
    let mut link = file(&["a", "l"], 0);
    link.is_file = false;
    link.is_symlink = true;
    let entries = vec![dir(&[]), dir(&["a"]), link];
    assert!(scan_tree(&root(), &entries, &settings()).is_empty());
}

#[test]
fn hidden_directories_are_protected() {
    let entries = vec![dir(&[]), dir(&["a"]), dir(&["a", ".git"]), dir(&["b"])];
    let nodes = scan_tree(&root(), &entries, &settings());
    assert_eq!(
        rows(&nodes),
        vec![
            row("/data", 0, 0),
            row("/data/a", 1, 0),
            row("/data/a/.git", 2, 3),
            row("/data/b", 1, 1),
        ]
    );
    assert!(nodes[2].is_hidden);
    assert!(!nodes[1].is_hidden);
    let open = ScanSettings {
        ignore_hidden: false,
        ..settings()
    };
    let nodes = scan_tree(&root(), &entries, &open);
    assert_eq!(nodes[2].status, 1);
    assert_eq!(nodes[1].status, 1);
}

#[test]
fn system_directories_are_protected() {
    let mut sys = dir(&["s"]);
    sys.is_system = true;
    let nodes = scan_tree(&root(), &vec![dir(&[]), sys], &settings());
    assert_eq!(rows(&nodes)[1], row("/data/s", 1, 3));
}

#[test]
fn young_directories_are_protected() {
    let mut young = dir(&["y"]);
    young.age_secs = Some(7199);
    let mut old = dir(&["z"]);
    old.age_secs = Some(7200);
    let aged = ScanSettings {
        min_age_hours: 2,
        ..settings()
    };
    let nodes = scan_tree(&root(), &vec![dir(&[]), young, old, dir(&["u"])], &aged);
    assert_eq!(
        rows(&nodes),
        vec![
            row("/data", 0, 0),
            row("/data/u", 1, 1),
            row("/data/y", 1, 3),
            row("/data/z", 1, 1),
        ]
    );
}

#[test]
fn listed_directories_are_protected_in_any_case_of_letters() {
    let listed = ScanSettings {
        ignore_dirs: vec!["RECYCLED".to_string(), "*/KEEP?".to_string()],
        ..settings()
    };
    let entries = vec![
        dir(&[]),
        dir(&["Recycled"]),
        dir(&["keep1"]),
        dir(&["keep22"]),
        dir(&["Recycled", "inner"]),
    ];
    let nodes = scan_tree(&root(), &entries, &listed);
    assert_eq!(
        rows(&nodes),
        vec![
            row("/data", 0, 0),
            row("/data/Recycled", 1, 0),
            row("/data/Recycled/inner", 2, 3),
            row("/data/keep1", 1, 3),
            row("/data/keep22", 1, 1),
        ]
    );
}

#[test]
fn directories_that_are_too_deep_keep_those_above() {
    let shallow = ScanSettings {
        max_depth: 1,
        ..settings()
    };
    let entries = vec![dir(&[]), dir(&["a"]), dir(&["a", "b"]), dir(&["c"])];
    let nodes = scan_tree(&root(), &entries, &shallow);
    assert_eq!(
        rows(&nodes),
        vec![row("/data", 0, 0), row("/data/c", 1, 1)]
    );
    let nodes = scan_tree(
        &root(),
        &entries,
        &ScanSettings {
            max_depth: 0,
            ..settings()
        },
    );
    assert!(nodes.is_empty());
}

#[test]
fn links_to_directories_are_marked() {
    let mut link = dir(&["l"]);
    link.is_symlink = true;
    let nodes = scan_tree(&root(), &vec![dir(&[]), link], &settings());
    assert!(nodes[1].is_symlink);
    assert!(!nodes[0].is_symlink);
}

#[test]
fn names_that_are_not_text_are_told_apart() {
    let mut one = dir(&["x"]);
    one.path.names = vec![vec![0xff]];
    one.file_name = vec![0xff];
    let mut two = dir(&["x"]);
    two.path.names = vec![vec![0xfe]];
    two.file_name = vec![0xfe];
    let nodes = scan_tree(&root(), &vec![dir(&[]), one, two], &settings());
    assert_eq!(nodes.len(), 3);
    assert_eq!(nodes[1].path.names[2], vec![0xfe]);
    assert_eq!(nodes[2].path.names[2], vec![0xff]);
    assert_eq!(nodes[1].name, "\u{fffd}");
}

#[test]
fn a_set_flag_ends_the_scan() {
    let entries = vec![dir(&[]), dir(&["a"])];
    let stopped = scan_empty_dirs(&root(), &entries, &settings(), &AtomicBool::new(true));
    assert_eq!(stopped.err().unwrap(), "Operation cancelled by user");
    let done = scan_empty_dirs(&root(), &entries, &settings(), &AtomicBool::new(false));
    assert_eq!(rows(&done.ok().unwrap()).len(), 2);
}

#[test]
fn a_walk_with_a_directory_twice_is_refused() {
    assert!(!check_walk(&vec![dir(&["a"]), dir(&["b"]), dir(&["a"])]));
    assert!(check_walk(&vec![dir(&["a"]), file(&["a"], 0), file(&["a"], 0)]));
    assert!(check_walk(&vec![]));
}

#[test]
fn ages_are_compared_in_hours() {
    assert!(!is_dir_too_young(Some(0), 0));
    assert!(!is_dir_too_young(None, 5));
    assert!(is_dir_too_young(Some(3599), 1));
    assert!(!is_dir_too_young(Some(3600), 1));
    assert!(is_dir_too_young(Some(4294967295 * 3600 - 1), 4294967295));
}

#[test]
fn hidden_by_name_or_by_mark() {
    assert!(is_hidden_dir(".x", false));
    assert!(is_hidden_dir("x", true));
    assert!(!is_hidden_dir("x.y", false));
    assert!(!is_hidden_dir("", false));
}

#[test]
fn attributes_of_the_file_system() {
    assert!(is_marked_hidden(Some(0x12)));
    assert!(!is_marked_hidden(Some(0x14)));
    assert!(!is_marked_hidden(None));
    assert!(is_system_dir(Some(0x14)));
    assert!(!is_system_dir(Some(0x12)));
    assert!(!is_system_dir(None));
}

#[test]
fn a_directory_is_protected_by_any_of_its_reasons() {
    let s = ScanSettings {
        ignore_hidden: false,
        keep_system: false,
        ..settings()
    };
    let patterns = make_dir_patterns(&vec!["AppData\\Local".to_string()]);
    assert_eq!(patterns, vec!["*appdata/local*".to_string()]);
    assert!(is_directory_protected("C:\\Users\\APPDATA\\local\\x", false, false, false, &s, &patterns));
    assert!(!is_directory_protected("C:\\Users\\x", true, false, true, &s, &patterns));
    assert!(is_directory_protected("C:\\Users\\x", false, true, false, &s, &patterns));
    assert!(is_directory_protected("x", true, false, false, &settings(), &vec![]));
    assert!(is_directory_protected("x", false, false, true, &settings(), &vec![]));
    assert!(!is_directory_protected("x", false, false, false, &settings(), &vec![]));
}

#[test]
fn texts_of_paths_under_the_root() {
    assert_eq!(shown_text(&root(), &path(&[])), "/data");
    assert_eq!(shown_text(&root(), &path(&["a", "b"])), "/data/a/b");
    let top = ScanRoot {
        path: path(&["/"]),
        text: b"/".to_vec(),
        lead: vec![],
        sep: b'/',
        wide: false,
    };
    assert_eq!(shown_text(&top, &path(&["a", "b"])), "/a/b");
}

#[test]
fn errors_of_a_walk_are_summed_up_or_listed() {
    let errors = vec!["one".to_string(), "two".to_string()];
    assert_eq!(
        walk_error_lines(&errors, &settings()),
        vec!["[!] 2 item(s) skipped due to access errors.".to_string()]
    );
    let all = ScanSettings {
        hide_search_errors: false,
        ..settings()
    };
    assert_eq!(
        walk_error_lines(&errors, &all),
        vec![
            "[!] Access error: one".to_string(),
            "[!] Access error: two".to_string()
        ]
    );
    assert!(walk_error_lines(&vec![], &settings()).is_empty());
    assert!(walk_error_lines(&vec![], &all).is_empty());
}

#[test]
fn relations_between_rows() {
    let mut nodes: Vec<DirectoryNode> = [0, 1, 2, 2, 1]
        .iter()
        .map(|d| DirectoryNode {
            path: path(&["n"]),
            name: "n".to_string(),
            path_str: "n".to_string(),
            depth: *d,
            status: 0,
            has_children: false,
            is_expanded: true,
            is_last_sibling: false,
            is_hidden: false,
            is_symlink: false,
        })
        .collect();
    compute_tree_relationships(&mut nodes);
    let flags: Vec<(bool, bool)> = nodes
        .iter()
        .map(|n| (n.has_children, n.is_last_sibling))
        .collect();
    assert_eq!(
        flags,
        vec![(true, true), (true, false), (false, false), (false, true), (false, true)]
    );
}

#[test]
fn every_reading_of_the_flag_counts() {
    let entries = vec![dir(&[]), dir(&["a"]), dir(&["a", "b"]), file(&["f"], 1)];
    let (base, rules) = (root(), settings());
    let directories = 3;
    for stop in 0..=directories {
        let mut run = begin_scan(&base, &entries, &rules);
        for _ in 0..stop {
            assert!(run.polled(false).is_none());
        }
        let ended = run.polled(true).unwrap();
        assert_eq!(ended.err().unwrap(), "Operation cancelled by user");
    }
    let mut run = begin_scan(&base, &entries, &rules);
    for _ in 0..directories {
        assert!(run.polled(false).is_none());
    }
    let nodes = run.polled(false).unwrap().ok().unwrap();
    assert_eq!(
        rows(&nodes),
        vec![row("/data", 0, 0), row("/data/a", 1, 1), row("/data/a/b", 2, 1)]
    );
}

#[test]
fn what_lies_in_a_hidden_or_system_directory_is_protected() {
    let mut sys = dir(&["s"]);
    sys.is_system = true;
    let entries = vec![
        dir(&[]),
        dir(&[".git"]),
        dir(&[".git", "refs"]),
        dir(&[".git", "refs", "tags"]),
        sys,
        dir(&["s", "inner"]),
    ];
    let nodes = scan_tree(&root(), &entries, &settings());
    assert_eq!(
        rows(&nodes),
        vec![
            row("/data", 0, 0),
            row("/data/.git", 1, 0),
            row("/data/.git/refs", 2, 0),
            row("/data/.git/refs/tags", 3, 3),
            row("/data/s", 1, 0),
            row("/data/s/inner", 2, 3),
        ]
    );
    assert!(nodes.iter().all(|n| n.status != 1));
    let open = ScanSettings {
        ignore_hidden: false,
        keep_system: false,
        ..settings()
    };
    let nodes = scan_tree(&root(), &entries, &open);
    assert!(nodes[1..].iter().all(|n| n.status == 1));
}

#[test]
fn a_hidden_root_protects_nothing_in_it() {
    let mut top = dir(&[]);
    top.file_name = b".data".to_vec();
    let nodes = scan_tree(&root(), &vec![top, dir(&["a"])], &settings());
    assert_eq!(rows(&nodes), vec![row("/data", 0, 0), row("/data/a", 1, 1)]);
}

#[test]
fn half_a_pair_of_a_wide_name_is_one_replacement() {
    let half = || WalkEntry {
        path: DirPath {
            names: vec![vec![b'a', 0xed, 0xa0, 0x80, b'b']],
        },
        file_name: vec![b'a', 0xed, 0xa0, 0x80, b'b'],
        ..dir(&["x"])
    };
    let wide = ScanRoot {
        wide: true,
        ..root()
    };
    let nodes = scan_tree(&wide, &vec![dir(&[]), half()], &settings());
    assert_eq!(nodes[1].name, "a\u{fffd}b");
    assert_eq!(nodes[1].path_str, "/data/a\u{fffd}b");
    let nodes = scan_tree(&root(), &vec![dir(&[]), half()], &settings());
    assert_eq!(nodes[1].name, "a\u{fffd}\u{fffd}\u{fffd}b");
}

#[test]
fn looser_rules_report_no_fewer_empty_directories() {
    let entries = vec![
        dir(&[]),
        dir(&[".h"]),
        dir(&["a"]),
        file(&["a", "x.log"], 1),
        dir(&["b"]),
        dir(&["b", "c"]),
    ];
    let strict = ScanSettings {
        max_depth: 1,
        ..settings()
    };
    let loose = ScanSettings {
        ignore_files: vec!["*.log".to_string(), "desktop.ini".to_string(), "*.tmp".to_string()],
        ignore_hidden: false,
        ..settings()
    };
    let empties = |s: &ScanSettings| {
        let nodes = scan_tree(&root(), &entries, s);
        nodes
            .iter()
            .filter(|n| n.status == 1)
            .map(|n| n.path_str.clone())
            .collect::<Vec<String>>()
    };
    assert!(empties(&strict).is_empty());
    assert_eq!(empties(&settings()), vec!["/data/b", "/data/b/c"]);
    assert_eq!(empties(&loose), vec!["/data/.h", "/data/a", "/data/b", "/data/b/c"]);
}

#[test]
fn every_negative_depth_means_no_limit() {
    let entries = vec![dir(&[]), dir(&["a"]), dir(&["a", "b"])];
    let at = |max_depth: i32| {
        let rules = ScanSettings {
            max_depth,
            ..settings()
        };
        rows(&scan_tree(&root(), &entries, &rules))
    };
    assert_eq!(at(-1), at(i32::MIN));
    assert_eq!(at(-1).len(), 3);
}

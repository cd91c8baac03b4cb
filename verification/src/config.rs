//! The settings that are kept between sessions.

use crate::path::DirPath;
use crate::text::{join, join_lines, texts};
use vstd::prelude::*;
use vstd::string::*;

verus! {

/// The settings that are kept between sessions.
#[derive(Clone, Debug)]
pub struct AppSettings {
    pub consider_empty_files_empty: bool,
    pub ignore_hidden: bool,
    pub ignore_errors: bool,
    pub hide_search_errors: bool,
    pub skip_system: bool,
    pub delete_mode: i32,
    pub max_depth: i32,
    pub pause_ms: i32,
    pub min_age_hours: i32,
    pub auto_save_logs: bool,
    pub mft_scan: bool,
    pub ignore_list_text: String,
    pub ignore_files_text: String,
    pub dry_run: bool,
}

/// The directories that are ignored by default, wherever they are.
pub open spec fn usual_ignore_dirs() -> Seq<Seq<char>> {
    seq![
        "System Volume Information"@,
        "RECYCLER"@,
        "Recycled"@,
        "NtUninstall"@,
        "$RECYCLE.BIN"@,
        "GAC_MSIL"@,
        "GAC_32"@,
        "winsxs"@,
        "System32"@,
    ]
}

/// The directory of the user's packages, from the places where it may be known.
pub open spec fn packages_dir(local: Option<String>, profile: Option<String>) -> Seq<char> {
    match local {
        Some(s) => s@,
        None => match profile {
            Some(s) => s@,
            None => "AppData\\Local\\Packages"@,
        },
    }
}

/// The text of the list of directories that are ignored by default.
pub open spec fn default_ignore_dirs(local: Option<String>, profile: Option<String>) -> Seq<char> {
    join(usual_ignore_dirs().push(packages_dir(local, profile)), seq!['\n'])
}

/// The text of the list of files that are ignored by default.
pub open spec fn default_ignore_files() -> Seq<char> {
    "desktop.ini\nThumbs.db\n.DS_Store"@
}

/// A place where the user's packages may lie: the names to go down from the directory that a
/// variable of the environment gives.
pub struct PackagesPlace {
    pub variable: String,
    pub below: Vec<String>,
}

/// The places where the user's packages may lie: under the local application data, and under the
/// user's profile.
pub fn packages_places() -> (places: (PackagesPlace, PackagesPlace))
    ensures
        places.0.variable@ == "LOCALAPPDATA"@,
        texts(places.0.below@) == seq!["Packages"@],
        places.1.variable@ == "USERPROFILE"@,
        texts(places.1.below@) == seq!["AppData"@, "Local"@, "Packages"@],
{
    let local = PackagesPlace {
        variable: "LOCALAPPDATA".to_owned(),
        below: vec!["Packages".to_owned()],
    };
    let profile = PackagesPlace {
        variable: "USERPROFILE".to_owned(),
        below: vec!["AppData".to_owned(), "Local".to_owned(), "Packages".to_owned()],
    };
    assert(texts(local.below@) =~= seq!["Packages"@]);
    assert(texts(profile.below@) =~= seq!["AppData"@, "Local"@, "Packages"@]);
    (local, profile)
}

/// The text of the list of directories that are ignored by default: the usual ones and that of
/// the user's packages, which is the one under the local application data if that is known, else
/// the one under the user's profile.
pub fn get_default_ignore_dirs(local: Option<String>, profile: Option<String>) -> (text: String)
    ensures
        text@ == default_ignore_dirs(local, profile),
{
    let packages = match local {
        Some(s) => s,
        None => match profile {
            Some(s) => s,
            None => "AppData\\Local\\Packages".to_owned(),
        },
    };
    let list: Vec<String> = vec![
        "System Volume Information".to_owned(),
        "RECYCLER".to_owned(),
        "Recycled".to_owned(),
        "NtUninstall".to_owned(),
        "$RECYCLE.BIN".to_owned(),
        "GAC_MSIL".to_owned(),
        "GAC_32".to_owned(),
        "winsxs".to_owned(),
        "System32".to_owned(),
        packages,
    ];
    assert(texts(list@) =~= usual_ignore_dirs().push(packages@));
    join_lines(&list)
}

impl AppSettings {
    /// Whether these are the settings of a first session, with a list of directories to ignore.
    pub open spec fn is_default(self, ignore_list: Seq<char>) -> bool {
        &&& self.consider_empty_files_empty
        &&& self.ignore_hidden
        &&& self.ignore_errors
        &&& self.hide_search_errors
        &&& self.skip_system
        &&& self.delete_mode == 0
        &&& self.max_depth == -1
        &&& self.pause_ms == 0
        &&& self.min_age_hours == 0
        &&& !self.auto_save_logs
        &&& !self.mft_scan
        &&& self.ignore_list_text@ == ignore_list
        &&& self.ignore_files_text@ == default_ignore_files()
        &&& !self.dry_run
    }
}

/// The settings of a first session.
pub fn default_settings(local: Option<String>, profile: Option<String>) -> (settings: AppSettings)
    ensures
        settings.is_default(default_ignore_dirs(local, profile)),
{
    AppSettings {
        consider_empty_files_empty: true,
        ignore_hidden: true,
        ignore_errors: true,
        hide_search_errors: true,
        skip_system: true,
        delete_mode: 0,
        max_depth: -1,
        pause_ms: 0,
        min_age_hours: 0,
        auto_save_logs: false,
        mft_scan: false,
        ignore_list_text: get_default_ignore_dirs(local, profile),
        ignore_files_text: "desktop.ini\nThumbs.db\n.DS_Store".to_owned(),
        dry_run: false,
    }
}

/// The settings to start with: those that were read, or those of a first session.
pub fn load_settings(
    read: Option<AppSettings>,
    local: Option<String>,
    profile: Option<String>,
) -> (settings: AppSettings)
    ensures
        match read {
            Some(s) => settings == s,
            None => settings.is_default(default_ignore_dirs(local, profile)),
        },
{
    match read {
        Some(settings) => settings,
        None => default_settings(local, profile),
    }
}

/// The bytes of `REDR`.
pub open spec fn redr_name() -> Seq<u8> {
    seq![0x52u8, 0x45u8, 0x44u8, 0x52u8]
}

/// The bytes of `.config`.
pub open spec fn config_name() -> Seq<u8> {
    seq![0x2eu8, 0x63u8, 0x6fu8, 0x6eu8, 0x66u8, 0x69u8, 0x67u8]
}

/// The directory where the settings are kept: `REDR` under the application data if there is such
/// a place, else under `.config` in the home directory.
pub fn get_config_dir(app_data: Option<DirPath>, home: Option<DirPath>) -> (dir: Option<DirPath>)
    ensures
        match app_data {
            Some(d) => dir matches Some(p) && p@ == d@.push(redr_name()),
            None => match home {
                Some(h) => dir matches Some(p) && p@ == h@.push(config_name()).push(redr_name()),
                None => dir is None,
            },
        },
{
    let redr: Vec<u8> = vec![0x52u8, 0x45u8, 0x44u8, 0x52u8];
    let ghost name = redr@;
    match app_data {
        Some(d) => {
            let below = DirPath { names: vec![redr] };
            let dir = d.join(&below);
            proof {
                crate::path::names_view(below.names);
                assert(below@ =~= seq![name]);
                assert(name =~= redr_name());
                assert(dir@ =~= d@.push(redr_name()));
            }
            Some(dir)
        },
        None => match home {
            Some(h) => {
                let config: Vec<u8> = vec![0x2eu8, 0x63u8, 0x6fu8, 0x6eu8, 0x66u8, 0x69u8, 0x67u8];
                let ghost first = config@;
                let below = DirPath { names: vec![config, redr] };
                let dir = h.join(&below);
                proof {
                    crate::path::names_view(below.names);
                    assert(below@ =~= seq![first, name]);
                    assert(name =~= redr_name());
                    assert(first =~= config_name());
                    assert(dir@ =~= h@.push(config_name()).push(redr_name()));
                }
                Some(dir)
            },
            None => None,
        },
    }
}

} // verus!

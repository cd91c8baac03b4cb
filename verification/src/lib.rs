//! REDR: finding and safely removing empty directories.

pub mod cli;
pub mod cli_laws;
pub mod cli_run;
pub mod collections;
pub mod config;
pub mod delete;
pub mod delete_laws;
pub mod delete_run;
pub mod deletion_laws;
pub mod gui;
pub mod logger;
pub mod mft;
pub mod mft_drive;
pub mod mft_laws;
pub mod mft_path;
pub mod mft_report;
pub mod mft_scan;
pub mod order;
pub mod path;
pub mod request_laws;
pub mod scan_laws;
pub mod scanner;
pub mod status_laws;
pub mod sys;
pub mod system_laws;
pub mod table_laws;
pub mod text;
pub mod text_laws;
pub mod tree;
pub mod visible;
pub mod wild;
pub mod wild_laws;
pub mod window_laws;

# REDR

Finds empty directories and removes them, from a window or from the command line. The rules (what
counts as empty, what is protected, what is deleted and in which order) are a library that Verus
verifies; the program around it reads and changes the file system.

## Layout

- `src/` is the library.
  - `text`, `wild`, `path`, `order`, `collections`: texts, wildcard patterns, paths, a stable sort,
    hash tables.
  - `scanner`, `tree`, `scan_laws`: the report of a walk of the file system.
  - `mft`, `mft_path`, `mft_drive`, `mft_scan`, `mft_report`, `mft_laws`: the same from the master
    file table of an NTFS volume.
  - `delete`, `delete_run`, `delete_laws`: a deletion, as a state machine that says what to do next.
  - `visible`, `gui`, `logger`, `config`: what the window shows and keeps.
  - `cli`, `cli_run`, `cli_laws`, `sys`: the command line and the operating system.
- `app/` is the program: it walks, reads, deletes, prints and draws as the library says.
- `tests/` runs the library.

A scan is described by `scanner::Walk`: `removable` says when a directory counts as empty and
`is_report` what a report holds. The `*_laws` modules state what follows, among other things that
nothing that is in use or protected is ever reported as empty, that looser rules find no less, that
a deletion touches only directories that were reported as empty, the deepest first, and that a dry
run touches nothing.

//! What the arguments of the program promise.

use crate::cli::Cli;
use crate::cli_run::{begins_run, CliRun};
use crate::scan_laws::report_ignores_order;
use crate::scanner::{same_rules, walk_ok, ScanRoot, Walk, WalkEntry};
use crate::text::{list_items, split, trim, trim_start, trimmed_items, white_space};
use crate::tree::DirectoryNode;
use vstd::prelude::*;

verus! {

/// Whether `s` is nothing but white space, and has no `sep` in it.
pub open spec fn is_blank(s: Seq<char>, sep: char) -> bool {
    forall|i: int| 0 <= i < s.len() ==> white_space(#[trigger] s[i]) && s[i] != sep
}

/// Two lists written one after the other, with a separator between them, have the items of the one
/// and then those of the other.
pub proof fn lists_add_up(s: Seq<char>, t: Seq<char>, sep: char)
    ensures
        list_items(s.push(sep) + t, sep) == list_items(s, sep) + list_items(t, sep),
{
    lemma_split_two(s, t, sep);
    lemma_items_two(split(s, sep), split(t, sep));
}

/// White space before and after a list changes nothing about its items. With [`lists_add_up`] the
/// same holds of every single item, and of items that are empty.
pub proof fn blanks_do_not_count(before: Seq<char>, s: Seq<char>, after: Seq<char>, sep: char)
    requires
        is_blank(before, sep),
        is_blank(after, sep),
    ensures
        list_items(before + s + after, sep) == list_items(s, sep),
{
    lemma_blanks_before(before, s + after, sep);
    lemma_blanks_after(s, after, sep);
    assert(before + s + after == before + (s + after));
}

/// A list of nothing but white space has no items.
pub proof fn blank_list_is_empty(s: Seq<char>, sep: char)
    requires
        is_blank(s, sep),
    ensures
        list_items(s, sep) == Seq::<Seq<char>>::empty(),
{
    let none = Seq::<char>::empty();
    blanks_do_not_count(s, none, none, sep);
    assert(s + none + none == s);
    assert(split(none, sep).drop_last() =~= Seq::<Seq<char>>::empty());
    assert(trim(none) == none);
    assert(trimmed_items(split(none, sep)) == trimmed_items(split(none, sep).drop_last()));
}

/// Whether two sets of arguments differ at most in how their lists are written, in which number
/// stands for no limit to the depth and, where the file table is never read directly, in whether
/// that is asked for.
pub open spec fn asks_the_same(a: Cli, b: Cli, on_windows: bool) -> bool {
    &&& list_items(a.ignore_files@, ',') == list_items(b.ignore_files@, ',')
    &&& list_items(a.ignore_dirs@, ',') == list_items(b.ignore_dirs@, ',')
    &&& a.max_depth == b.max_depth || (a.max_depth < 0 && b.max_depth < 0)
    &&& on_windows ==> a.mft_scan == b.mft_scan
    &&& b == (Cli {
        max_depth: b.max_depth,
        ignore_files: b.ignore_files,
        ignore_dirs: b.ignore_dirs,
        mft_scan: b.mft_scan,
        ..a
    })
}

/// Arguments that differ in nothing else begin the same run: of the same directory, in the same
/// way, by the same rules, or with the same error.
pub proof fn same_request_begins_the_same_run(
    a: Cli,
    b: Cli,
    on_windows: bool,
    is_admin: bool,
    r: Result<CliRun, String>,
    s: Result<CliRun, String>,
)
    requires
        asks_the_same(a, b, on_windows),
        begins_run(a, on_windows, is_admin, r),
        begins_run(b, on_windows, is_admin, s),
    ensures
        match r {
            Ok(run) => s matches Ok(other) && {
                &&& other.path@ == run.path@
                &&& other.phase == run.phase
                &&& same_rules(run.settings, other.settings)
                &&& other.settings.hide_search_errors == run.settings.hide_search_errors
                &&& other.found@ == run.found@
                &&& other.report == run.report
            },
            Err(e) => s matches Err(other) && other@ == e@,
        },
{
    if let (Ok(run), Ok(other)) = (r, s) {
        assert(other.found@ =~= run.found@);
    }
}

/// The walks of two such runs have the same reports.
pub proof fn same_request_finds_the_same(
    a: Cli,
    b: Cli,
    on_windows: bool,
    is_admin: bool,
    run: CliRun,
    other: CliRun,
    root: ScanRoot,
    entries: Seq<WalkEntry>,
    nodes: Seq<DirectoryNode>,
)
    requires
        asks_the_same(a, b, on_windows),
        begins_run(a, on_windows, is_admin, Ok(run)),
        begins_run(b, on_windows, is_admin, Ok(other)),
        walk_ok(entries),
        (Walk { root, entries, settings: run.settings }).is_report(nodes),
    ensures
        (Walk { root, entries, settings: other.settings }).is_report(nodes),
{
    same_request_begins_the_same_run(a, b, on_windows, is_admin, Ok(run), Ok(other));
    report_ignores_order(
        Walk { root, entries, settings: run.settings },
        Walk { root, entries, settings: other.settings },
        nodes,
    );
}

pub(crate) proof fn lemma_some_piece(s: Seq<char>, sep: char)
    ensures
        split(s, sep).len() > 0,
    decreases s.len(),
{
    if s.len() > 0 {
        lemma_some_piece(s.drop_last(), sep);
    }
}

pub(crate) proof fn lemma_split_two(s: Seq<char>, t: Seq<char>, sep: char)
    ensures
        split(s.push(sep) + t, sep) == split(s, sep) + split(t, sep),
    decreases t.len(),
{
    let all = s.push(sep) + t;
    if t.len() == 0 {
        assert(all == s.push(sep));
        assert(all.drop_last() == s);
        assert(split(all, sep) =~= split(s, sep) + split(t, sep));
    } else {
        assert(all.drop_last() == s.push(sep) + t.drop_last());
        lemma_split_two(s, t.drop_last(), sep);
        lemma_some_piece(t.drop_last(), sep);
        assert(split(all, sep) =~= split(s, sep) + split(t, sep));
    }
}

proof fn lemma_items_two(x: Seq<Seq<char>>, y: Seq<Seq<char>>)
    ensures
        trimmed_items(x + y) == trimmed_items(x) + trimmed_items(y),
    decreases y.len(),
{
    if y.len() == 0 {
        assert(x + y == x);
        assert(trimmed_items(x + y) =~= trimmed_items(x) + trimmed_items(y));
    } else {
        assert((x + y).drop_last() == x + y.drop_last());
        lemma_items_two(x, y.drop_last());
        assert(trimmed_items(x + y) =~= trimmed_items(x) + trimmed_items(y));
    }
}

proof fn lemma_trim_start_push(s: Seq<char>, c: char)
    requires
        white_space(c),
    ensures
        trim_start(s.push(c)) == if trim_start(s).len() == 0 {
            trim_start(s)
        } else {
            trim_start(s).push(c)
        },
    decreases s.len(),
{
    if s.len() == 0 {
        assert(s.push(c).skip(1) == s);
    } else if white_space(s[0]) {
        assert(s.push(c).skip(1) == s.skip(1).push(c));
        lemma_trim_start_push(s.skip(1), c);
    }
}

proof fn lemma_trim_push(s: Seq<char>, c: char)
    requires
        white_space(c),
    ensures
        trim(s.push(c)) == trim(s),
{
    lemma_trim_start_push(s, c);
    let t = trim_start(s);
    assert(t.push(c).drop_last() == t);
}

proof fn lemma_blanks_after(s: Seq<char>, after: Seq<char>, sep: char)
    requires
        is_blank(after, sep),
    ensures
        list_items(s + after, sep) == list_items(s, sep),
    decreases after.len(),
{
    if after.len() == 0 {
        assert(s + after == s);
    } else {
        let c = after.last();
        let t = s + after.drop_last();
        assert(is_blank(after.drop_last(), sep)) by {
            assert forall|i: int| 0 <= i < after.len() - 1 implies white_space(
                #[trigger] after.drop_last()[i],
            ) && after.drop_last()[i] != sep by {
                assert(after[i] == after.drop_last()[i]);
            }
        }
        lemma_blanks_after(s, after.drop_last(), sep);
        assert(s + after == t.push(c));
        assert(white_space(after[after.len() - 1]) && after[after.len() - 1] != sep);
        let pieces = split(t, sep);
        lemma_some_piece(t, sep);
        lemma_trim_push(pieces.last(), c);
        assert(t.push(c).drop_last() == t);
        let now = split(t.push(c), sep);
        assert(now.drop_last() == pieces.drop_last());
    }
}

proof fn lemma_split_first(c: char, s: Seq<char>, sep: char)
    requires
        c != sep,
    ensures
        split(seq![c] + s, sep) == seq![seq![c] + split(s, sep)[0]] + split(s, sep).skip(1),
    decreases s.len(),
{
    let all = seq![c] + s;
    lemma_some_piece(s, sep);
    if s.len() == 0 {
        assert(all.drop_last() == s);
        assert(split(s, sep).last() == s);
        assert(split(all, sep) =~= seq![seq![c] + split(s, sep)[0]] + split(s, sep).skip(1));
    } else {
        let short = s.drop_last();
        assert(all.drop_last() == seq![c] + short);
        lemma_split_first(c, short, sep);
        lemma_some_piece(short, sep);
        let x = split(short, sep);
        let y = split(seq![c] + short, sep);
        if s.last() != sep {
            if x.len() == 1 {
                assert(y.last() == seq![c] + x[0]);
                assert(y.last().push(s.last()) =~= seq![c] + x[0].push(s.last()));
            } else {
                assert(y.last() == x.last());
            }
        }
        assert(split(all, sep) =~= seq![seq![c] + split(s, sep)[0]] + split(s, sep).skip(1));
    }
}

proof fn lemma_blanks_before(before: Seq<char>, s: Seq<char>, sep: char)
    requires
        is_blank(before, sep),
    ensures
        list_items(before + s, sep) == list_items(s, sep),
    decreases before.len(),
{
    if before.len() == 0 {
        assert(before + s == s);
    } else {
        let c = before[0];
        let t = before.skip(1) + s;
        assert(is_blank(before.skip(1), sep)) by {
            assert forall|i: int| 0 <= i < before.len() - 1 implies white_space(
                #[trigger] before.skip(1)[i],
            ) && before.skip(1)[i] != sep by {
                assert(before[i + 1] == before.skip(1)[i]);
            }
        }
        lemma_blanks_before(before.skip(1), s, sep);
        assert(before + s == seq![c] + t);
        lemma_split_first(c, t, sep);
        lemma_some_piece(t, sep);
        let pieces = split(t, sep);
        let first = seq![pieces[0]];
        let rest = pieces.skip(1);
        let changed = seq![seq![c] + pieces[0]];
        assert(pieces == first + rest);
        lemma_items_two(first, rest);
        lemma_items_two(changed, rest);
        assert((seq![c] + pieces[0]).skip(1) == pieces[0]);
        assert(trim(seq![c] + pieces[0]) == trim(pieces[0]));
        assert(first.drop_last() == changed.drop_last());
    }
}

} // verus!

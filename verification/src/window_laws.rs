//! What the window shows of the settings, the tree and the log.

use crate::config::{default_ignore_dirs, default_ignore_files, packages_dir, AppSettings};
use crate::delete::DeleteSettings;
use crate::gui::{empty_count, has_part, protected_under, with_line, UiState};
use crate::logger::{changes, is_full, last_lines, messages, progress, with_changes, LogEvent};
use crate::scanner::ScanSettings;
use crate::text::{join, list_items, occurs_at, split, texts, trim};
use crate::text_laws::joined_lines_come_apart;
use crate::tree::{ends_level, opens_subtree, related, DirectoryNode, PROTECTED};
use crate::visible::{
    drawn, is_row, last_at, line_passes, shut_over, visible, visible_places, VisibleNodeData,
};
use vstd::prelude::*;

verus! {

/// A scan from the window goes by what its controls show.
pub proof fn controls_reach_the_scan(ui: UiState, s: ScanSettings)
    requires
        ui.scans_with(s),
    ensures
        texts(s.ignore_files@) == list_items(ui.ignore_files_text@, '\n'),
        texts(s.ignore_dirs@) == list_items(ui.ignore_list_text@, '\n'),
        s.ignore_hidden == ui.ignore_hidden,
        s.keep_system == ui.skip_system,
        s.max_depth == ui.max_depth,
        s.consider_empty_files_empty == ui.consider_empty_files_empty,
        s.hide_search_errors == ui.hide_search_errors,
        ui.min_age_hours >= 0 ==> s.min_age_hours == ui.min_age_hours,
        ui.min_age_hours < 0 ==> s.min_age_hours == ui.min_age_hours + 0x1_0000_0000,
{
    let h = ui.min_age_hours;
    assert(h < 0 ==> (h as u32) == h + 0x1_0000_0000) by (bit_vector);
}

/// A deletion from the window goes by what its controls show.
pub proof fn controls_reach_the_deletion(ui: UiState, s: DeleteSettings)
    requires
        ui.deletes_with(s),
    ensures
        s.move_to_trash <==> ui.delete_mode == 0,
        s.ignore_errors == ui.ignore_errors,
        texts(s.ignore_files@) == list_items(ui.ignore_files_text@, '\n'),
        s.consider_empty_files_empty == ui.consider_empty_files_empty,
        s.dry_run == ui.dry_run,
        ui.pause_ms >= 0 ==> s.pause_ms == ui.pause_ms,
        ui.pause_ms < 0 ==> s.pause_ms == ui.pause_ms + 0x1_0000_0000,
{
    let p = ui.pause_ms;
    assert(p < 0 ==> (p as u32) == p + 0x1_0000_0000) by (bit_vector);
}

/// Settings that are read and saved again go through the controls of the same names.
pub proof fn controls_show_the_settings(ui: UiState, s: AppSettings)
    requires
        ui.shows(s),
    ensures
        s.consider_empty_files_empty == ui.consider_empty_files_empty,
        s.ignore_hidden == ui.ignore_hidden,
        s.ignore_errors == ui.ignore_errors,
        s.hide_search_errors == ui.hide_search_errors,
        s.skip_system == ui.skip_system,
        s.delete_mode == ui.delete_mode,
        s.max_depth == ui.max_depth,
        s.pause_ms == ui.pause_ms,
        s.min_age_hours == ui.min_age_hours,
        s.auto_save_logs == ui.auto_save_logs,
        s.mft_scan == ui.mft_scan,
        s.ignore_list_text@ == ui.ignore_list_text@,
        s.ignore_files_text@ == ui.ignore_files_text@,
        s.dry_run == ui.dry_run,
{
}

/// The counts of empty directories of two lists add up; a single directory counts if its status is
/// that of an empty one.
pub proof fn counts_add_up(a: Seq<DirectoryNode>, b: Seq<DirectoryNode>)
    ensures
        empty_count(a + b) == empty_count(a) + empty_count(b),
        a.len() == 0 ==> empty_count(a) == 0,
        a.len() == 1 ==> empty_count(a) == if a[0].status == 1 {
            1nat
        } else {
            0nat
        },
    decreases b.len(),
{
    if b.len() == 0 {
        assert(a + b =~= a);
    } else {
        counts_add_up(a, b.drop_last());
        assert((a + b).drop_last() =~= a + b.drop_last());
        assert((a + b).last() == b.last());
    }
    if a.len() == 1 {
        assert(a.drop_last().len() == 0);
        assert(empty_count(a.drop_last()) == 0);
    }
}

/// A line is added at the end of a list, on a line of its own, unless one of the lines is the same
/// but for the white space around it.
pub proof fn line_is_added_once(list: Seq<char>, line: Seq<char>, i: int)
    ensures
        0 <= i < split(list, '\n').len() && trim(split(list, '\n')[i]) == line ==> with_line(
            list,
            line,
        ) == list,
        (forall|k: int|
            0 <= k < split(list, '\n').len() ==> trim(#[trigger] split(list, '\n')[k]) != line) ==> (
        if list.len() == 0 || list[list.len() - 1] == '\n' {
            with_line(list, line) == list + line
        } else {
            with_line(list, line) == list + seq!['\n'] + line
        }),
{
    assert(list.push('\n') + line =~= list + seq!['\n'] + line);
}

/// An exclusion protects what lies at or under the excluded path, changes nothing else about it, and
/// leaves everything else as it is.
pub proof fn exclusion_protects_what_is_below(node: DirectoryNode, target: DirectoryNode)
    ensures
        target.path@.is_prefix_of(node.path@) ==> protected_under(node, target) == (
        DirectoryNode { status: 3, ..node }),
        !target.path@.is_prefix_of(node.path@) ==> protected_under(node, target) == node,
{
    let n = target.path@.len() as int;
    if target.path@.is_prefix_of(node.path@) {
        assert(node.path@.take(n) =~= target.path@);
        assert(PROTECTED == 3);
    } else if n <= node.path@.len() && node.path@.take(n) == target.path@ {
        assert(target.path@ =~= node.path@.subrange(0, n));
    }
}

/// A text holds what stands in its middle, and nothing longer than itself.
pub proof fn parts_are_found(before: Seq<char>, part: Seq<char>, after: Seq<char>, s: Seq<char>)
    ensures
        has_part(before + part + after, part),
        has_part(s, part) ==> exists|i: int|
            0 <= i && i + part.len() <= s.len() && #[trigger] s.subrange(i, i + part.len())
                == part,
{
    let whole = before + part + after;
    let i = before.len() as int;
    assert(whole.subrange(i, i + part.len()) =~= part);
    assert(occurs_at(whole, part, i));
    if has_part(s, part) {
        let i = choose|i: int| #[trigger] occurs_at(s, part, i);
        assert(s.subrange(i, i + part.len()) == part);
    }
}

/// Events that follow each other give the lines, and the changes of status, of the first and then
/// those of the others, and the progress that was told last.
pub proof fn events_are_taken_in_order(a: Seq<LogEvent>, b: Seq<LogEvent>)
    ensures
        messages(a + b) == messages(a) + messages(b),
        changes(a + b) == changes(a) + changes(b),
        progress(a + b) == (if progress(b) is Some {
            progress(b)
        } else {
            progress(a)
        }),
    decreases b.len(),
{
    if b.len() == 0 {
        assert(a + b =~= a);
        assert(messages(a) + messages(b) =~= messages(a));
        assert(changes(a) + changes(b) =~= changes(a));
    } else {
        events_are_taken_in_order(a, b.drop_last());
        assert((a + b).drop_last() =~= a + b.drop_last());
        assert((a + b).last() == b.last());
        assert(messages(a + b) =~= messages(a) + messages(b));
        assert(changes(a + b) =~= changes(a) + changes(b));
    }
}

/// What a single event gives.
pub proof fn each_event_gives_one_thing(e: LogEvent)
    ensures
        messages(seq![e]) == (match e {
            LogEvent::Msg(s) => seq![s@],
            _ => Seq::<Seq<char>>::empty(),
        }),
        changes(seq![e]) == (match e {
            LogEvent::StatusChange(i, s) => seq![(i, s)],
            _ => Seq::<(usize, i32)>::empty(),
        }),
        progress(seq![e]) == (match e {
            LogEvent::Progress(p) => Some(p),
            _ => None,
        }),
        messages(Seq::<LogEvent>::empty()) == Seq::<Seq<char>>::empty(),
        changes(Seq::<LogEvent>::empty()) == Seq::<(usize, i32)>::empty(),
        progress(Seq::<LogEvent>::empty()) is None,
{
    let none = Seq::<LogEvent>::empty();
    assert(seq![e].drop_last() =~= none);
    assert(messages(none) =~= Seq::<Seq<char>>::empty());
    assert(changes(none) =~= Seq::<(usize, i32)>::empty());
    assert(progress(none) is None);
}

/// Of the lines the window keeps the last ones: all of them while there are few, else a fixed
/// number.
pub proof fn last_lines_are_kept(lines: Seq<Seq<char>>)
    ensures
        lines.len() <= 250 ==> last_lines(lines) == lines,
        lines.len() > 250 ==> last_lines(lines).len() == 250,
        last_lines(lines).is_suffix_of(lines),
{
    let kept = last_lines(lines);
    assert(kept =~= lines.subrange(lines.len() - kept.len(), lines.len() as int));
}

/// Work is done where the sign of the number that tells how far it has come is plus and its exponent
/// is that of one or more, up to infinity.
pub proof fn full_from_one_on(bits: u32)
    ensures
        is_full(bits) <==> bits >> 31 == 0 && bits >> 23 >= 127 && (bits >> 23 < 255 || bits
            == 255u32 << 23),
{
    assert((0x3f800000 <= bits && bits <= 0x7f800000) <==> (bits >> 31 == 0 && bits >> 23 >= 127 && (
    bits >> 23 < 255 || bits == 255u32 << 23))) by (bit_vector);
}

/// Changes of status leave the tree as it is but for the statuses: a node has the status of the last
/// change that is about it, and its own where none is.
pub proof fn last_change_counts(
    nodes: Seq<DirectoryNode>,
    list: Seq<(usize, i32)>,
    n: int,
    i: int,
    k: int,
)
    requires
        0 <= n <= list.len(),
        0 <= i < nodes.len(),
    ensures
        with_changes(nodes, list, n).len() == nodes.len(),
        with_changes(nodes, list, n)[i] == (DirectoryNode {
            status: with_changes(nodes, list, n)[i].status,
            ..nodes[i]
        }),
        (forall|m: int| 0 <= m < n ==> (#[trigger] list[m]).0 != i) ==> with_changes(
            nodes,
            list,
            n,
        )[i] == nodes[i],
        0 <= k < n && list[k].0 == i && (forall|m: int| k < m < n ==> (#[trigger] list[m]).0 != i)
            ==> with_changes(nodes, list, n)[i].status == list[k].1,
    decreases n,
{
    if n > 0 {
        last_change_counts(nodes, list, n - 1, i, k);
    }
}

/// A node is visible unless some node above it in the list is collapsed and everything from there
/// down to it is deeper.
pub proof fn visible_unless_under_a_collapsed_node(nodes: Seq<DirectoryNode>, i: int)
    requires
        0 <= i < nodes.len(),
    ensures
        visible(nodes, i) <==> !exists|j: int|
            0 <= j < i && !(#[trigger] nodes[j]).is_expanded && forall|k: int|
                j < k <= i ==> (#[trigger] nodes[k]).depth > nodes[j].depth,
{
    if visible(nodes, i) {
        assert forall|j: int| 0 <= j < i && !(#[trigger] nodes[j]).is_expanded implies !(forall|
            k: int,
        |
            j < k <= i ==> (#[trigger] nodes[k]).depth > nodes[j].depth) by {
            if forall|k: int| j < k <= i ==> (#[trigger] nodes[k]).depth > nodes[j].depth {
                assert(shut_over(nodes, j, i));
                assert(nodes[i].depth > nodes[j].depth);
            }
        }
    } else {
        let j = choose|j: int| #[trigger]
            shut_over(nodes, j, i) && nodes[i].depth > nodes[j].depth;
        assert(!nodes[j].is_expanded);
        assert forall|k: int| j < k <= i implies (#[trigger] nodes[k]).depth > nodes[j].depth by {}
    }
}

/// The rows are those of the visible nodes, each once, in the order of the tree.
pub proof fn rows_are_the_visible_nodes(nodes: Seq<DirectoryNode>, n: int, i: int, a: int, b: int)
    requires
        0 <= n <= nodes.len(),
    ensures
        visible_places(nodes, n).contains(i) <==> 0 <= i < n && visible(nodes, i),
        0 <= a < b < visible_places(nodes, n).len() ==> 0 <= visible_places(nodes, n)[a]
            < visible_places(nodes, n)[b] < n,
    decreases n,
{
    let all = visible_places(nodes, n);
    if n > 0 {
        let short = visible_places(nodes, n - 1);
        rows_are_the_visible_nodes(nodes, n - 1, i, a, b);
        if visible(nodes, n - 1) {
            if short.contains(i) {
                let k = choose|k: int| 0 <= k < short.len() && short[k] == i;
                assert(all[k] == i);
            }
            if i == n - 1 {
                assert(all[all.len() - 1] == i);
            }
            if all.contains(i) && i != n - 1 {
                let k = choose|k: int| 0 <= k < all.len() && all[k] == i;
                assert(short[k] == i);
            }
            if 0 <= a < b && b == short.len() {
                assert(short.contains(short[a]));
                rows_are_the_visible_nodes(nodes, n - 1, short[a], a, b);
            }
        }
    }
}

/// A row shows its node.
pub proof fn row_shows_its_node(nodes: Seq<DirectoryNode>, i: int, item: VisibleNodeData)
    requires
        0 <= i <= i32::MAX,
        is_row(nodes, i, item),
    ensures
        item.name@ == nodes[i].name@,
        item.path@ == nodes[i].path_str@,
        item.depth == nodes[i].depth,
        item.status == nodes[i].status,
        item.has_children == nodes[i].has_children,
        item.is_expanded == nodes[i].is_expanded,
        item.id == i,
        item.is_root <==> nodes[i].depth == 0,
        item.is_hidden == nodes[i].is_hidden,
        item.is_symlink == nodes[i].is_symlink,
{
}

/// Before a name there is a column for each level above it. The last one holds a branch, which ends
/// where the node is the last of its siblings. In the others a line passes where the last visible
/// node of the level that the column stands for has siblings to come.
pub proof fn lines_are_drawn(
    nodes: Seq<DirectoryNode>,
    i: int,
    item: VisibleNodeData,
    c: int,
    k: int,
)
    requires
        0 <= i < nodes.len(),
        is_row(nodes, i, item),
    ensures
        nodes[i].depth <= 0 ==> item.tree_lines@.len() == 0,
        nodes[i].depth > 0 ==> item.tree_lines@.len() == nodes[i].depth,
        nodes[i].depth > 0 ==> item.tree_lines@[nodes[i].depth - 1] == (
        if nodes[i].is_last_sibling {
            3i32
        } else {
            2i32
        }),
        0 <= c < nodes[i].depth - 1 && 0 <= k < i && visible(nodes, k) && nodes[k].depth == c + 1
            && (forall|m: int| k < m < i && #[trigger] visible(nodes, m) ==> nodes[m].depth != c + 1)
            ==> item.tree_lines@[c] == (if nodes[k].is_last_sibling {
            0i32
        } else {
            1i32
        }),
        0 <= c < nodes[i].depth - 1 && (forall|m: int|
            0 <= m < i && #[trigger] visible(nodes, m) ==> nodes[m].depth != c + 1)
            ==> item.tree_lines@[c] == 0,
{
    assert(item.tree_lines@ == drawn(nodes, i));
    if 0 <= c < nodes[i].depth - 1 {
        assert(item.tree_lines@[c] == if line_passes(nodes, i, c) {
            1i32
        } else {
            0i32
        });
        if 0 <= k < i && visible(nodes, k) && nodes[k].depth == c + 1 && (forall|m: int|
            k < m < i && #[trigger] visible(nodes, m) ==> nodes[m].depth != c + 1) {
            lemma_last_at(nodes, i, c + 1, k);
        }
        if forall|m: int| 0 <= m < i && #[trigger] visible(nodes, m) ==> nodes[m].depth != c + 1 {
            lemma_none_at(nodes, i, c + 1);
        }
    }
}

proof fn lemma_last_at(nodes: Seq<DirectoryNode>, i: int, depth: int, k: int)
    requires
        0 <= k < i,
        visible(nodes, k),
        nodes[k].depth == depth,
        forall|m: int| k < m < i && #[trigger] visible(nodes, m) ==> nodes[m].depth != depth,
    ensures
        last_at(nodes, i, depth) == Some(k),
    decreases i,
{
    if k < i - 1 {
        lemma_last_at(nodes, i - 1, depth, k);
    }
}

proof fn lemma_none_at(nodes: Seq<DirectoryNode>, i: int, depth: int)
    requires
        forall|m: int| 0 <= m < i && #[trigger] visible(nodes, m) ==> nodes[m].depth != depth,
    ensures
        last_at(nodes, i, depth) is None,
    decreases i,
{
    if i > 0 {
        lemma_none_at(nodes, i - 1, depth);
    }
}

/// A node has something below it where the next one is deeper, and is the last of its siblings where
/// no node of its depth comes before the next that is less deep.
pub proof fn flags_say_what_follows(nodes: Seq<DirectoryNode>, i: int)
    requires
        0 <= i < nodes.len(),
    ensures
        opens_subtree(nodes, i) <==> i + 1 < nodes.len() && nodes[i + 1].depth > nodes[i].depth,
        ends_level(nodes, i) <==> !exists|j: int|
            i < j < nodes.len() && (#[trigger] nodes[j]).depth == nodes[i].depth && forall|k: int|
                i < k < j ==> (#[trigger] nodes[k]).depth >= nodes[i].depth,
        related(nodes, i) == (DirectoryNode {
            has_children: nodes[i].has_children || opens_subtree(nodes, i),
            is_last_sibling: ends_level(nodes, i),
            ..nodes[i]
        }),
{
    if ends_level(nodes, i) {
        assert forall|j: int|
            i < j < nodes.len() && (#[trigger] nodes[j]).depth == nodes[i].depth implies !(forall|
            k: int,
        |
            i < k < j ==> (#[trigger] nodes[k]).depth >= nodes[i].depth) by {
            assert(!crate::tree::follows_level(nodes, i, j));
        }
    } else {
        let j = choose|j: int| crate::tree::follows_level(nodes, i, j);
        assert(nodes[j].depth == nodes[i].depth);
    }
}

/// The settings of a first session.
pub proof fn first_session_is_careful(s: AppSettings, ignore_list: Seq<char>)
    requires
        s.is_default(ignore_list),
    ensures
        s.consider_empty_files_empty,
        s.ignore_hidden,
        s.ignore_errors,
        s.hide_search_errors,
        s.skip_system,
        s.delete_mode == 0,
        s.max_depth == -1,
        s.pause_ms == 0,
        s.min_age_hours == 0,
        !s.auto_save_logs,
        !s.mft_scan,
        !s.dry_run,
        s.ignore_list_text@ == ignore_list,
        s.ignore_files_text@ == "desktop.ini\nThumbs.db\n.DS_Store"@,
        default_ignore_files() == "desktop.ini\nThumbs.db\n.DS_Store"@,
{
}

/// The directory of the packages is the one under the local application data where that is known,
/// else the one under the user's profile.
pub proof fn packages_are_found(local: Option<String>, profile: Option<String>)
    ensures
        local matches Some(s) ==> packages_dir(local, profile) == s@,
        local is None ==> (profile matches Some(s) ==> packages_dir(local, profile) == s@),
        local is None && profile is None ==> packages_dir(local, profile)
            == "AppData\\Local\\Packages"@,
{
}

/// The list of directories that are ignored by default has the usual ones on its lines, and then the
/// directory of the packages.
pub proof fn usual_directories_are_ignored(local: Option<String>, profile: Option<String>)
    requires
        !packages_dir(local, profile).contains('\n'),
    ensures
        split(default_ignore_dirs(local, profile), '\n') == seq![
            "System Volume Information"@,
            "RECYCLER"@,
            "Recycled"@,
            "NtUninstall"@,
            "$RECYCLE.BIN"@,
            "GAC_MSIL"@,
            "GAC_32"@,
            "winsxs"@,
            "System32"@,
            packages_dir(local, profile),
        ],
{
    let all = seq![
        "System Volume Information"@,
        "RECYCLER"@,
        "Recycled"@,
        "NtUninstall"@,
        "$RECYCLE.BIN"@,
        "GAC_MSIL"@,
        "GAC_32"@,
        "winsxs"@,
        "System32"@,
        packages_dir(local, profile),
    ];
    assert(crate::config::usual_ignore_dirs().push(packages_dir(local, profile)) =~= all);
    reveal_strlit("System Volume Information");
    reveal_strlit("RECYCLER");
    reveal_strlit("Recycled");
    reveal_strlit("NtUninstall");
    reveal_strlit("$RECYCLE.BIN");
    reveal_strlit("GAC_MSIL");
    reveal_strlit("GAC_32");
    reveal_strlit("winsxs");
    reveal_strlit("System32");
    assert forall|i: int| 0 <= i < all.len() implies !(#[trigger] all[i]).contains('\n') by {}
    joined_lines_come_apart(all, '\n');
    assert(default_ignore_dirs(local, profile) == join(all, seq!['\n']));
}

} // verus!

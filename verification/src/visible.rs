//! The rows of a tree that are visible, and the lines drawn before each.

use crate::tree::DirectoryNode;
use vstd::prelude::*;

verus! {

/// A visible row of the tree.
pub struct VisibleNodeData {
    pub name: String,
    pub path: String,
    pub depth: i32,
    pub status: i32,
    pub has_children: bool,
    pub is_expanded: bool,
    /// The position of the node in the tree.
    pub id: i32,
    pub is_root: bool,
    /// What is drawn in each column before the name: 0 for nothing, 1 for a line that passes, 2
    /// for a branch that goes on below and 3 for the last branch.
    pub tree_lines: Vec<i32>,
    pub is_hidden: bool,
    pub is_symlink: bool,
}

/// Whether node `j` is collapsed and everything between it and place `i` is deeper.
pub open spec fn shut_over(nodes: Seq<DirectoryNode>, j: int, i: int) -> bool {
    &&& 0 <= j < i
    &&& !nodes[j].is_expanded
    &&& forall|k: int| j < k < i ==> #[trigger] nodes[k].depth > nodes[j].depth
}

/// Whether node `i` is visible: it does not lie under a collapsed node.
pub open spec fn visible(nodes: Seq<DirectoryNode>, i: int) -> bool {
    forall|j: int| #[trigger] shut_over(nodes, j, i) ==> nodes[i].depth <= nodes[j].depth
}

/// The last visible node before place `i` at a depth.
pub open spec fn last_at(nodes: Seq<DirectoryNode>, i: int, depth: int) -> Option<int>
    decreases i,
{
    if i <= 0 {
        None
    } else if visible(nodes, i - 1) && nodes[i - 1].depth == depth {
        Some(i - 1)
    } else {
        last_at(nodes, i - 1, depth)
    }
}

/// Whether a line passes row `i` in column `c`: the last visible node one level below the column
/// has siblings to come.
pub open spec fn line_passes(nodes: Seq<DirectoryNode>, i: int, c: int) -> bool {
    match last_at(nodes, i, c + 1) {
        Some(k) => !nodes[k].is_last_sibling,
        None => false,
    }
}

/// What is drawn before the name in row `i`.
pub open spec fn drawn(nodes: Seq<DirectoryNode>, i: int) -> Seq<i32> {
    let depth = nodes[i].depth;
    Seq::new(
        if depth > 0 {
            depth as nat
        } else {
            0
        },
        |c: int|
            if c < depth - 1 {
                if line_passes(nodes, i, c) {
                    1i32
                } else {
                    0i32
                }
            } else if nodes[i].is_last_sibling {
                3i32
            } else {
                2i32
            },
    )
}

/// The positions of the visible nodes among the first `n`, in order.
pub open spec fn visible_places(nodes: Seq<DirectoryNode>, n: int) -> Seq<int>
    decreases n,
{
    if n <= 0 {
        Seq::empty()
    } else if visible(nodes, n - 1) {
        visible_places(nodes, n - 1).push(n - 1)
    } else {
        visible_places(nodes, n - 1)
    }
}

/// Whether `item` is the row of node `i`.
pub open spec fn is_row(nodes: Seq<DirectoryNode>, i: int, item: VisibleNodeData) -> bool {
    &&& item.name@ == nodes[i].name@
    &&& item.path@ == nodes[i].path_str@
    &&& item.depth == nodes[i].depth
    &&& item.status == nodes[i].status
    &&& item.has_children == nodes[i].has_children
    &&& item.is_expanded == nodes[i].is_expanded
    &&& item.id == (i as usize) as i32
    &&& item.is_root == (nodes[i].depth == 0)
    &&& item.tree_lines@ == drawn(nodes, i)
    &&& item.is_hidden == nodes[i].is_hidden
    &&& item.is_symlink == nodes[i].is_symlink
}

/// Whether the depths can be counted down by one.
pub open spec fn depths_ok(nodes: Seq<DirectoryNode>) -> bool {
    forall|i: int| 0 <= i < nodes.len() ==> (#[trigger] nodes[i]).depth > i32::MIN
}

/// Whether `hide` is the smallest depth of a collapsed node with only deeper nodes behind it.
spec fn hides_below(nodes: Seq<DirectoryNode>, i: int, hide: i32) -> bool {
    &&& forall|j: int| #[trigger] shut_over(nodes, j, i) ==> nodes[j].depth >= hide
    &&& hide == i32::MAX || exists|j: int| #[trigger]
        shut_over(nodes, j, i) && nodes[j].depth == hide
}

proof fn lemma_hide_step(nodes: Seq<DirectoryNode>, i: int, hide: i32)
    requires
        0 <= i < nodes.len(),
        hides_below(nodes, i, hide),
    ensures
        visible(nodes, i) == (nodes[i].depth <= hide),
        nodes[i].depth > hide ==> hides_below(nodes, i + 1, hide),
        nodes[i].depth <= hide ==> hides_below(
            nodes,
            i + 1,
            if nodes[i].is_expanded {
                i32::MAX
            } else {
                nodes[i].depth
            },
        ),
{
    if nodes[i].depth > hide {
        let j = choose|j: int| #[trigger] shut_over(nodes, j, i) && nodes[j].depth == hide;
        assert(shut_over(nodes, j, i + 1));
        assert forall|k: int| #[trigger] shut_over(nodes, k, i + 1) implies nodes[k].depth >= hide by {
            if k < i {
                assert(shut_over(nodes, k, i));
            }
        }
    } else {
        assert forall|k: int| #[trigger] shut_over(nodes, k, i + 1) implies k == i by {
            if k < i {
                assert(shut_over(nodes, k, i));
                assert(nodes[i].depth > nodes[k].depth);
            }
        }
        if !nodes[i].is_expanded {
            assert(shut_over(nodes, i, i + 1));
        }
    }
}

/// What is drawn before the name of a node, from the columns in which a line passes.
fn make_lines(node: &DirectoryNode, active: &Vec<bool>) -> (lines: Vec<i32>)
    requires
        node.depth > i32::MIN,
    ensures
        lines@.len() == (if node.depth > 0 {
            node.depth as int
        } else {
            0
        }),
        forall|c: int|
            0 <= c < node.depth - 1 ==> #[trigger] lines@[c] == (if c < active@.len()
                && active@[c] {
                1i32
            } else {
                0i32
            }),
        node.depth > 0 ==> lines@[node.depth - 1] == (if node.is_last_sibling {
            3i32
        } else {
            2i32
        }),
{
    let mut lines: Vec<i32> = Vec::new();
    let mut d: i32 = 0;
    while d < node.depth - 1
        invariant
            0 <= d,
            node.depth > i32::MIN,
            d <= node.depth - 1 || d == 0,
            lines@.len() == d,
            forall|c: int|
                0 <= c < d ==> #[trigger] lines@[c] == (if c < active@.len() && active@[c] {
                    1i32
                } else {
                    0i32
                }),
        decreases node.depth - d,
    {
        let c: usize = d as usize;
        if c < active.len() && active[c] {
            lines.push(1);
        } else {
            lines.push(0);
        }
        d += 1;
    }
    if node.depth > 0 {
        if node.is_last_sibling {
            lines.push(3);
        } else {
            lines.push(2);
        }
    }
    lines
}

/// The visible rows of a tree.
pub fn rebuild_visible_items(folders: &Vec<DirectoryNode>) -> (items: Vec<VisibleNodeData>)
    requires
        depths_ok(folders@),
    ensures
        ({
            let places = visible_places(folders@, folders@.len() as int);
            &&& items@.len() == places.len()
            &&& forall|a: int|
                0 <= a < items@.len() ==> is_row(folders@, places[a], #[trigger] items@[a])
        }),
{
    let ghost nodes = folders@;
    let mut items: Vec<VisibleNodeData> = Vec::new();
    let mut hide_depth: i32 = i32::MAX;
    let mut active: Vec<bool> = Vec::new();
    let mut i: usize = 0;
    while i < folders.len()
        invariant
            nodes == folders@,
            depths_ok(nodes),
            i <= nodes.len(),
            hides_below(nodes, i as int, hide_depth),
            forall|c: int|
                0 <= c ==> #[trigger] line_passes(nodes, i as int, c) == (c < active@.len()
                    && active@[c]),
            items@.len() == visible_places(nodes, i as int).len(),
            forall|a: int|
                0 <= a < items@.len() ==> is_row(
                    nodes,
                    visible_places(nodes, i as int)[a],
                    #[trigger] items@[a],
                ),
        decreases nodes.len() - i,
    {
        let node = &folders[i];
        let ghost before = active@;
        proof {
            lemma_hide_step(nodes, i as int, hide_depth);
            assert forall|c: int| 0 <= c implies #[trigger] line_passes(nodes, i + 1, c) == (
            if visible(nodes, i as int) && nodes[i as int].depth == c + 1 {
                !nodes[i as int].is_last_sibling
            } else {
                line_passes(nodes, i as int, c)
            }) by {}
        }
        if node.depth <= hide_depth {
            hide_depth = i32::MAX;
            if node.depth > 0 {
                let column: usize = (node.depth - 1) as usize;
                while active.len() <= column
                    invariant
                        before.len() <= active@.len(),
                        forall|c: int| 0 <= c < before.len() ==> active@[c] == before[c],
                        forall|c: int| before.len() <= c < active@.len() ==> !active@[c],
                    decreases column + 1 - active@.len(),
                {
                    active.push(false);
                }
                active[column] = !node.is_last_sibling;
            }
            let tree_lines = make_lines(node, &active);
            proof {
                assert forall|c: int| 0 <= c < node.depth - 1 implies #[trigger] line_passes(
                    nodes,
                    i as int,
                    c,
                ) == (c < active@.len() && active@[c]) by {}
                assert(tree_lines@ =~= drawn(nodes, i as int));
            }
            items.push(
                VisibleNodeData {
                    name: node.name.clone(),
                    path: node.path_str.clone(),
                    depth: node.depth,
                    status: node.status,
                    has_children: node.has_children,
                    is_expanded: node.is_expanded,
                    id: i as i32,
                    is_root: node.depth == 0,
                    tree_lines,
                    is_hidden: node.is_hidden,
                    is_symlink: node.is_symlink,
                },
            );
            if !node.is_expanded {
                hide_depth = node.depth;
            }
        }
        i += 1;
    }
    items
}

/// Whether a list of nodes begins at depth zero and no node is deeper than the one before it by
/// more than one.
pub open spec fn no_gaps(nodes: Seq<DirectoryNode>) -> bool {
    &&& nodes.len() > 0 ==> nodes[0].depth == 0
    &&& forall|k: int|
        0 < k < nodes.len() ==> (#[trigger] nodes[k]).depth <= nodes[k - 1].depth + 1
            && nodes[k].depth >= 0
}

/// Whether node `k` lies under node `i`: it comes later, and all from there to it are deeper.
pub open spec fn lies_under(nodes: Seq<DirectoryNode>, i: int, k: int) -> bool {
    &&& i < k < nodes.len()
    &&& forall|m: int| i < m <= k ==> #[trigger] nodes[m].depth > nodes[i].depth
}

/// The last node before place `k` that is no deeper than `d`, which is no less than zero.
proof fn lemma_ancestor(nodes: Seq<DirectoryNode>, k: int, d: int) -> (p: int)
    requires
        no_gaps(nodes),
        0 <= k < nodes.len(),
        0 <= d < nodes[k].depth,
    ensures
        0 <= p < k,
        nodes[p].depth == d,
        forall|m: int| p < m <= k ==> #[trigger] nodes[m].depth > d,
    decreases k,
{
    assert(nodes[k].depth <= nodes[k - 1].depth + 1);
    if nodes[k - 1].depth == d {
        k - 1
    } else {
        let p = lemma_ancestor(nodes, k - 1, d);
        assert forall|m: int| p < m <= k implies #[trigger] nodes[m].depth > d by {
            if m < k {
                assert(p < m <= k - 1);
            }
        }
        p
    }
}

/// In a visible row the node above it at each smaller depth is the last visible one there.
proof fn lemma_last_at(nodes: Seq<DirectoryNode>, i: int, p: int, k: int, d: int)
    requires
        0 <= p < i <= k < nodes.len(),
        visible(nodes, k),
        nodes[p].depth == d,
        forall|m: int| p < m <= k ==> #[trigger] nodes[m].depth > d,
    ensures
        last_at(nodes, i, d) == Some(p),
    decreases i,
{
    if i - 1 == p {
        assert forall|j: int| #[trigger] shut_over(nodes, j, p) implies nodes[p].depth
            <= nodes[j].depth by {
            if nodes[p].depth > nodes[j].depth {
                assert forall|m: int| j < m < k implies #[trigger] nodes[m].depth > nodes[j].depth by {
                    if m > p {
                        assert(p < m <= k);
                    }
                }
                assert(shut_over(nodes, j, k));
                assert(nodes[k].depth > d);
            }
        }
    } else {
        assert(nodes[i - 1].depth > d);
        lemma_last_at(nodes, i - 1, p, k, d);
    }
}

/// To collapse a node takes out exactly the rows below it.
pub proof fn collapsing_hides_what_is_below(
    open: Seq<DirectoryNode>,
    shut: Seq<DirectoryNode>,
    i: int,
    k: int,
)
    requires
        0 <= i < open.len(),
        shut == open.update(i, DirectoryNode { is_expanded: false, ..open[i] }),
        0 <= k < open.len(),
    ensures
        visible(shut, k) == (visible(open, k) && !lies_under(open, i, k)),
{
    assert forall|m: int| 0 <= m < open.len() implies (#[trigger] shut[m]).depth
        == open[m].depth by {}
    if lies_under(open, i, k) {
        assert forall|m: int| i < m < k implies #[trigger] shut[m].depth > shut[i].depth by {
            assert(open[m].depth > open[i].depth);
        }
        assert(open[k].depth > open[i].depth);
        assert(shut_over(shut, i, k));
    } else {
        assert forall|j: int| #[trigger] shut_over(open, j, k) implies shut_over(shut, j, k) by {
            assert forall|m: int| j < m < k implies #[trigger] shut[m].depth > shut[j].depth by {
                assert(open[m].depth > open[j].depth);
            }
        }
        assert forall|j: int| #[trigger] shut_over(shut, j, k) && j != i implies shut_over(
            open,
            j,
            k,
        ) by {
            assert(shut[j] == open[j]);
            assert forall|m: int| j < m < k implies #[trigger] open[m].depth > open[j].depth by {
                assert(shut[m].depth > shut[j].depth);
            }
        }
        if visible(open, k) {
            assert forall|j: int| #[trigger] shut_over(shut, j, k) implies shut[k].depth
                <= shut[j].depth by {
                if j == i {
                    if shut[k].depth > shut[i].depth {
                        assert forall|m: int| i < m <= k implies #[trigger] open[m].depth
                            > open[i].depth by {
                            if m < k {
                                assert(shut[m].depth > shut[i].depth);
                            }
                        }
                        assert(lies_under(open, i, k));
                    }
                } else {
                    assert(shut_over(open, j, k));
                }
            }
        }
        if visible(shut, k) {
            assert forall|j: int| #[trigger] shut_over(open, j, k) implies open[k].depth
                <= open[j].depth by {
                assert(shut_over(shut, j, k));
            }
        }
    }
}

/// In a tree without gaps, to collapse a node changes nothing about the lines of a row that stays.
proof fn lemma_same_line(
    open: Seq<DirectoryNode>,
    shut: Seq<DirectoryNode>,
    i: int,
    k: int,
    c: int,
)
    requires
        no_gaps(open),
        0 <= i < open.len(),
        shut == open.update(i, DirectoryNode { is_expanded: false, ..open[i] }),
        0 <= k < open.len(),
        visible(open, k),
        visible(shut, k),
        0 <= c < open[k].depth - 1,
    ensures
        line_passes(shut, k, c) == line_passes(open, k, c),
{
    let d = c + 1;
    let p = lemma_ancestor(open, k, d);
    lemma_last_at(open, k, p, k, d);
    assert forall|m: int| p < m <= k implies #[trigger] shut[m].depth > d by {
        assert(open[m].depth > d);
    }
    lemma_last_at(shut, k, p, k, d);
}

/// In a tree without gaps, to collapse a node leaves every row that stays as it was, with the lines
/// before it; only the collapsed row itself is marked as such.
pub proof fn collapsing_keeps_other_rows(
    open: Seq<DirectoryNode>,
    shut: Seq<DirectoryNode>,
    i: int,
    k: int,
    item: VisibleNodeData,
)
    requires
        no_gaps(open),
        0 <= i < open.len(),
        shut == open.update(i, DirectoryNode { is_expanded: false, ..open[i] }),
        0 <= k < open.len(),
        visible(shut, k),
        is_row(open, k, item),
    ensures
        is_row(shut, k, VisibleNodeData { is_expanded: item.is_expanded && k != i, ..item }),
{
    collapsing_hides_what_is_below(open, shut, i, k);
    assert forall|c: int| 0 <= c < open[k].depth - 1 implies line_passes(shut, k, c)
        == line_passes(open, k, c) by {
        lemma_same_line(open, shut, i, k, c);
    }
    assert(drawn(shut, k) =~= drawn(open, k));
}

/// With every node expanded every row is visible.
pub proof fn all_visible_when_expanded(nodes: Seq<DirectoryNode>, i: int)
    requires
        forall|k: int| 0 <= k < nodes.len() ==> (#[trigger] nodes[k]).is_expanded,
        0 <= i < nodes.len(),
    ensures
        visible(nodes, i),
{
    assert forall|j: int| #[trigger] shut_over(nodes, j, i) implies nodes[i].depth
        <= nodes[j].depth by {
        assert(nodes[j].is_expanded);
    }
}

/// Whether a row is visible does not depend on whether it is expanded, nor on the rows below it.
pub proof fn visible_by_rows_above(a: Seq<DirectoryNode>, b: Seq<DirectoryNode>, i: int)
    requires
        0 <= i < a.len(),
        i < b.len(),
        forall|k: int| 0 <= k < i ==> #[trigger] a[k] == b[k],
        a[i].depth == b[i].depth,
    ensures
        visible(a, i) == visible(b, i),
{
    assert forall|j: int| shut_over(a, j, i) == #[trigger] shut_over(b, j, i) by {
        if 0 <= j < i {
            assert(a[j] == b[j]);
            assert forall|k: int| j < k < i implies a[k].depth == b[k].depth by {}
            if shut_over(a, j, i) {
                assert forall|k: int| j < k < i implies #[trigger] b[k].depth > b[j].depth by {
                    assert(a[k].depth > a[j].depth);
                }
            }
            if shut_over(b, j, i) {
                assert forall|k: int| j < k < i implies #[trigger] a[k].depth > a[j].depth by {
                    assert(b[k].depth > b[j].depth);
                }
            }
        }
    }
    if visible(a, i) {
        assert forall|j: int| #[trigger] shut_over(b, j, i) implies b[i].depth <= b[j].depth by {
            assert(shut_over(a, j, i));
        }
    }
    if visible(b, i) {
        assert forall|j: int| #[trigger] shut_over(a, j, i) implies a[i].depth <= a[j].depth by {
            assert(shut_over(b, j, i));
        }
    }
}

/// What lies under a collapsed node is not visible.
pub proof fn collapsed_hides_below(nodes: Seq<DirectoryNode>, j: int, i: int)
    requires
        0 <= j < i < nodes.len(),
        !nodes[j].is_expanded,
        forall|k: int| j < k <= i ==> #[trigger] nodes[k].depth > nodes[j].depth,
    ensures
        !visible(nodes, i),
{
    assert(shut_over(nodes, j, i));
}

} // verus!

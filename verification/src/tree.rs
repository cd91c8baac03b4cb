//! The tree of directories as a list of nodes, parents before their children.

use crate::path::DirPath;
use vstd::prelude::*;

verus! {

/// The status of a directory that is kept and is not itself of interest.
pub const NORMAL: i32 = 0;

/// The status of a directory that counts as empty.
pub const EMPTY: i32 = 1;

/// The status of a directory that was deleted.
pub const DELETED: i32 = 2;

/// The status of a directory that would count as empty but is protected.
pub const PROTECTED: i32 = 3;

/// The status of a directory that could not be deleted.
pub const FAILED: i32 = 4;

/// One directory of the tree.
#[derive(Clone, Debug)]
pub struct DirectoryNode {
    pub path: DirPath,
    pub name: String,
    pub path_str: String,
    pub depth: i32,
    pub status: i32,
    pub has_children: bool,
    pub is_expanded: bool,
    pub is_last_sibling: bool,
    pub is_hidden: bool,
    pub is_symlink: bool,
}

/// Whether the node after node `i` is deeper.
pub open spec fn opens_subtree(nodes: Seq<DirectoryNode>, i: int) -> bool {
    i + 1 < nodes.len() && nodes[i + 1].depth > nodes[i].depth
}

/// Whether node `j` comes after node `i` at the same depth, with nothing less deep between them.
pub open spec fn follows_level(nodes: Seq<DirectoryNode>, i: int, j: int) -> bool {
    &&& i < j < nodes.len()
    &&& nodes[j].depth == nodes[i].depth
    &&& forall|k: int| i < k < j ==> #[trigger] nodes[k].depth >= nodes[i].depth
}

/// Whether no node follows node `i` at its level.
pub open spec fn ends_level(nodes: Seq<DirectoryNode>, i: int) -> bool {
    forall|j: int| !follows_level(nodes, i, j)
}

/// The node with the flags that its place in the list gives it.
pub open spec fn related(nodes: Seq<DirectoryNode>, i: int) -> DirectoryNode {
    DirectoryNode {
        has_children: nodes[i].has_children || opens_subtree(nodes, i),
        is_last_sibling: ends_level(nodes, i),
        ..nodes[i]
    }
}

/// The flags of a list depend on its depths alone.
pub proof fn flags_by_depths(a: Seq<DirectoryNode>, b: Seq<DirectoryNode>, i: int)
    requires
        a.len() == b.len(),
        0 <= i < a.len(),
        forall|k: int| 0 <= k < a.len() ==> (#[trigger] a[k]).depth == (#[trigger] b[k]).depth,
    ensures
        opens_subtree(a, i) == opens_subtree(b, i),
        ends_level(a, i) == ends_level(b, i),
{
    assert forall|j: int| follows_level(a, i, j) == follows_level(b, i, j) by {
        if i < j < a.len() {
            assert(a[j].depth == b[j].depth);
            assert(a[i].depth == b[i].depth);
            assert forall|k: int| i < k < j implies a[k].depth == b[k].depth by {}
        }
    }
    if ends_level(a, i) {
        assert forall|j: int| !follows_level(b, i, j) by {
            assert(!follows_level(a, i, j));
        }
    }
    if ends_level(b, i) {
        assert forall|j: int| !follows_level(a, i, j) by {
            assert(!follows_level(b, i, j));
        }
    }
}

/// Sets the flags that say how each node connects to its neighbours.
pub fn compute_tree_relationships(nodes: &mut Vec<DirectoryNode>)
    ensures
        final(nodes)@.len() == old(nodes)@.len(),
        forall|i: int|
            0 <= i < old(nodes)@.len() ==> #[trigger] final(nodes)@[i] == related(old(nodes)@, i),
{
    let ghost start = nodes@;
    let n = nodes.len();
    let mut i: usize = 0;
    while i < n
        invariant
            n == start.len(),
            nodes@.len() == n,
            i <= n,
            forall|k: int| 0 <= k < i ==> #[trigger] nodes@[k] == related(start, k),
            forall|k: int| i <= k < n ==> #[trigger] nodes@[k] == start[k],
        decreases n - i,
    {
        let depth: i32 = nodes[i].depth;
        if i + 1 < n && nodes[i + 1].depth > depth {
            nodes[i].has_children = true;
        }
        let mut last = true;
        let mut j: usize = i + 1;
        while j < n
            invariant_except_break
                last,
            invariant
                n == start.len(),
                nodes@.len() == n,
                i < j <= n,
                depth == start[i as int].depth,
                forall|k: int| i < k < n ==> #[trigger] nodes@[k] == start[k],
                forall|k: int| i < k < j ==> #[trigger] start[k].depth > depth,
            ensures
                last == ends_level(start, i as int),
            decreases n - j,
        {
            if nodes[j].depth < depth {
                assert forall|m: int| !follows_level(start, i as int, m) by {
                    if follows_level(start, i as int, m) {
                        assert(start[j as int].depth >= depth);
                    }
                }
                break;
            }
            if nodes[j].depth == depth {
                last = false;
                assert(follows_level(start, i as int, j as int));
                break;
            }
            j += 1;
        }
        nodes[i].is_last_sibling = last;
        i += 1;
    }
}

} // verus!

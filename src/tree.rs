//! The node tree behind the structured (JSON) output.

use vstd::prelude::*;
use crate::config::{ConfigView, TraversalConfig};
use crate::filter::{effectively_empty, is_effectively_empty, shown_children, sorted_children};
use crate::snapshot::{EntryKind, Snapshot, SnapshotView};

verus! {

/// One entry of the tree. `children` is `None` for a file and for a
/// directory at the depth limit, and the sorted shown children otherwise.
#[derive(Debug)]
pub struct TreeNode {
    pub name: String,
    pub path: String,
    pub is_dir: bool,
    pub is_empty: bool,
    pub children: Option<Vec<TreeNode>>,
}

/// Whether `n` is the node that entry `d`, reached at `depth`, is built into.
pub open spec fn node_is(n: TreeNode, s: SnapshotView, d: int, depth: int, cfg: ConfigView) -> bool
    decreases s.len() - d,
    when s.wf() && 0 <= d < s.len()
{
    let e = s.entry(d);
    let is_dir = e.kind == EntryKind::Dir;
    let kids = shown_children(s, d, cfg);
    &&& n.name@ == e.name
    &&& n.path@ == e.path
    &&& n.is_dir == is_dir
    &&& n.is_empty == (is_dir && effectively_empty(s, d, cfg))
    &&& if is_dir && !cfg.depth_reached(depth) {
        match n.children {
            Some(v) => v@.len() == kids.len() && forall|i: int|
                0 <= i < v@.len() ==> d < kids[i] < s.len() && node_is(
                    #[trigger] v@[i],
                    s,
                    kids[i] as int,
                    depth + 1,
                    cfg,
                ),
            None => false,
        }
    } else {
        n.children is None
    }
}

/// Builds the node of entry `d`, reached at `depth`, with its subtree.
pub fn build_json_tree(s: &Snapshot, d: usize, depth: usize, cfg: &TraversalConfig) -> (r:
    TreeNode)
    requires
        s.wf(),
        d < s@.len(),
        depth + (s@.len() - d) <= usize::MAX,
    ensures
        node_is(r, s@, d as int, depth as int, cfg@),
    decreases s@.len() - d,
{
    let is_dir = s.entries[d].kind == EntryKind::Dir;
    let is_empty = is_dir && is_effectively_empty(s, d, cfg);
    let expand = is_dir && match cfg.max_depth {
        Some(m) => depth < m,
        None => true,
    };
    let children = if expand {
        let kids = sorted_children(s, d, cfg);
        let mut v: Vec<TreeNode> = Vec::new();
        let mut j: usize = 0;
        while j < kids.len()
            invariant
                s.wf(),
                d < s@.len(),
                depth + (s@.len() - d) <= usize::MAX,
                kids@ == shown_children(s@, d as int, cfg@),
                forall|i: int| 0 <= i < kids@.len() ==> d < #[trigger] kids@[i] < s@.len(),
                j <= kids@.len(),
                v@.len() == j,
                forall|i: int|
                    0 <= i < j ==> node_is(
                        #[trigger] v@[i],
                        s@,
                        kids@[i] as int,
                        depth + 1,
                        cfg@,
                    ),
            decreases kids@.len() - j,
        {
            let node = build_json_tree(s, kids[j], depth + 1, cfg);
            v.push(node);
            j = j + 1;
        }
        Some(v)
    } else {
        None
    };
    TreeNode {
        name: s.entries[d].name.clone(),
        path: s.entries[d].path.clone(),
        is_dir,
        is_empty,
        children,
    }
}

/// The node tree of the whole snapshot.
pub fn json_tree(s: &Snapshot, cfg: &TraversalConfig) -> (r: TreeNode)
    requires
        s.wf(),
    ensures
        node_is(r, s@, 0, 0, cfg@),
{
    let len = s.entries.len();
    assert(s@.len() == len);
    build_json_tree(s, 0, 0, cfg)
}

} // verus!

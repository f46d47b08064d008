//! Properties that relate the renderers and the classifier to each other.

use vstd::prelude::*;
use vstd::utf8::encode_utf8_decode_utf8;
use crate::config::{ConfigView, TraversalConfig};
use crate::filter::{
    bytes_before, effectively_empty, has_shown_file_from, insert_by_path, path_before, path_key,
    shown, shown_children, sorted_shown_upto,
};
use crate::snapshot::{EntryKind, Snapshot, SnapshotView};
use crate::text::{LineView, continuation, last_drawn, lines_from, tree_lines, tree_text};
use crate::tree::{TreeNode, node_is};

verus! {

/// The (name, path) of each line of `ls` drawn directly under a prefix of
/// `k` characters, in order.
pub open spec fn direct_entries(ls: Seq<LineView>, k: nat) -> Seq<(Seq<char>, Seq<char>)>
    decreases ls.len(),
{
    if ls.len() == 0 {
        seq![]
    } else {
        (if ls[0].prefix.len() == k {
            seq![(ls[0].name, ls[0].path)]
        } else {
            seq![]
        }) + direct_entries(ls.drop_first(), k)
    }
}

/// The (name, path) of each node, in order.
pub open spec fn node_entries(v: Seq<TreeNode>) -> Seq<(Seq<char>, Seq<char>)> {
    v.map_values(|n: TreeNode| (n.name@, n.path@))
}

/// The text leaves out no directory that the tree lists: either no file
/// pattern is set, or no shown directory is effectively empty.
pub open spec fn text_hides_nothing(s: SnapshotView, cfg: ConfigView) -> bool {
    cfg.pattern is None || forall|d: int, k: int|
        0 <= d < s.len() && 0 <= k < s.n_children(d) && shown(s, d, #[trigger] s.child(d, k), cfg)
            && s.entry(s.child(d, k)).kind == EntryKind::Dir ==> !effectively_empty(
            s,
            s.child(d, k),
            cfg,
        )
}

proof fn lemma_insert_members(s: SnapshotView, l: Seq<usize>, c: usize)
    ensures
        forall|i: int|
            0 <= i < insert_by_path(s, l, c).len() ==> #[trigger] insert_by_path(s, l, c)[i] == c
                || l.contains(insert_by_path(s, l, c)[i]),
    decreases l.len(),
{
    if l.len() > 0 && !path_before(s, c as int, l[0] as int) {
        let t = l.drop_first();
        lemma_insert_members(s, t, c);
        let r = insert_by_path(s, l, c);
        assert forall|i: int| 0 <= i < r.len() implies #[trigger] r[i] == c || l.contains(r[i]) by {
            if i == 0 {
                assert(l[0] == r[0]);
            } else {
                assert(r[i] == insert_by_path(s, t, c)[i - 1]);
                if t.contains(r[i]) {
                    let m = choose|m: int| 0 <= m < t.len() && t[m] == r[i];
                    assert(l[m + 1] == r[i]);
                }
            }
        }
    } else if l.len() > 0 {
        let r = insert_by_path(s, l, c);
        assert forall|i: int| 0 <= i < r.len() implies #[trigger] r[i] == c || l.contains(r[i]) by {
            if i > 0 {
                assert(l[i - 1] == r[i]);
            }
        }
    }
}

/// `x` is a shown child of `d` among its first `n` children.
pub open spec fn shown_child_among(s: SnapshotView, d: int, n: int, cfg: ConfigView, x: usize) -> bool {
    exists|k: int| 0 <= k < n && x == s.child(d, k) && shown(s, d, s.child(d, k), cfg)
}

/// Every entry of the sorted list of the first `n` children of `d` is one of
/// them, and shown.
pub proof fn lemma_shown_children_are_children(s: SnapshotView, d: int, n: int, cfg: ConfigView)
    requires
        0 <= d < s.len(),
        n <= s.n_children(d),
    ensures
        forall|i: int|
            0 <= i < sorted_shown_upto(s, d, n, cfg).len() ==> shown_child_among(
                s,
                d,
                n,
                cfg,
                #[trigger] sorted_shown_upto(s, d, n, cfg)[i],
            ),
    decreases n,
{
    if n > 0 {
        lemma_shown_children_are_children(s, d, n - 1, cfg);
        let prev = sorted_shown_upto(s, d, n - 1, cfg);
        let c = s.entries[d].children[n - 1];
        if shown(s, d, c as int, cfg) {
            lemma_insert_members(s, prev, c);
            let r = sorted_shown_upto(s, d, n, cfg);
            assert forall|i: int| 0 <= i < r.len() implies shown_child_among(s, d, n, cfg, #[trigger] r[i]) by {
                if r[i] == c {
                    assert(r[i] == s.child(d, n - 1));
                } else {
                    assert(prev.contains(r[i]));
                    let m = choose|m: int| 0 <= m < prev.len() && prev[m] == r[i];
                    assert(shown_child_among(s, d, n - 1, cfg, prev[m]));
                    let k = choose|k: int|
                        0 <= k < n - 1 && prev[m] == s.child(d, k) && shown(s, d, s.child(d, k), cfg);
                    assert(0 <= k < n && r[i] == s.child(d, k));
                }
            }
        } else {
            let r = sorted_shown_upto(s, d, n, cfg);
            assert(r == prev);
            assert forall|i: int| 0 <= i < r.len() implies shown_child_among(s, d, n, cfg, #[trigger] r[i]) by {
                assert(shown_child_among(s, d, n - 1, cfg, prev[i]));
                let k = choose|k: int|
                    0 <= k < n - 1 && prev[i] == s.child(d, k) && shown(s, d, s.child(d, k), cfg);
                assert(0 <= k < n && r[i] == s.child(d, k));
            }
        }
    }
}

/// Under `text_hides_nothing`, no shown child of `d` is hidden from the text.
proof fn lemma_kid_not_hidden(s: SnapshotView, d: int, j: int, cfg: ConfigView)
    requires
        s.wf(),
        0 <= d < s.len(),
        0 <= j < shown_children(s, d, cfg).len(),
        text_hides_nothing(s, cfg),
    ensures
        !(s.entry(shown_children(s, d, cfg)[j] as int).kind == EntryKind::Dir && effectively_empty(
            s,
            shown_children(s, d, cfg)[j] as int,
            cfg,
        ) && cfg.pattern is Some),
{
    lemma_shown_children_are_children(s, d, s.n_children(d), cfg);
    let c = shown_children(s, d, cfg)[j];
    assert(shown_child_among(s, d, s.n_children(d), cfg, c));
    let k = choose|k: int|
        0 <= k < s.n_children(d) && c == s.child(d, k) && shown(s, d, s.child(d, k), cfg);
    assert(c == s.child(d, k));
}

proof fn lemma_direct_concat(a: Seq<LineView>, b: Seq<LineView>, k: nat)
    ensures
        direct_entries(a + b, k) == direct_entries(a, k) + direct_entries(b, k),
    decreases a.len(),
{
    if a.len() == 0 {
        assert(a + b =~= b);
    } else {
        assert((a + b).drop_first() =~= a.drop_first() + b);
        lemma_direct_concat(a.drop_first(), b, k);
    }
}

proof fn lemma_direct_none(ls: Seq<LineView>, k: nat)
    requires
        forall|i: int| 0 <= i < ls.len() ==> #[trigger] ls[i].prefix.len() > k,
    ensures
        direct_entries(ls, k) == Seq::<(Seq<char>, Seq<char>)>::empty(),
    decreases ls.len(),
{
    if ls.len() > 0 {
        assert(ls[0].prefix.len() > k);
        assert forall|i: int| 0 <= i < ls.drop_first().len() implies #[trigger] ls.drop_first()[
            i
        ].prefix.len() > k by {
            assert(ls.drop_first()[i] == ls[i + 1]);
        }
        lemma_direct_none(ls.drop_first(), k);
    }
}

proof fn lemma_continuation_len(last: bool)
    ensures
        continuation(last).len() == 3,
{
    reveal_strlit("   ");
    reveal_strlit("\u{2502}  ");
}

/// Every line drawn under a directory carries at least the directory's prefix.
proof fn lemma_prefix_lengths(
    s: SnapshotView,
    d: int,
    j: int,
    prefix: Seq<char>,
    depth: int,
    cfg: ConfigView,
)
    requires
        s.wf(),
        0 <= d < s.len(),
        0 <= j,
    ensures
        forall|i: int|
            0 <= i < lines_from(s, d, j, prefix, depth, cfg).len() ==> #[trigger] lines_from(
                s,
                d,
                j,
                prefix,
                depth,
                cfg,
            )[i].prefix.len() >= prefix.len(),
    decreases s.len() - d, shown_children(s, d, cfg).len() - j,
{
    let kids = shown_children(s, d, cfg);
    if !cfg.depth_reached(depth) && j < kids.len() {
        let c = kids[j] as int;
        let last = last_drawn(s, d, j, cfg);
        let is_dir = s.entry(c).kind == EntryKind::Dir;
        let empty = is_dir && effectively_empty(s, c, cfg);
        let ls = lines_from(s, d, j, prefix, depth, cfg);
        let rest = lines_from(s, d, j + 1, prefix, depth, cfg);
        lemma_prefix_lengths(s, d, j + 1, prefix, depth, cfg);
        if !(empty && cfg.pattern is Some) {
            let line = LineView {
                prefix,
                last,
                is_dir,
                empty,
                name: s.entry(c).name,
                path: s.entry(c).path,
            };
            let below = if is_dir && d < c < s.len() {
                lines_from(s, c, 0, prefix + continuation(last), depth + 1, cfg)
            } else {
                seq![]
            };
            if is_dir && d < c < s.len() {
                lemma_prefix_lengths(s, c, 0, prefix + continuation(last), depth + 1, cfg);
                lemma_continuation_len(last);
            }
            assert(ls == seq![line] + below + rest);
            assert forall|i: int| 0 <= i < ls.len() implies #[trigger] ls[i].prefix.len()
                >= prefix.len() by {
                if i == 0 {
                } else if i < 1 + below.len() {
                    assert(ls[i] == below[i - 1]);
                } else {
                    assert(ls[i] == rest[i - 1 - below.len()]);
                }
            }
        }
    }
}

/// When the text hides no directory, the entries drawn directly under a directory `d`
/// in the text are, in order, the children of its node in the tree.
/// `v[i]` is the node built for the `i`-th shown child of `d`.
pub open spec fn child_built(s: SnapshotView, d: int, depth: int, cfg: ConfigView, v: Seq<TreeNode>, i: int) -> bool {
    d < shown_children(s, d, cfg)[i] < s.len() && node_is(
        v[i],
        s,
        shown_children(s, d, cfg)[i] as int,
        depth + 1,
        cfg,
    )
}

/// `v` holds the nodes built for the shown children of `d`.
pub open spec fn children_built(s: SnapshotView, d: int, depth: int, cfg: ConfigView, v: Seq<
    TreeNode,
>) -> bool {
    forall|i: int| 0 <= i < v.len() ==> #[trigger] child_built(s, d, depth, cfg, v, i)
}

proof fn lemma_same_children_from(
    s: SnapshotView,
    d: int,
    j: int,
    prefix: Seq<char>,
    depth: int,
    cfg: ConfigView,
    v: Seq<TreeNode>,
)
    requires
        !cfg.depth_reached(depth),
        s.wf(),
        0 <= d < s.len(),
        0 <= j <= v.len(),
        text_hides_nothing(s, cfg),
        v.len() == shown_children(s, d, cfg).len(),
        children_built(s, d, depth, cfg, v),
    ensures
        direct_entries(lines_from(s, d, j, prefix, depth, cfg), prefix.len()) == node_entries(
            v.subrange(j, v.len() as int),
        ),
    decreases v.len() - j,
{
    let kids = shown_children(s, d, cfg);
    if j == v.len() {
        assert(node_entries(v.subrange(j, v.len() as int)) =~= seq![]);
    } else {
        let c = kids[j] as int;
        let last = last_drawn(s, d, j, cfg);
        let is_dir = s.entry(c).kind == EntryKind::Dir;
        let rest = lines_from(s, d, j + 1, prefix, depth, cfg);
        let below = if is_dir && d < c < s.len() {
            lines_from(s, c, 0, prefix + continuation(last), depth + 1, cfg)
        } else {
            seq![]
        };
        lemma_kid_not_hidden(s, d, j, cfg);
        let line = LineView {
            prefix,
            last,
            is_dir,
            empty: is_dir && effectively_empty(s, c, cfg),
            name: s.entry(c).name,
            path: s.entry(c).path,
        };
        assert(lines_from(s, d, j, prefix, depth, cfg) == seq![line] + below + rest);
        if is_dir && d < c < s.len() {
            lemma_prefix_lengths(s, c, 0, prefix + continuation(last), depth + 1, cfg);
            lemma_continuation_len(last);
        }
        lemma_direct_none(below, prefix.len());
        lemma_direct_concat(seq![line] + below, rest, prefix.len());
        lemma_direct_concat(seq![line], below, prefix.len());
        assert(direct_entries(seq![line], prefix.len()) =~= seq![(line.name, line.path)]) by {
            assert(seq![line].drop_first() =~= Seq::<LineView>::empty());
            assert(direct_entries(Seq::<LineView>::empty(), prefix.len()) =~= seq![]);
        }
        lemma_same_children_from(s, d, j + 1, prefix, depth, cfg, v);
        assert(child_built(s, d, depth, cfg, v, j));
        assert(node_entries(v.subrange(j, v.len() as int)) =~= seq![(line.name, line.path)]
            + node_entries(v.subrange(j + 1, v.len() as int)));
    }
}

/// When the text hides no directory (see `text_hides_nothing`), it lists
/// directly under an expanded directory
/// exactly the children of that directory's node in the tree, by name and
/// path and in the same order.
pub proof fn lemma_text_and_tree_agree(
    s: SnapshotView,
    cfg: ConfigView,
    d: int,
    depth: int,
    prefix: Seq<char>,
    n: TreeNode,
)
    requires
        s.wf(),
        0 <= d < s.len(),
        text_hides_nothing(s, cfg),
        node_is(n, s, d, depth, cfg),
        n.children is Some,
    ensures
        direct_entries(lines_from(s, d, 0, prefix, depth, cfg), prefix.len()) == node_entries(
            n.children->0@,
        ),
{
    let v = n.children->0@;
    assert(s.entry(d).kind == EntryKind::Dir && !cfg.depth_reached(depth));
    match n.children {
        Some(w) => {
            assert(w@ == v);
            assert forall|i: int| 0 <= i < v.len() implies #[trigger] child_built(s, d, depth, cfg, v, i) by {
                assert(w@[i] == v[i]);
            }
            assert(children_built(s, d, depth, cfg, v));
        },
        None => {},
    }
    lemma_same_children_from(s, d, 0, prefix, depth, cfg, v);
    assert(v.subrange(0, v.len() as int) =~= v);
}

/// The same holds of the whole outputs: the top-level lines of the text are
/// the children of the root node, whenever the root is expanded.
pub proof fn lemma_text_and_tree_agree_at_root(s: SnapshotView, cfg: ConfigView, n: TreeNode)
    requires
        s.wf(),
        text_hides_nothing(s, cfg),
        node_is(n, s, 0, 0, cfg),
        n.children is Some,
    ensures
        direct_entries(tree_lines(s, cfg), 0) == node_entries(n.children->0@),
{
    lemma_text_and_tree_agree(s, cfg, 0, 0, seq![], n);
}

/// Rendering is repeatable: two snapshots with the same contents, under two
/// configurations with the same settings (each compiled on its own), give
/// the same lines and the same text.
pub proof fn lemma_render_repeatable(
    s1: Snapshot,
    s2: Snapshot,
    c1: TraversalConfig,
    c2: TraversalConfig,
    name: Seq<char>,
)
    requires
        s1@ == s2@,
        c1@ == c2@,
    ensures
        tree_lines(s1@, c1@) == tree_lines(s2@, c2@),
        tree_text(s1@, c1@, name) == tree_text(s2@, c2@, name),
{
}

proof fn lemma_shown_file_from(s: SnapshotView, d: int, k: int, k0: int, cfg: ConfigView)
    requires
        s.wf(),
        0 <= d < s.len(),
        0 <= k <= k0 < s.n_children(d),
        shown(s, d, s.child(d, k0), cfg),
        s.entry(s.child(d, k0)).kind == EntryKind::File || (s.entry(s.child(d, k0)).kind
            == EntryKind::Dir && !effectively_empty(s, s.child(d, k0), cfg)),
    ensures
        has_shown_file_from(s, d, k, cfg),
    decreases k0 - k,
{
    if k < k0 {
        lemma_shown_file_from(s, d, k + 1, k0, cfg);
    }
}

/// A shown regular file makes every directory above it, along shown
/// directories, non-empty: the directory that lists it directly, and any
/// directory that lists a non-empty directory.
pub proof fn lemma_file_makes_parent_non_empty(s: SnapshotView, d: int, k: int, cfg: ConfigView)
    requires
        s.wf(),
        0 <= d < s.len(),
        0 <= k < s.n_children(d),
        shown(s, d, s.child(d, k), cfg),
        s.entry(s.child(d, k)).kind == EntryKind::File || (s.entry(s.child(d, k)).kind
            == EntryKind::Dir && !effectively_empty(s, s.child(d, k), cfg)),
    ensures
        !effectively_empty(s, d, cfg),
{
    lemma_shown_file_from(s, d, 0, k, cfg);
}

proof fn lemma_only_empty_dirs_from(s: SnapshotView, d: int, k: int, cfg: ConfigView)
    requires
        s.wf(),
        0 <= d < s.len(),
        0 <= k,
        forall|i: int|
            0 <= i < s.n_children(d) && shown(s, d, #[trigger] s.child(d, i), cfg) ==> s.entry(
                s.child(d, i),
            ).kind == EntryKind::Dir && effectively_empty(s, s.child(d, i), cfg),
    ensures
        !has_shown_file_from(s, d, k, cfg),
    decreases s.n_children(d) - k,
{
    if k < s.n_children(d) {
        lemma_only_empty_dirs_from(s, d, k + 1, cfg);
    }
}

/// A directory whose shown children are all effectively empty directories
/// (for instance one empty subdirectory) is itself effectively empty.
pub proof fn lemma_only_empty_dirs_is_empty(s: SnapshotView, d: int, cfg: ConfigView)
    requires
        s.wf(),
        0 <= d < s.len(),
        forall|i: int|
            0 <= i < s.n_children(d) && shown(s, d, #[trigger] s.child(d, i), cfg) ==> s.entry(
                s.child(d, i),
            ).kind == EntryKind::Dir && effectively_empty(s, s.child(d, i), cfg),
    ensures
        effectively_empty(s, d, cfg),
{
    lemma_only_empty_dirs_from(s, d, 0, cfg);
}

/// The (path, is-directory) pairs of the nodes `v` and of their descendants
/// in preorder, reading at most `fuel` levels below `v`.
pub open spec fn nodes_pairs(v: Seq<TreeNode>, fuel: nat) -> Seq<(Seq<char>, bool)>
    decreases fuel, v.len(),
{
    if v.len() == 0 {
        seq![]
    } else {
        let n = v[0];
        let below = if fuel == 0 {
            seq![]
        } else {
            match n.children {
                Some(w) => nodes_pairs(w@, (fuel - 1) as nat),
                None => seq![],
            }
        };
        seq![(n.path@, n.is_dir)] + below + nodes_pairs(v.drop_first(), fuel)
    }
}

/// The (path, is-directory) pairs of the lines, in order.
pub open spec fn line_pairs(ls: Seq<LineView>) -> Seq<(Seq<char>, bool)> {
    ls.map_values(|l: LineView| (l.path, l.is_dir))
}

proof fn lemma_pairs_from(
    s: SnapshotView,
    d: int,
    j: int,
    prefix: Seq<char>,
    depth: int,
    cfg: ConfigView,
    v: Seq<TreeNode>,
    fuel: nat,
)
    requires
        !cfg.depth_reached(depth),
        s.wf(),
        0 <= d < s.len(),
        0 <= j <= v.len(),
        text_hides_nothing(s, cfg),
        v.len() == shown_children(s, d, cfg).len(),
        children_built(s, d, depth, cfg, v),
        fuel >= s.len() - d,
    ensures
        line_pairs(lines_from(s, d, j, prefix, depth, cfg)) == nodes_pairs(
            v.subrange(j, v.len() as int),
            fuel,
        ),
    decreases s.len() - d, v.len() - j,
{
    let kids = shown_children(s, d, cfg);
    let sub = v.subrange(j, v.len() as int);
    if j == v.len() {
        assert(line_pairs(lines_from(s, d, j, prefix, depth, cfg)) =~= seq![]);
        assert(sub.len() == 0);
    } else {
        let c = kids[j] as int;
        let last = last_drawn(s, d, j, cfg);
        let is_dir = s.entry(c).kind == EntryKind::Dir;
        let expand = is_dir && d < c < s.len() && !cfg.depth_reached(depth + 1);
        let rest = lines_from(s, d, j + 1, prefix, depth, cfg);
        let below = if is_dir && d < c < s.len() {
            lines_from(s, c, 0, prefix + continuation(last), depth + 1, cfg)
        } else {
            seq![]
        };
        lemma_kid_not_hidden(s, d, j, cfg);
        let line = LineView {
            prefix,
            last,
            is_dir,
            empty: is_dir && effectively_empty(s, c, cfg),
            name: s.entry(c).name,
            path: s.entry(c).path,
        };
        assert(lines_from(s, d, j, prefix, depth, cfg) == seq![line] + below + rest);
        assert(line_pairs(seq![line] + below + rest) =~= seq![(line.path, line.is_dir)]
            + line_pairs(below) + line_pairs(rest));
        assert(child_built(s, d, depth, cfg, v, j));
        let n = v[j];
        assert(sub[0] == n);
        assert(sub.drop_first() =~= v.subrange(j + 1, v.len() as int));
        lemma_pairs_from(s, d, j + 1, prefix, depth, cfg, v, fuel);
        let inner = match n.children {
            Some(w) => nodes_pairs(w@, (fuel - 1) as nat),
            None => seq![],
        };
        if expand {
            assert(node_is(n, s, c, depth + 1, cfg));
            match n.children {
                Some(w) => {
                    assert forall|i: int| 0 <= i < w@.len() implies #[trigger] child_built(
                        s,
                        c,
                        depth + 1,
                        cfg,
                        w@,
                        i,
                    ) by {
                        assert(w@[i] == n.children->0@[i]);
                    }
                    lemma_pairs_from(
                        s,
                        c,
                        0,
                        prefix + continuation(last),
                        depth + 1,
                        cfg,
                        w@,
                        (fuel - 1) as nat,
                    );
                    assert(w@.subrange(0, w@.len() as int) =~= w@);
                },
                None => {},
            }
        } else {
            assert(n.children is None);
            assert(line_pairs(below) =~= seq![]);
        }
        assert(nodes_pairs(sub, fuel) == seq![(n.path@, n.is_dir)] + inner + nodes_pairs(
            sub.drop_first(),
            fuel,
        ));
    }
}

/// When the text hides no directory, walking the node tree in preorder gives the same
/// (path, is-directory) pairs, in the same order, as the lines of the text,
/// whenever the root is expanded.
pub proof fn lemma_tree_pairs_match_text(s: SnapshotView, cfg: ConfigView, n: TreeNode)
    requires
        s.wf(),
        text_hides_nothing(s, cfg),
        node_is(n, s, 0, 0, cfg),
        n.children is Some,
    ensures
        line_pairs(tree_lines(s, cfg)) == nodes_pairs(n.children->0@, s.len() as nat),
{
    let v = n.children->0@;
    assert(s.entry(0).kind == EntryKind::Dir && !cfg.depth_reached(0));
    match n.children {
        Some(w) => {
            assert(w@ == v);
            assert forall|i: int| 0 <= i < v.len() implies #[trigger] child_built(
                s,
                0,
                0,
                cfg,
                v,
                i,
            ) by {
                assert(w@[i] == v[i]);
            }
        },
        None => {},
    }
    lemma_pairs_from(s, 0, 0, seq![], 0, cfg, v, s.len() as nat);
    assert(v.subrange(0, v.len() as int) =~= v);
}

/// No entry of `l` has a path sorting strictly before an earlier one's.
pub open spec fn sorted_by_path(s: SnapshotView, l: Seq<usize>) -> bool {
    forall|i: int, j: int|
        0 <= i < j < l.len() ==> !path_before(s, #[trigger] l[j] as int, #[trigger] l[i] as int)
}

proof fn lemma_bytes_before_transitive(a: Seq<u8>, b: Seq<u8>, c: Seq<u8>, i: int)
    requires
        0 <= i,
        bytes_before(a, b, i),
        bytes_before(b, c, i),
    ensures
        bytes_before(a, c, i),
    decreases a.len() - i,
{
    if i < a.len() && i < b.len() && i < c.len() && a[i] == b[i] && b[i] == c[i] {
        lemma_bytes_before_transitive(a, b, c, i + 1);
    }
}

proof fn lemma_insert_sorted(s: SnapshotView, l: Seq<usize>, c: usize)
    requires
        sorted_by_path(s, l),
    ensures
        sorted_by_path(s, insert_by_path(s, l, c)),
    decreases l.len(),
{
    let r = insert_by_path(s, l, c);
    if l.len() == 0 {
    } else if path_before(s, c as int, l[0] as int) {
        assert forall|i: int, j: int| 0 <= i < j < r.len() implies !path_before(
            s,
            #[trigger] r[j] as int,
            #[trigger] r[i] as int,
        ) by {
            if i == 0 {
                assert(r[j] == l[j - 1]);
                if path_before(s, l[j - 1] as int, c as int) {
                    lemma_bytes_before_transitive(
                        path_key(s, l[j - 1] as int),
                        path_key(s, c as int),
                        path_key(s, l[0] as int),
                        0,
                    );
                    if j - 1 > 0 {
                        assert(!path_before(s, l[j - 1] as int, l[0] as int));
                    }
                    assert(path_before(s, l[0] as int, l[0] as int));
                    lemma_bytes_irreflexive(path_key(s, l[0] as int), 0);
                }
            } else {
                assert(r[i] == l[i - 1] && r[j] == l[j - 1]);
            }
        }
    } else {
        let t = l.drop_first();
        assert forall|i: int, j: int| 0 <= i < j < t.len() implies !path_before(
            s,
            #[trigger] t[j] as int,
            #[trigger] t[i] as int,
        ) by {
            assert(t[i] == l[i + 1] && t[j] == l[j + 1]);
        }
        lemma_insert_sorted(s, t, c);
        lemma_insert_members(s, t, c);
        let rt = insert_by_path(s, t, c);
        assert forall|i: int, j: int| 0 <= i < j < r.len() implies !path_before(
            s,
            #[trigger] r[j] as int,
            #[trigger] r[i] as int,
        ) by {
            if i == 0 {
                assert(r[0] == l[0]);
                assert(r[j] == rt[j - 1]);
                if rt[j - 1] != c {
                    assert(t.contains(rt[j - 1]));
                    let m = choose|m: int| 0 <= m < t.len() && t[m] == rt[j - 1];
                    assert(t[m] == l[m + 1]);
                }
            } else {
                assert(r[i] == rt[i - 1] && r[j] == rt[j - 1]);
            }
        }
    }
}

proof fn lemma_bytes_irreflexive(a: Seq<u8>, i: int)
    requires
        0 <= i,
    ensures
        !bytes_before(a, a, i),
    decreases a.len() - i,
{
    if i < a.len() {
        lemma_bytes_irreflexive(a, i + 1);
    }
}

proof fn lemma_sorted_upto(s: SnapshotView, d: int, n: int, cfg: ConfigView)
    ensures
        sorted_by_path(s, sorted_shown_upto(s, d, n, cfg)),
    decreases n,
{
    if n > 0 {
        lemma_sorted_upto(s, d, n - 1, cfg);
        let c = s.entries[d].children[n - 1];
        lemma_insert_sorted(s, sorted_shown_upto(s, d, n - 1, cfg), c);
    }
}

/// The children of a directory are listed in ascending order of their
/// paths, byte by byte.
pub proof fn lemma_children_sorted(s: SnapshotView, d: int, cfg: ConfigView)
    ensures
        sorted_by_path(s, shown_children(s, d, cfg)),
{
    lemma_sorted_upto(s, d, s.n_children(d), cfg);
}

proof fn lemma_bytes_total(a: Seq<u8>, b: Seq<u8>, i: int)
    requires
        0 <= i <= a.len(),
        i <= b.len(),
        !bytes_before(a, b, i),
        !bytes_before(b, a, i),
    ensures
        a.subrange(i, a.len() as int) == b.subrange(i, b.len() as int),
    decreases a.len() - i,
{
    if i < a.len() && i < b.len() {
        lemma_bytes_total(a, b, i + 1);
        assert(a.subrange(i, a.len() as int) =~= seq![a[i]] + a.subrange(i + 1, a.len() as int));
        assert(b.subrange(i, b.len() as int) =~= seq![b[i]] + b.subrange(i + 1, b.len() as int));
    } else {
        assert(a.subrange(i, a.len() as int) =~= b.subrange(i, b.len() as int));
    }
}

proof fn lemma_insert_no_duplicates(s: SnapshotView, l: Seq<usize>, c: usize)
    requires
        l.no_duplicates(),
        !l.contains(c),
    ensures
        insert_by_path(s, l, c).no_duplicates(),
    decreases l.len(),
{
    if l.len() > 0 && !path_before(s, c as int, l[0] as int) {
        let t = l.drop_first();
        assert(!t.contains(c)) by {
            if t.contains(c) {
                let m = choose|m: int| 0 <= m < t.len() && t[m] == c;
                assert(l[m + 1] == c);
            }
        }
        lemma_insert_no_duplicates(s, t, c);
        lemma_insert_members(s, t, c);
        let rt = insert_by_path(s, t, c);
        let r = insert_by_path(s, l, c);
        assert forall|i: int, j: int| 0 <= i < j < r.len() implies r[i] != r[j] by {
            if i == 0 {
                assert(r[j] == rt[j - 1]);
                if rt[j - 1] != c {
                    let m = choose|m: int| 0 <= m < t.len() && t[m] == rt[j - 1];
                    assert(l[m + 1] == rt[j - 1]);
                } else {
                    assert(l.contains(l[0]));
                }
            } else {
                assert(r[i] == rt[i - 1] && r[j] == rt[j - 1]);
            }
        }
    } else if l.len() > 0 {
        let r = insert_by_path(s, l, c);
        assert forall|i: int, j: int| 0 <= i < j < r.len() implies r[i] != r[j] by {
            if i == 0 {
                assert(r[j] == l[j - 1]);
            } else {
                assert(r[i] == l[i - 1] && r[j] == l[j - 1]);
            }
        }
    }
}

proof fn lemma_sorted_no_duplicates(s: SnapshotView, d: int, n: int, cfg: ConfigView)
    requires
        s.wf(),
        0 <= d < s.len(),
        n <= s.n_children(d),
    ensures
        sorted_shown_upto(s, d, n, cfg).no_duplicates(),
    decreases n,
{
    if n > 0 {
        lemma_sorted_no_duplicates(s, d, n - 1, cfg);
        let prev = sorted_shown_upto(s, d, n - 1, cfg);
        let c = s.entries[d].children[n - 1];
        if shown(s, d, c as int, cfg) {
            lemma_shown_children_are_children(s, d, n - 1, cfg);
            assert(!prev.contains(c)) by {
                if prev.contains(c) {
                    let m = choose|m: int| 0 <= m < prev.len() && prev[m] == c;
                    assert(shown_child_among(s, d, n - 1, cfg, prev[m]));
                    let k = choose|k: int|
                        0 <= k < n - 1 && prev[m] == s.child(d, k) && shown(s, d, s.child(d, k), cfg);
                    assert(s.entry(s.child(d, k)).path != s.entry(s.child(d, n - 1)).path);
                }
            }
            lemma_insert_no_duplicates(s, prev, c);
        }
    }
}

/// The children of a directory are listed in strictly ascending order of
/// their paths, byte by byte.
pub proof fn lemma_children_strictly_sorted(s: SnapshotView, d: int, cfg: ConfigView)
    requires
        s.wf(),
        0 <= d < s.len(),
    ensures
        forall|i: int, j: int|
            0 <= i < j < shown_children(s, d, cfg).len() ==> path_before(
                s,
                #[trigger] shown_children(s, d, cfg)[i] as int,
                #[trigger] shown_children(s, d, cfg)[j] as int,
            ),
{
    let kids = shown_children(s, d, cfg);
    lemma_children_sorted(s, d, cfg);
    lemma_sorted_no_duplicates(s, d, s.n_children(d), cfg);
    lemma_shown_children_are_children(s, d, s.n_children(d), cfg);
    assert forall|i: int, j: int| 0 <= i < j < kids.len() implies path_before(
        s,
        #[trigger] kids[i] as int,
        #[trigger] kids[j] as int,
    ) by {
        assert(!path_before(s, kids[j] as int, kids[i] as int));
        if !path_before(s, kids[i] as int, kids[j] as int) {
            let a = path_key(s, kids[i] as int);
            let b = path_key(s, kids[j] as int);
            lemma_bytes_total(a, b, 0);
            assert(a =~= a.subrange(0, a.len() as int));
            assert(b =~= b.subrange(0, b.len() as int));
            encode_utf8_decode_utf8(s.entry(kids[i] as int).path);
            encode_utf8_decode_utf8(s.entry(kids[j] as int).path);
            assert(shown_child_among(s, d, s.n_children(d), cfg, kids[i]));
            assert(shown_child_among(s, d, s.n_children(d), cfg, kids[j]));
            let k1 = choose|k: int|
                0 <= k < s.n_children(d) && kids[i] == s.child(d, k) && shown(s, d, s.child(d, k), cfg);
            let k2 = choose|k: int|
                0 <= k < s.n_children(d) && kids[j] == s.child(d, k) && shown(s, d, s.child(d, k), cfg);
            assert(kids[i] != kids[j]);
            if k1 < k2 {
                assert(s.entry(s.child(d, k1)).path != s.entry(s.child(d, k2)).path);
            } else {
                assert(s.entry(s.child(d, k2)).path != s.entry(s.child(d, k1)).path);
            }
        }
    }
}

proof fn lemma_insert_keeps(s: SnapshotView, l: Seq<usize>, c: usize)
    ensures
        insert_by_path(s, l, c).contains(c),
        forall|x: usize| l.contains(x) ==> #[trigger] insert_by_path(s, l, c).contains(x),
    decreases l.len(),
{
    let r = insert_by_path(s, l, c);
    if l.len() == 0 {
        assert(r[0] == c);
    } else if path_before(s, c as int, l[0] as int) {
        assert(r[0] == c);
        assert forall|x: usize| l.contains(x) implies #[trigger] r.contains(x) by {
            let m = choose|m: int| 0 <= m < l.len() && l[m] == x;
            assert(r[m + 1] == x);
        }
    } else {
        let t = l.drop_first();
        lemma_insert_keeps(s, t, c);
        let rt = insert_by_path(s, t, c);
        assert(r == seq![l[0]] + rt);
        let m0 = choose|m: int| 0 <= m < rt.len() && rt[m] == c;
        assert(r[m0 + 1] == c);
        assert forall|x: usize| l.contains(x) implies #[trigger] r.contains(x) by {
            let m = choose|m: int| 0 <= m < l.len() && l[m] == x;
            if m == 0 {
                assert(r[0] == x);
            } else {
                assert(t[m - 1] == x);
                assert(t.contains(x));
                assert(rt.contains(x));
                let q = choose|q: int| 0 <= q < rt.len() && rt[q] == x;
                assert(r[q + 1] == x);
            }
        }
    }
}

proof fn lemma_sorted_complete(s: SnapshotView, d: int, n: int, cfg: ConfigView)
    requires
        0 <= n,
    ensures
        forall|k: int|
            0 <= k < n && shown(s, d, s.child(d, k), cfg) ==> sorted_shown_upto(s, d, n, cfg).contains(
                #[trigger] s.entries[d].children[k],
            ),
    decreases n,
{
    if n > 0 {
        lemma_sorted_complete(s, d, n - 1, cfg);
        let prev = sorted_shown_upto(s, d, n - 1, cfg);
        let c = s.entries[d].children[n - 1];
        if shown(s, d, c as int, cfg) {
            lemma_insert_keeps(s, prev, c);
        }
    }
}

/// The listed children of a directory are exactly its shown children, each
/// once, in strictly ascending order of their paths.
pub proof fn lemma_children_listing(s: SnapshotView, d: int, cfg: ConfigView)
    requires
        s.wf(),
        0 <= d < s.len(),
    ensures
        shown_children(s, d, cfg).no_duplicates(),
        forall|i: int|
            0 <= i < shown_children(s, d, cfg).len() ==> shown_child_among(
                s,
                d,
                s.n_children(d),
                cfg,
                #[trigger] shown_children(s, d, cfg)[i],
            ),
        forall|k: int|
            0 <= k < s.n_children(d) && shown(s, d, s.child(d, k), cfg) ==> shown_children(
                s,
                d,
                cfg,
            ).contains(#[trigger] s.entries[d].children[k]),
        forall|i: int, j: int|
            0 <= i < j < shown_children(s, d, cfg).len() ==> path_before(
                s,
                #[trigger] shown_children(s, d, cfg)[i] as int,
                #[trigger] shown_children(s, d, cfg)[j] as int,
            ),
{
    lemma_sorted_no_duplicates(s, d, s.n_children(d), cfg);
    lemma_shown_children_are_children(s, d, s.n_children(d), cfg);
    lemma_sorted_complete(s, d, s.n_children(d), cfg);
    lemma_children_strictly_sorted(s, d, cfg);
}

} // verus!

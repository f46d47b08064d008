//! Which entries of a directory are shown, whether a directory is
//! effectively empty, and in which order children appear.

use vstd::prelude::*;
use vstd::string::*;
use vstd::utf8::*;
use crate::config::{ConfigView, TraversalConfig};
use crate::glob::{GlobFilter, glob_matches};
use crate::snapshot::{EntryKind, Snapshot, SnapshotView};

verus! {

/// The one file name that is left out unless lock files are kept.
pub open spec fn lock_file_name() -> Seq<char> {
    "Cargo.lock"@
}

/// Whether some regular file among the children of `d` from the `k`-th on,
/// or anywhere below them, matches `pattern` (no other rule applies here).
pub open spec fn holds_match_from(s: SnapshotView, d: int, k: int, pattern: Seq<char>) -> bool
    decreases s.len() - d, s.n_children(d) - k,
    when s.wf() && 0 <= d < s.len() && 0 <= k
{
    if k >= s.n_children(d) {
        false
    } else {
        let c = s.child(d, k);
        (s.entry(c).kind == EntryKind::File && glob_matches(pattern, s.entry(c).path)) || (
        s.entry(c).kind == EntryKind::Dir && holds_match_from(s, c, 0, pattern))
            || holds_match_from(s, d, k + 1, pattern)
    }
}

/// Whether directory `d` holds, at any depth, a regular file matching `pattern`.
pub open spec fn holds_match(s: SnapshotView, d: int, pattern: Seq<char>) -> bool {
    holds_match_from(s, d, 0, pattern)
}

/// The entry filter: whether entry `c`, listed under directory `d`, passes
/// every rule of the configuration.
pub open spec fn admitted(s: SnapshotView, d: int, c: int, cfg: ConfigView) -> bool {
    let e = s.entry(c);
    &&& e.path != s.entry(d).path
    &&& match cfg.pattern {
        Some(p) => if e.kind == EntryKind::Dir {
            holds_match(s, c, p)
        } else {
            glob_matches(p, e.path)
        },
        None => true,
    }
    &&& cfg.dirs_only ==> e.kind == EntryKind::Dir
    &&& !cfg.keep_locks ==> e.name != lock_file_name()
}

/// An admitted entry that is a file or a directory; anything else is skipped.
pub open spec fn shown(s: SnapshotView, d: int, c: int, cfg: ConfigView) -> bool {
    admitted(s, d, c, cfg) && s.entry(c).kind != EntryKind::Other
}

/// Whether a shown regular file lies among the children of `d` from the
/// `k`-th on, or below them along shown directories.
pub open spec fn has_shown_file_from(s: SnapshotView, d: int, k: int, cfg: ConfigView) -> bool
    decreases s.len() - d, s.n_children(d) - k,
    when s.wf() && 0 <= d < s.len() && 0 <= k
{
    if k >= s.n_children(d) {
        false
    } else {
        let c = s.child(d, k);
        (shown(s, d, c, cfg) && (s.entry(c).kind == EntryKind::File || (s.entry(c).kind
            == EntryKind::Dir && has_shown_file_from(s, c, 0, cfg)))) || has_shown_file_from(
            s,
            d,
            k + 1,
            cfg,
        )
    }
}

/// A directory is effectively empty when no shown regular file lies
/// anywhere below it.
pub open spec fn effectively_empty(s: SnapshotView, d: int, cfg: ConfigView) -> bool {
    !has_shown_file_from(s, d, 0, cfg)
}

/// The bytes a path is ordered by.
pub open spec fn path_key(s: SnapshotView, c: int) -> Seq<u8> {
    encode_utf8(s.entry(c).path)
}

/// Lexicographic order of byte strings, compared from position `i` on.
pub open spec fn bytes_before(a: Seq<u8>, b: Seq<u8>, i: int) -> bool
    decreases a.len() - i,
{
    if i >= a.len() {
        i < b.len()
    } else if i >= b.len() {
        false
    } else if a[i] != b[i] {
        a[i] < b[i]
    } else {
        bytes_before(a, b, i + 1)
    }
}

/// Whether entry `x`'s path sorts strictly before entry `y`'s.
pub open spec fn path_before(s: SnapshotView, x: int, y: int) -> bool {
    bytes_before(path_key(s, x), path_key(s, y), 0)
}

/// Inserts `c` into `l` ahead of the first entry whose path sorts after it.
pub open spec fn insert_by_path(s: SnapshotView, l: Seq<usize>, c: usize) -> Seq<usize>
    decreases l.len(),
{
    if l.len() == 0 {
        seq![c]
    } else if path_before(s, c as int, l[0] as int) {
        seq![c] + l
    } else {
        seq![l[0]] + insert_by_path(s, l.drop_first(), c)
    }
}

/// The shown children among the first `n` listed children of `d`, sorted by
/// path (entries with equal paths keep their listing order).
pub open spec fn sorted_shown_upto(s: SnapshotView, d: int, n: int, cfg: ConfigView) -> Seq<
    usize,
>
    decreases n,
{
    if n <= 0 {
        seq![]
    } else {
        let prev = sorted_shown_upto(s, d, n - 1, cfg);
        let c = s.entries[d].children[n - 1];
        if shown(s, d, c as int, cfg) {
            insert_by_path(s, prev, c)
        } else {
            prev
        }
    }
}

/// The children of `d` that are shown, sorted by path.
pub open spec fn shown_children(s: SnapshotView, d: int, cfg: ConfigView) -> Seq<usize> {
    sorted_shown_upto(s, d, s.n_children(d), cfg)
}

/// Whether some regular file anywhere below directory `d` matches the glob.
fn holds_match_exec(s: &Snapshot, d: usize, g: &GlobFilter) -> (r: bool)
    requires
        s.wf(),
        d < s@.len(),
    ensures
        r == holds_match(s@, d as int, g.spec_pattern()),
    decreases s@.len() - d,
{
    let n = s.entries[d].children.len();
    let mut k: usize = 0;
    while k < n
        invariant
            s.wf(),
            d < s@.len(),
            n == s@.n_children(d as int),
            k <= n,
            holds_match(s@, d as int, g.spec_pattern()) == holds_match_from(
                s@,
                d as int,
                k as int,
                g.spec_pattern(),
            ),
        decreases n - k,
    {
        let c = s.entries[d].children[k];
        assert(c == s@.child(d as int, k as int));
        let e = &s.entries[c];
        let hit = if e.kind == EntryKind::File {
            g.is_match(e.path.as_str())
        } else if e.kind == EntryKind::Dir {
            holds_match_exec(s, c, g)
        } else {
            false
        };
        if hit {
            return true;
        }
        k = k + 1;
    }
    false
}

/// The entry filter: whether child `c` of directory `d` passes every rule.
pub fn filter_entry(s: &Snapshot, d: usize, c: usize, cfg: &TraversalConfig) -> (r: bool)
    requires
        s.wf(),
        d < s@.len(),
        c < s@.len(),
    ensures
        r == admitted(s@, d as int, c as int, cfg@),
{
    let e = &s.entries[c];
    if e.path == s.entries[d].path {
        return false;
    }
    match &cfg.file_glob {
        Some(g) => {
            let hit = if e.kind == EntryKind::Dir {
                holds_match_exec(s, c, g)
            } else {
                g.is_match(e.path.as_str())
            };
            if !hit {
                return false;
            }
        },
        None => {},
    }
    if cfg.dirs_only && e.kind != EntryKind::Dir {
        return false;
    }
    let lock = String::from_str("Cargo.lock");
    if !cfg.keep_locks && e.name == lock {
        return false;
    }
    true
}

/// Whether child `c` of `d` is listed: admitted, and a file or a directory.
pub fn is_shown(s: &Snapshot, d: usize, c: usize, cfg: &TraversalConfig) -> (r: bool)
    requires
        s.wf(),
        d < s@.len(),
        c < s@.len(),
    ensures
        r == shown(s@, d as int, c as int, cfg@),
{
    s.entries[c].kind != EntryKind::Other && filter_entry(s, d, c, cfg)
}

/// The emptiness classifier: whether no shown regular file lies anywhere
/// below directory `d`, however deep.
pub fn is_effectively_empty(s: &Snapshot, d: usize, cfg: &TraversalConfig) -> (r: bool)
    requires
        s.wf(),
        d < s@.len(),
    ensures
        r == effectively_empty(s@, d as int, cfg@),
    decreases s@.len() - d,
{
    let n = s.entries[d].children.len();
    let mut k: usize = 0;
    while k < n
        invariant
            s.wf(),
            d < s@.len(),
            n == s@.n_children(d as int),
            k <= n,
            has_shown_file_from(s@, d as int, 0, cfg@) == has_shown_file_from(
                s@,
                d as int,
                k as int,
                cfg@,
            ),
        decreases n - k,
    {
        let c = s.entries[d].children[k];
        assert(c == s@.child(d as int, k as int));
        if is_shown(s, d, c, cfg) {
            let kind = s.entries[c].kind;
            if kind == EntryKind::File {
                return false;
            }
            if kind == EntryKind::Dir && !is_effectively_empty(s, c, cfg) {
                return false;
            }
        }
        k = k + 1;
    }
    true
}

/// Whether byte string `a` sorts strictly before `b`.
fn bytes_less(a: &[u8], b: &[u8]) -> (r: bool)
    ensures
        r == bytes_before(a@, b@, 0),
{
    let mut i: usize = 0;
    while i < a.len() && i < b.len()
        invariant
            i <= a@.len(),
            i <= b@.len(),
            bytes_before(a@, b@, 0) == bytes_before(a@, b@, i as int),
        decreases a@.len() - i,
    {
        if a[i] != b[i] {
            return a[i] < b[i];
        }
        i = i + 1;
    }
    i < b.len() && i >= a.len()
}

proof fn lemma_insert_at(s: SnapshotView, l: Seq<usize>, c: usize, k: int)
    requires
        0 <= k <= l.len(),
        forall|j: int| 0 <= j < k ==> !path_before(s, c as int, #[trigger] l[j] as int),
        k == l.len() || path_before(s, c as int, l[k] as int),
    ensures
        insert_by_path(s, l, c) == l.insert(k, c),
    decreases l.len(),
{
    if k == 0 {
        assert(insert_by_path(s, l, c) =~= l.insert(k, c));
    } else {
        let t = l.drop_first();
        assert forall|j: int| 0 <= j < k - 1 implies !path_before(s, c as int, #[trigger] t[j] as int) by {
            assert(t[j] == l[j + 1]);
        }
        if k < l.len() {
            assert(t[k - 1] == l[k]);
        }
        lemma_insert_at(s, t, c, k - 1);
        assert(insert_by_path(s, l, c) =~= l.insert(k, c));
    }
}

/// The children of `d` that are listed, sorted by path; equal paths keep
/// their listing order.
pub fn sorted_children(s: &Snapshot, d: usize, cfg: &TraversalConfig) -> (r: Vec<usize>)
    requires
        s.wf(),
        d < s@.len(),
    ensures
        r@ == shown_children(s@, d as int, cfg@),
        forall|j: int| 0 <= j < r@.len() ==> d < #[trigger] r@[j] < s@.len(),
{
    let n = s.entries[d].children.len();
    let mut out: Vec<usize> = Vec::new();
    let mut k: usize = 0;
    while k < n
        invariant
            s.wf(),
            d < s@.len(),
            n == s@.n_children(d as int),
            k <= n,
            out@ == sorted_shown_upto(s@, d as int, k as int, cfg@),
            forall|j: int| 0 <= j < out@.len() ==> d < #[trigger] out@[j] < s@.len(),
        decreases n - k,
    {
        let c = s.entries[d].children[k];
        assert(c == s@.child(d as int, k as int));
        if is_shown(s, d, c, cfg) {
            let key = s.entries[c].path.as_str().as_bytes();
            let mut pos: usize = 0;
            let mut found = false;
            while pos < out.len() && !found
                invariant
                    found ==> pos < out@.len() && path_before(s@, c as int, out@[pos as int] as int),
                    s.wf(),
                    c < s@.len(),
                    pos <= out@.len(),
                    key@ == path_key(s@, c as int),
                    forall|j: int| 0 <= j < out@.len() ==> #[trigger] out@[j] < s@.len(),
                    forall|j: int|
                        0 <= j < pos ==> !path_before(s@, c as int, #[trigger] out@[j] as int),
                decreases out@.len() - pos + if found { 0int } else { 1int },
            {
                let other = out[pos];
                let other_key = s.entries[other].path.as_str().as_bytes();
                if bytes_less(key, other_key) {
                    found = true;
                } else {
                    pos = pos + 1;
                }
            }
            proof {
                lemma_insert_at(s@, out@, c, pos as int);
            }
            out.insert(pos, c);
        }
        k = k + 1;
    }
    out
}

} // verus!

//! An in-memory listing of a directory tree, as the ignore-aware walker
//! reports it: one entry per visited path, each directory holding the
//! indices of its direct children.

use vstd::prelude::*;

verus! {

/// What a path turned out to be when it was inspected.
#[derive(Clone, Copy, Debug, PartialEq, Eq, Structural)]
pub enum EntryKind {
    File,
    Dir,
    /// Neither a regular file nor a directory (or it could not be inspected).
    Other,
}

/// One listed path.
#[derive(Debug)]
pub struct Entry {
    /// Base name of the path.
    pub name: String,
    /// Full path, as the walker produced it.
    pub path: String,
    pub kind: EntryKind,
    /// Indices of the direct children, in listing order (directories only).
    pub children: Vec<usize>,
}

/// A directory tree stored by index; entry 0 is the root.
///
/// Every child index is larger than its parent's index, which orders all
/// recursion over the tree.
#[derive(Debug)]
pub struct Snapshot {
    pub entries: Vec<Entry>,
}

/// An entry as values.
pub struct EntryView {
    pub name: Seq<char>,
    pub path: Seq<char>,
    pub kind: EntryKind,
    pub children: Seq<usize>,
}

/// A snapshot as values: its entries, root first.
pub struct SnapshotView {
    pub entries: Seq<EntryView>,
}

impl View for Entry {
    type V = EntryView;

    open spec fn view(&self) -> EntryView {
        EntryView {
            name: self.name@,
            path: self.path@,
            kind: self.kind,
            children: self.children@,
        }
    }
}

impl View for Snapshot {
    type V = SnapshotView;

    open spec fn view(&self) -> SnapshotView {
        SnapshotView { entries: self.entries@.map_values(|e: Entry| e@) }
    }
}

impl SnapshotView {
    pub open spec fn len(&self) -> int {
        self.entries.len() as int
    }

    pub open spec fn entry(&self, i: int) -> EntryView {
        self.entries[i]
    }

    pub open spec fn child(&self, i: int, k: int) -> int {
        self.entries[i].children[k] as int
    }

    pub open spec fn n_children(&self, i: int) -> int {
        self.entries[i].children.len() as int
    }

    /// Whether some child of `i` has path `p`.
    pub open spec fn has_child_path(&self, i: int, p: Seq<char>) -> bool {
        exists|k: int| 0 <= k < self.n_children(i) && #[trigger] self.entry(self.child(i, k)).path == p
    }

    /// Children come after their parent, only directories have any, and no
    /// two children of one directory share a path.
    pub open spec fn wf(&self) -> bool {
        &&& self.len() > 0
        &&& forall|i: int, k: int|
            0 <= i < self.len() && 0 <= k < self.n_children(i) ==> i < #[trigger] self.child(i, k)
                < self.len()
        &&& forall|i: int|
            0 <= i < self.len() && #[trigger] self.entry(i).kind != EntryKind::Dir
                ==> self.n_children(i) == 0
        &&& forall|i: int, k1: int, k2: int|
            0 <= i < self.len() && 0 <= k1 < k2 < self.n_children(i) ==> #[trigger] self.entry(
                self.child(i, k1),
            ).path != #[trigger] self.entry(self.child(i, k2)).path
    }
}

impl Snapshot {
    pub open spec fn wf(&self) -> bool {
        self@.wf()
    }

    /// A snapshot holding only its root.
    pub fn new(name: String, path: String, kind: EntryKind) -> (r: Snapshot)
        ensures
            r.wf(),
            r@.len() == 1,
            r@.entry(0).name == name@,
            r@.entry(0).path == path@,
            r@.entry(0).kind == kind,
            r@.n_children(0) == 0,
    {
        let root = Entry { name, path, kind, children: Vec::new() };
        let mut entries: Vec<Entry> = Vec::new();
        entries.push(root);
        Snapshot { entries }
    }

    /// Appends an entry as the last child of `parent` and returns its index;
    /// `None`, with nothing changed, when `parent` is not a directory of this
    /// snapshot or already has a child with this path.
    pub fn add_child(&mut self, parent: usize, name: String, path: String, kind: EntryKind) -> (r:
        Option<usize>)
        requires
            old(self).wf(),
        ensures
            final(self).wf(),
            (parent < old(self)@.len() && old(self)@.entry(parent as int).kind == EntryKind::Dir
                && !old(self)@.has_child_path(parent as int, path@)) ==> r == Some(old(self)@.len() as usize) && final(self)@.len() == old(self)@.len() + 1
                && final(self)@.entry(old(self)@.len()).name == name@
                && final(self)@.entry(old(self)@.len()).path == path@
                && final(self)@.entry(old(self)@.len()).kind == kind
                && final(self)@.n_children(old(self)@.len()) == 0
                && final(self)@.entry(parent as int).children == old(self)@.entry(
                parent as int,
            ).children.push(old(self)@.len() as usize) && (forall|j: int|
                0 <= j < old(self)@.len() && j != parent ==> #[trigger] final(self)@.entry(j)
                    == old(self)@.entry(j)) && final(self)@.entry(parent as int).name
                == old(self)@.entry(parent as int).name && final(self)@.entry(parent as int).path
                == old(self)@.entry(parent as int).path && final(self)@.entry(parent as int).kind
                == old(self)@.entry(parent as int).kind,
            !(parent < old(self)@.len() && old(self)@.entry(parent as int).kind == EntryKind::Dir
                && !old(self)@.has_child_path(parent as int, path@)) ==> r.is_none() && final(self)@ == old(self)@,
    {
        if parent >= self.entries.len() || self.entries[parent].kind != EntryKind::Dir {
            return None;
        }
        let ghost old_s = *self;
        let n = self.entries[parent].children.len();
        let mut k: usize = 0;
        while k < n
            invariant
                self.wf(),
                *self == old_s,
                parent < self@.len(),
                n == self@.n_children(parent as int),
                k <= n,
                forall|m: int| 0 <= m < k ==> #[trigger] self@.entry(self@.child(parent as int, m)).path != path@,
            decreases n - k,
        {
            let c = self.entries[parent].children[k];
            assert(c == self@.child(parent as int, k as int));
            if self.entries[c].path == path {
                assert(self@.entry(self@.child(parent as int, k as int)).path == path@);
                return None;
            }
            k = k + 1;
        }
        let idx = self.entries.len();
        let mut children = self.entries[parent].children.clone();
        assert(children@ =~= self.entries@[parent as int].children@);
        children.push(idx);
        let p = Entry {
            name: self.entries[parent].name.clone(),
            path: self.entries[parent].path.clone(),
            kind: self.entries[parent].kind,
            children,
        };
        let ghost before = self.entries@;
        self.entries.set(parent, p);
        self.entries.push(Entry { name, path, kind, children: Vec::new() });
        assert forall|i: int, k: int|
            0 <= i < self@.len() && 0 <= k < self@.n_children(i) implies i < #[trigger] self@.child(
            i,
            k,
        ) < self@.len() by {
            if i != parent && i < idx {
                assert(self@.entry(i) == before[i]@);
                assert(old_s@.child(i, k) == self@.child(i, k));
            } else if i == parent && k < old_s@.n_children(i) {
                assert(old_s@.child(i, k) == self@.child(i, k));
            }
        }
        assert forall|i: int|
            0 <= i < self@.len() && #[trigger] self@.entry(i).kind != EntryKind::Dir implies self@.n_children(
            i,
        ) == 0 by {
            if i != parent && i < idx {
                assert(self@.entry(i) == before[i]@);
                assert(old_s@.entry(i).kind != EntryKind::Dir);
            }
        }
        assert forall|c: int| 0 <= c < idx implies #[trigger] self@.entry(c).path == old_s@.entry(
            c,
        ).path by {
            assert(self@.entry(c) == before[c]@ || c == parent);
        }
        assert forall|i: int, k: int|
            0 <= i < idx && 0 <= k < old_s@.n_children(i) implies #[trigger] self@.child(i, k)
            == old_s@.child(i, k) by {
            if i != parent {
                assert(self@.entry(i) == before[i]@);
            }
        }
        assert forall|i: int, k1: int, k2: int|
            0 <= i < self@.len() && 0 <= k1 < k2 < self@.n_children(i) implies #[trigger] self@.entry(
            self@.child(i, k1),
        ).path != #[trigger] self@.entry(self@.child(i, k2)).path by {
            if i < idx {
                let c1 = old_s@.child(i, k1);
                assert(c1 == self@.child(i, k1));
                assert(self@.entry(c1).path == old_s@.entry(c1).path);
                if i != parent || k2 < old_s@.n_children(i) {
                    let c2 = old_s@.child(i, k2);
                    assert(c2 == self@.child(i, k2));
                    assert(self@.entry(c2).path == old_s@.entry(c2).path);
                } else {
                    assert(self@.child(i, k2) == idx);
                    assert(old_s@.entry(old_s@.child(parent as int, k1)).path != path@);
                }
            }
        }
        Some(idx)
    }
}

} // verus!

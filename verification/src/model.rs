//! A directory tree as a sequence of nodes, and what a sweep of such a tree
//! is: which directories it explores, which output directories it deletes,
//! and what is left.
//!
//! A node is named by its position in the sequence. Every node but a root
//! names its parent, which stands before it. Removing a node never renumbers
//! the others: a removed node stays in the sequence, marked as removed.

use vstd::prelude::*;
use crate::entry::{EntryKind, EntryView, MANIFEST_NAME, OUTPUT_NAME};

verus! {

/// One node of a directory tree.
pub struct NodeView {
    /// The last component of the node's path.
    pub name: Seq<char>,
    pub kind: EntryKind,
    /// The directory that holds the node; `None` for a root.
    pub parent: Option<int>,
    /// The node has been deleted.
    pub removed: bool,
    /// The node cannot be deleted, and so neither can a directory above it.
    pub locked: bool,
}

/// `j` is a node of `t` that has not been removed.
pub open spec fn present(t: Seq<NodeView>, j: int) -> bool {
    0 <= j < t.len() && !t[j].removed
}

/// `d` is a directory that can be listed.
pub open spec fn is_dir(t: Seq<NodeView>, d: int) -> bool {
    present(t, d) && t[d].kind == EntryKind::Directory
}

/// `c` is listed among the children of `d`.
pub open spec fn is_child(t: Seq<NodeView>, c: int, d: int) -> bool {
    present(t, c) && t[c].parent == Some(d)
}

/// The parent of `j`, if it has one, is a directory that stands before `j`
/// and is not removed unless `j` is.
pub open spec fn parent_ok(t: Seq<NodeView>, j: int) -> bool {
    match t[j].parent {
        Some(p) => 0 <= p < j && t[p].kind == EntryKind::Directory && (t[p].removed
            ==> t[j].removed),
        None => true,
    }
}

/// `i` and `j` are two children of one directory under the same name.
pub open spec fn name_clash(t: Seq<NodeView>, i: int, j: int) -> bool {
    &&& present(t, i)
    &&& present(t, j)
    &&& i != j
    &&& t[i].parent is Some
    &&& t[i].parent == t[j].parent
    &&& t[i].name == t[j].name
}

/// The sequence describes a forest of directory trees: parents come first
/// and are directories, what lies under a removed directory is removed, and
/// no directory holds two children of one name.
pub open spec fn well_formed(t: Seq<NodeView>) -> bool {
    &&& forall|j: int| #![trigger t[j]] 0 <= j < t.len() ==> parent_ok(t, j)
    &&& forall|i: int, j: int| !#[trigger] name_clash(t, i, j)
}

/// `j` is `r` or lies somewhere under it.
pub open spec fn within(t: Seq<NodeView>, j: int, r: int) -> bool
    decreases j,
{
    0 <= j < t.len() && (j == r || match t[j].parent {
        Some(p) => 0 <= p < j && within(t, p, r),
        None => false,
    })
}

/// `c` is a manifest in `d`: a regular file named `Cargo.toml`.
pub open spec fn manifest_in(t: Seq<NodeView>, c: int, d: int) -> bool {
    is_child(t, c, d) && t[c].kind == EntryKind::File && t[c].name == MANIFEST_NAME@
}

/// `d` is a project root: it holds a manifest.
pub open spec fn has_manifest(t: Seq<NodeView>, d: int) -> bool {
    exists|c: int| manifest_in(t, c, d)
}

/// `c` is the output directory in `d`: a directory named `target`.
pub open spec fn target_in(t: Seq<NodeView>, c: int, d: int) -> bool {
    is_child(t, c, d) && t[c].kind == EntryKind::Directory && t[c].name == OUTPUT_NAME@
}

/// `c` is a directory in `d` under any other name.
pub open spec fn plain_dir_in(t: Seq<NodeView>, c: int, d: int) -> bool {
    is_child(t, c, d) && t[c].kind == EntryKind::Directory && t[c].name != OUTPUT_NAME@
}

/// A sweep that starts at `start` lists `d`: `d` is a directory, and it is
/// `start` itself or a directory in a listed directory, but not the output
/// directory of a project root.
pub open spec fn explored(t: Seq<NodeView>, start: int, d: int) -> bool
    decreases d,
{
    is_dir(t, d) && (d == start || match t[d].parent {
        Some(p) => 0 <= p < d && explored(t, start, p) && !(t[d].name == OUTPUT_NAME@
            && has_manifest(t, p)),
        None => false,
    })
}

/// A sweep that starts at `start` deletes `r`: `r` is the output directory
/// of a project root that the sweep lists.
pub open spec fn swept_target(t: Seq<NodeView>, start: int, r: int) -> bool {
    0 <= r < t.len() && match t[r].parent {
        Some(p) => target_in(t, r, p) && has_manifest(t, p) && explored(t, start, p),
        None => false,
    }
}

/// Something in or under `r` is locked, so `r` cannot be removed.
pub open spec fn blocked(t: Seq<NodeView>, r: int) -> bool {
    exists|k: int| present(t, k) && t[k].locked && #[trigger] within(t, k, r)
}

/// `j` is one of `roots` or lies under one of them.
pub open spec fn under_any(t: Seq<NodeView>, roots: Seq<usize>, j: int) -> bool {
    exists|i: int| 0 <= i < roots.len() && #[trigger] within(t, j, roots[i] as int)
}

/// The tree with the subtrees at `roots` removed.
pub open spec fn without(t: Seq<NodeView>, roots: Seq<usize>) -> Seq<NodeView> {
    Seq::new(
        t.len(),
        |j: int|
            NodeView {
                name: t[j].name,
                kind: t[j].kind,
                parent: t[j].parent,
                removed: t[j].removed || under_any(t, roots, j),
                locked: t[j].locked,
            },
    )
}

/// `j` lies in or under a directory that a sweep from `start` deletes.
pub open spec fn cleared(t: Seq<NodeView>, start: int, j: int) -> bool {
    exists|r: int| swept_target(t, start, r) && #[trigger] within(t, j, r)
}

/// The tree after a complete sweep from `start`.
pub open spec fn swept(t: Seq<NodeView>, start: int) -> Seq<NodeView> {
    Seq::new(
        t.len(),
        |j: int|
            NodeView {
                name: t[j].name,
                kind: t[j].kind,
                parent: t[j].parent,
                removed: t[j].removed || cleared(t, start, j),
                locked: t[j].locked,
            },
    )
}

/// The entry under which node `c` is listed.
pub open spec fn entry_at(t: Seq<NodeView>, c: int) -> EntryView<usize> {
    EntryView { name: t[c].name, kind: t[c].kind, path: c as usize }
}

/// The children of `d` among the first `upto` nodes, in the order of the
/// nodes.
pub open spec fn listing(t: Seq<NodeView>, d: int, upto: int) -> Seq<EntryView<usize>>
    decreases upto,
{
    if upto <= 0 {
        Seq::empty()
    } else if is_child(t, upto - 1, d) {
        listing(t, d, upto - 1).push(entry_at(t, upto - 1))
    } else {
        listing(t, d, upto - 1)
    }
}

/// What listing the directory `d` gives.
pub open spec fn children(t: Seq<NodeView>, d: int) -> Seq<EntryView<usize>> {
    listing(t, d, t.len() as int)
}

/// Two trees differ at most in what has been removed.
pub open spec fn same_shape(t: Seq<NodeView>, u: Seq<NodeView>) -> bool {
    &&& t.len() == u.len()
    &&& forall|j: int|
        #![trigger u[j]]
        0 <= j < t.len() ==> t[j].parent == u[j].parent && t[j].name == u[j].name && t[j].kind
            == u[j].kind && t[j].locked == u[j].locked
}

/// A node does not lie under one that stands after it.
pub proof fn lemma_within_bounds(t: Seq<NodeView>, j: int, r: int)
    requires
        within(t, j, r),
    ensures
        0 <= r <= j < t.len(),
    decreases j,
{
    if j != r {
        lemma_within_bounds(t, t[j].parent->0, r);
    }
}

/// Whether one node lies under another depends on the parents alone.
pub proof fn lemma_within_same_shape(t: Seq<NodeView>, u: Seq<NodeView>, j: int, r: int)
    requires
        same_shape(t, u),
    ensures
        within(t, j, r) == within(u, j, r),
    decreases j,
{
    if 0 <= j < t.len() && j != r {
        if let Some(p) = t[j].parent {
            if 0 <= p < j {
                lemma_within_same_shape(t, u, p, r);
            }
        }
    }
}

/// A sweep lists nothing that stands before its starting directory.
pub proof fn lemma_explored_bounds(t: Seq<NodeView>, start: int, d: int)
    requires
        explored(t, start, d),
    ensures
        0 <= start <= d < t.len(),
    decreases d,
{
    if d != start {
        lemma_explored_bounds(t, start, t[d].parent->0);
    }
}

/// A sweep deletes nothing at or before its starting directory.
pub proof fn lemma_swept_target_bounds(t: Seq<NodeView>, start: int, r: int)
    requires
        well_formed(t),
        swept_target(t, start, r),
    ensures
        start < r < t.len(),
{
    assert(parent_ok(t, r));
    lemma_explored_bounds(t, start, t[r].parent->0);
}

/// A directory that a sweep lists lies in no subtree that the sweep deletes.
pub proof fn lemma_explored_not_cleared(t: Seq<NodeView>, start: int, d: int, r: int)
    requires
        well_formed(t),
        explored(t, start, d),
        swept_target(t, start, r),
    ensures
        !within(t, d, r),
    decreases d,
{
    lemma_swept_target_bounds(t, start, r);
    lemma_explored_bounds(t, start, d);
    if within(t, d, r) {
        lemma_within_bounds(t, d, r);
        if d == r {
            assert(d != start);
        } else {
            let p = t[d].parent->0;
            assert(within(t, p, r));
            lemma_within_bounds(t, p, r);
            if d != start {
                lemma_explored_not_cleared(t, start, p, r);
            }
        }
    }
}

/// Removing subtrees leaves a well-formed tree well formed.
pub proof fn lemma_without_well_formed(t: Seq<NodeView>, roots: Seq<usize>)
    requires
        well_formed(t),
    ensures
        well_formed(without(t, roots)),
        same_shape(t, without(t, roots)),
{
    let u = without(t, roots);
    assert forall|j: int| #![trigger u[j]] 0 <= j < u.len() implies parent_ok(u, j) by {
        assert(parent_ok(t, j));
        if let Some(p) = t[j].parent {
            if under_any(t, roots, p) {
                let i = choose|i: int| 0 <= i < roots.len() && within(t, p, roots[i] as int);
                assert(within(t, j, roots[i] as int));
            }
        }
    }
    assert forall|i: int, j: int| !#[trigger] name_clash(u, i, j) by {
        assert(!name_clash(t, i, j));
    }
}

/// Removing subtrees one after another is removing them all.
pub proof fn lemma_without_push(t: Seq<NodeView>, roots: Seq<usize>, r: usize)
    ensures
        without(without(t, roots), seq![r]) == without(t, roots.push(r)),
{
    let u = without(t, roots);
    let a = without(u, seq![r]);
    let b = without(t, roots.push(r));
    assert(same_shape(t, u));
    assert forall|j: int| 0 <= j < t.len() implies a[j] == b[j] by {
        lemma_within_same_shape(t, u, j, r as int);
        if under_any(u, seq![r], j) {
            let i = choose|i: int| 0 <= i < seq![r].len() && within(u, j, seq![r][i] as int);
            assert(roots.push(r)[roots.len() as int] == r);
            assert(within(t, j, roots.push(r)[roots.len() as int] as int));
        }
        if under_any(t, roots, j) {
            let i = choose|i: int| 0 <= i < roots.len() && within(t, j, roots[i] as int);
            assert(roots.push(r)[i] == roots[i]);
            assert(within(t, j, roots.push(r)[i] as int));
        }
        if under_any(t, roots.push(r), j) {
            let i = choose|i: int|
                0 <= i < roots.push(r).len() && within(t, j, roots.push(r)[i] as int);
            if i < roots.len() {
                assert(roots.push(r)[i] == roots[i]);
                assert(within(t, j, roots[i] as int));
            } else {
                assert(seq![r][0] == r);
                assert(within(u, j, seq![r][0] as int));
            }
        }
    }
    assert(a =~= b);
}

} // verus!

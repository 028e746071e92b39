//! What a sweep guarantees, stated of the tree before it and the tree after.

use vstd::prelude::*;
use crate::entry::{EntryView, OUTPUT_NAME};
use crate::model::{
    cleared, explored, has_manifest, is_dir, lemma_within_bounds, lemma_within_same_shape,
    manifest_in, name_clash, parent_ok, present, same_shape, swept, swept_target, target_in,
    well_formed, within, NodeView,
};
use crate::progress::{lemma_swept_targets_apart, parent_of};
use crate::project::{scan, RustProject};
use crate::sweep::resolution;

verus! {

/// The swept tree is well formed and has the shape of the tree before.
pub proof fn swept_is_well_formed(t: Seq<NodeView>, start: int)
    requires
        well_formed(t),
    ensures
        well_formed(swept(t, start)),
        same_shape(t, swept(t, start)),
{
    let u = swept(t, start);
    assert forall|j: int| #![trigger u[j]] 0 <= j < u.len() implies parent_ok(u, j) by {
        assert(parent_ok(t, j));
        if let Some(p) = t[j].parent {
            if cleared(t, start, p) {
                let r = choose|r: int| swept_target(t, start, r) && within(t, p, r);
                assert(within(t, j, r));
            }
        }
    }
    assert forall|i: int, j: int| !#[trigger] name_clash(u, i, j) by {
        assert(!name_clash(t, i, j));
    }
}

/// A directory that the sweep lists lies at or under the starting directory.
pub proof fn explored_is_within(t: Seq<NodeView>, start: int, d: int)
    requires
        explored(t, start, d),
    ensures
        within(t, d, start),
    decreases d,
{
    if d != start {
        explored_is_within(t, start, parent_of(t, d));
    }
}

/// Every directory at or under the starting directory that is left after
/// the sweep is one that the sweep has listed.
pub proof fn left_is_explored(t: Seq<NodeView>, start: int, d: int)
    requires
        well_formed(t),
        within(t, d, start),
        is_dir(swept(t, start), d),
    ensures
        explored(t, start, d),
    decreases d,
{
    let u = swept(t, start);
    swept_is_well_formed(t, start);
    if d != start {
        let p = parent_of(t, d);
        assert(parent_ok(u, d));
        assert(parent_ok(t, d));
        left_is_explored(t, start, p);
        if t[d].name == OUTPUT_NAME@ && has_manifest(t, p) {
            assert(swept_target(t, start, d));
            assert(within(t, d, d));
            assert(cleared(t, start, d));
        }
    }
}

/// After a complete sweep from `start`, no directory at or under `start`
/// holds both a manifest and an output directory.
pub proof fn no_target_left_beside_manifest(t: Seq<NodeView>, start: int, d: int, c: int)
    requires
        well_formed(t),
        within(t, d, start),
    ensures
        !(has_manifest(swept(t, start), d) && target_in(swept(t, start), c, d)),
{
    let u = swept(t, start);
    swept_is_well_formed(t, start);
    if has_manifest(u, d) && target_in(u, c, d) {
        let m = choose|m: int| manifest_in(u, m, d);
        assert(manifest_in(t, m, d));
        assert(target_in(t, c, d));
        assert(parent_ok(u, c));
        left_is_explored(t, start, d);
        assert(swept_target(t, start, c));
        assert(within(t, c, c));
        assert(cleared(t, start, c));
    }
}

/// An output directory `c` in a directory `d` without a manifest is not
/// deleted for its own sake: the sweep never sets out to delete it, lists it
/// if it lists `d`, and leaves it in the tree unless `d` itself lies in a
/// directory that the sweep deletes.
pub proof fn orphan_target_kept_and_explored(t: Seq<NodeView>, start: int, d: int, c: int)
    requires
        well_formed(t),
        target_in(t, c, d),
        !has_manifest(t, d),
    ensures
        !swept_target(t, start, c),
        explored(t, start, d) ==> explored(t, start, c),
        !cleared(t, start, d) ==> present(swept(t, start), c),
{
    assert(parent_ok(t, c));
    if cleared(t, start, c) {
        let r = choose|r: int| swept_target(t, start, r) && within(t, c, r);
        assert(within(t, d, r));
    }
}

/// A second sweep finds nothing to delete: the swept tree holds no
/// directory that a sweep from the same start deletes, and sweeping it
/// leaves it as it is.
pub proof fn second_sweep_changes_nothing(t: Seq<NodeView>, start: int)
    requires
        well_formed(t),
    ensures
        forall|r: int| !#[trigger] swept_target(swept(t, start), start, r),
        swept(swept(t, start), start) == swept(t, start),
{
    let u = swept(t, start);
    swept_is_well_formed(t, start);
    assert forall|r: int| !#[trigger] swept_target(u, start, r) by {
        if swept_target(u, start, r) {
            let p = parent_of(u, r);
            explored_is_within(u, start, p);
            lemma_within_same_shape(t, u, p, start);
            no_target_left_beside_manifest(t, start, p, r);
        }
    }
    assert(swept(u, start) =~= u);
}

/// A sweep from a place that cannot be listed, because it is missing or is
/// no directory, deletes nothing and leaves the tree as it is.
pub proof fn unlistable_start_changes_nothing(t: Seq<NodeView>, start: int)
    requires
        !is_dir(t, start),
    ensures
        forall|d: int| !#[trigger] explored(t, start, d),
        forall|r: int| !#[trigger] swept_target(t, start, r),
        swept(t, start) == t,
{
    assert forall|d: int| !#[trigger] explored(t, start, d) by {
        if explored(t, start, d) {
            explored_is_within(t, start, d);
            start_is_explored(t, start, d);
        }
    }
    assert(swept(t, start) =~= t);
}

/// Where the sweep lists anything at all, it lists its starting directory.
pub proof fn start_is_explored(t: Seq<NodeView>, start: int, d: int)
    requires
        explored(t, start, d),
    ensures
        explored(t, start, start),
    decreases d,
{
    if d != start {
        start_is_explored(t, start, parent_of(t, d));
    }
}

/// A directory that the sweep deletes goes as a whole, in one deletion:
/// everything in it is gone afterwards, and nothing in it is deleted for
/// its own sake.
pub proof fn swept_target_removed_whole(t: Seq<NodeView>, start: int, r: int, j: int)
    requires
        well_formed(t),
        swept_target(t, start, r),
        within(t, j, r),
    ensures
        swept(t, start)[j].removed,
        j != r ==> !swept_target(t, start, j),
{
    lemma_within_bounds(t, j, r);
    assert(cleared(t, start, j));
    if j != r && swept_target(t, start, j) {
        lemma_swept_targets_apart(t, start, j, r);
    }
}

/// An output directory found in a directory without a manifest is not
/// handed out for deletion; it is put on the work list last, and so is the
/// directory listed next.
pub proof fn orphan_target_listed_next<P>(pending: Seq<P>, entries: Seq<EntryView<P>>)
    requires
        scan(entries, RustProject::fresh(), pending).0.target is Some,
        !scan(entries, RustProject::fresh(), pending).0.root,
    ensures
        resolution(pending, Some(entries)).1 is None,
        resolution(pending, Some(entries)).0.len() > 0,
        resolution(pending, Some(entries)).0.last() == scan(
            entries,
            RustProject::fresh(),
            pending,
        ).0.target->0,
{
}

} // verus!

//! What the scanning rule finds when it is given the listing of a directory
//! of a tree.

use vstd::prelude::*;
use crate::model::{
    entry_at, is_child, listing, manifest_in, plain_dir_in, same_shape, target_in, NodeView,
};
use crate::project::{classify, is_manifest, is_output_dir, is_plain_dir, scan, RustProject};

verus! {

/// What `found`, the outcome of scanning the first `upto` nodes for children
/// of `d`, has to do with the tree: the record tells whether there is a
/// manifest and names an output directory if there is one, and the work list
/// has grown by the plain subdirectories, in their order.
pub open spec fn scan_matches(
    t: Seq<NodeView>,
    d: int,
    upto: int,
    pending: Seq<usize>,
    found: (RustProject<usize>, Seq<usize>),
) -> bool {
    &&& found.0.root <==> exists|c: int| 0 <= c < upto && manifest_in(t, c, d)
    &&& found.0.target matches Some(c) ==> c < upto && target_in(t, c as int, d)
    &&& found.0.target is None ==> forall|c: int| 0 <= c < upto ==> !target_in(t, c, d)
    &&& pending.len() <= found.1.len()
    &&& forall|i: int| 0 <= i < pending.len() ==> found.1[i] == pending[i]
    &&& forall|i: int|
        pending.len() <= i < found.1.len() ==> found.1[i] < upto && plain_dir_in(
            t,
            #[trigger] found.1[i] as int,
            d,
        )
    &&& forall|i: int, k: int|
        pending.len() <= i < k < found.1.len() ==> found.1[i] < found.1[k]
    &&& forall|c: int|
        0 <= c < upto && #[trigger] plain_dir_in(t, c, d) ==> exists|i: int|
            pending.len() <= i < found.1.len() && found.1[i] == c
}

/// Scanning the children of `d` among the first `upto` nodes finds what the
/// tree holds there.
pub proof fn lemma_scan_listing(t: Seq<NodeView>, d: int, upto: int, pending: Seq<usize>)
    requires
        0 <= upto <= t.len() <= usize::MAX,
    ensures
        scan_matches(
            t,
            d,
            upto,
            pending,
            scan(listing(t, d, upto), RustProject::fresh(), pending),
        ),
    decreases upto,
{
    let fresh = RustProject::<usize>::fresh();
    if upto > 0 {
        lemma_scan_listing(t, d, upto - 1, pending);
        let c = upto - 1;
        let prev = scan(listing(t, d, c), fresh, pending);
        let found = scan(listing(t, d, upto), fresh, pending);
        if is_child(t, c, d) {
            let l = listing(t, d, upto);
            let e = entry_at(t, c);
            assert(l.drop_last() =~= listing(t, d, c));
            assert(l.last() == e);
            assert(found == classify(e, prev.0, prev.1));
            assert(is_manifest(e) == manifest_in(t, c, d));
            assert(is_output_dir(e) == target_in(t, c, d));
            assert(is_plain_dir(e) == plain_dir_in(t, c, d));
            assert(e.path == c);
            if is_plain_dir(e) {
                assert(found.1 == prev.1.push(c as usize));
                assert forall|x: int| 0 <= x < upto && #[trigger] plain_dir_in(t, x, d) implies exists|
                    i: int,
                | pending.len() <= i < found.1.len() && found.1[i] == x by {
                    if x < c {
                        let i = choose|i: int|
                            pending.len() <= i < prev.1.len() && prev.1[i] == x;
                        assert(found.1[i] == x);
                    } else {
                        assert(found.1[prev.1.len() as int] == x);
                    }
                }
            } else {
                assert(found.1 == prev.1);
                assert forall|x: int| 0 <= x < upto && #[trigger] plain_dir_in(t, x, d) implies exists|
                    i: int,
                | pending.len() <= i < found.1.len() && found.1[i] == x by {
                    let i = choose|i: int| pending.len() <= i < prev.1.len() && prev.1[i] == x;
                    assert(found.1[i] == x);
                }
            }
            if is_manifest(e) {
                assert(manifest_in(t, c, d));
            }
        } else {
            assert(found == prev);
        }
    }
}

/// The listing of a directory is the same in two trees of one shape in
/// which the directory has the same children.
pub proof fn lemma_listing_same(t: Seq<NodeView>, u: Seq<NodeView>, d: int, upto: int)
    requires
        same_shape(t, u),
        upto <= t.len(),
        forall|c: int| 0 <= c < upto ==> is_child(t, c, d) == is_child(u, c, d),
    ensures
        listing(t, d, upto) == listing(u, d, upto),
    decreases upto,
{
    if upto > 0 {
        lemma_listing_same(t, u, d, upto - 1);
        assert(t[upto - 1].name == u[upto - 1].name);
    }
}

} // verus!

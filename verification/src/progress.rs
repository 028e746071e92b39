//! What holds between two steps of a sweep of a tree, and why each step
//! keeps it.

use vstd::prelude::*;
use vstd::set_lib::{lemma_int_range, lemma_len_subset, set_int_range};
use crate::listing::{lemma_listing_same, lemma_scan_listing, scan_matches};
use crate::model::{
    blocked, children, cleared, explored, has_manifest, is_child, is_dir, lemma_explored_bounds,
    lemma_explored_not_cleared, lemma_swept_target_bounds, lemma_within_bounds,
    lemma_within_same_shape, lemma_without_well_formed, manifest_in, name_clash, parent_ok,
    plain_dir_in, present, swept, swept_target, target_in, under_any, well_formed, within,
    without, NodeView,
};
use crate::project::{scan, RustProject};
use crate::sweep::resolution;

verus! {

/// The directory that holds `j`.
pub open spec fn parent_of(t: Seq<NodeView>, j: int) -> int {
    t[j].parent->0
}

/// `r` was rightly deleted: the sweep deletes it, its parent has been
/// listed, and nothing stood in the way.
pub open spec fn deleted_ok(t: Seq<NodeView>, start: int, done: Set<int>, r: int) -> bool {
    swept_target(t, start, r) && done.contains(parent_of(t, r)) && !blocked(t, r)
}

/// `d` was rightly listed: the sweep lists it, and it came up through a
/// directory listed before it.
pub open spec fn done_ok(t: Seq<NodeView>, start: int, done: Set<int>, d: int) -> bool {
    explored(t, start, d) && (d == start || done.contains(parent_of(t, d)))
}

/// `p` rightly waits on the work list: it has not been listed, and it is the
/// starting directory or a directory that the sweep lists, found in a
/// directory listed already.
pub open spec fn waiting_ok(t: Seq<NodeView>, start: int, done: Set<int>, p: int) -> bool {
    !done.contains(p) && (p == start || (explored(t, start, p) && done.contains(
        parent_of(t, p),
    )))
}

/// `e`, which the sweep lists, is not forgotten: it has been listed, or
/// waits on the work list, or its parent has yet to be listed.
pub open spec fn covered(
    t: Seq<NodeView>,
    start: int,
    pend: Seq<usize>,
    done: Set<int>,
    e: int,
) -> bool {
    done.contains(e) || pend.contains(e as usize) || (e != start && !done.contains(
        parent_of(t, e),
    ))
}

/// The directories in `rep` are distinct, and the sweep deletes each.
pub open spec fn reported_ok(t: Seq<NodeView>, start: int, rep: Seq<usize>) -> bool {
    &&& rep.no_duplicates()
    &&& forall|i: int| 0 <= i < rep.len() ==> swept_target(t, start, #[trigger] rep[i] as int)
}

/// The state of a sweep of `t` from `start` between two steps: `pend` is the
/// work list, `rep` the directories deleted so far, `done` the directories
/// listed so far.
pub open spec fn sweep_inv(
    t: Seq<NodeView>,
    start: int,
    pend: Seq<usize>,
    rep: Seq<usize>,
    done: Set<int>,
) -> bool {
    &&& well_formed(t)
    &&& t.len() <= usize::MAX
    &&& done.finite()
    &&& rep.no_duplicates()
    &&& pend.no_duplicates()
    &&& forall|i: int| 0 <= i < rep.len() ==> #[trigger] deleted_ok(t, start, done, rep[i] as int)
    &&& forall|d: int| done.contains(d) ==> #[trigger] done_ok(t, start, done, d)
    &&& forall|r: int|
        #[trigger] swept_target(t, start, r) && done.contains(parent_of(t, r)) ==> rep.contains(
            r as usize,
        )
    &&& forall|i: int|
        0 <= i < pend.len() ==> #[trigger] waiting_ok(t, start, done, pend[i] as int)
    &&& forall|e: int| explored(t, start, e) ==> #[trigger] covered(t, start, pend, done, e)
}

/// A sweep begins with its starting directory on the work list and nothing
/// listed or deleted.
pub proof fn lemma_inv_init(t: Seq<NodeView>, start: usize)
    requires
        well_formed(t),
        t.len() <= usize::MAX,
    ensures
        sweep_inv(t, start as int, seq![start], Seq::empty(), Set::empty()),
{
    let pend = seq![start];
    assert(pend[0] == start);
    assert forall|e: int| explored(t, start as int, e) implies #[trigger] covered(
        t,
        start as int,
        pend,
        Set::empty(),
        e,
    ) by {
        if e == start {
            assert(pend.contains(e as usize));
        }
    }
}

/// No more directories have been listed than the tree has nodes.
pub proof fn lemma_done_bounded(
    t: Seq<NodeView>,
    start: int,
    pend: Seq<usize>,
    rep: Seq<usize>,
    done: Set<int>,
)
    requires
        sweep_inv(t, start, pend, rep, done),
    ensures
        done.len() <= t.len(),
{
    let all = set_int_range(0, t.len() as int);
    lemma_int_range(0, t.len() as int);
    assert forall|d: int| done.contains(d) implies all.contains(d) by {
        assert(done_ok(t, start, done, d));
        lemma_explored_bounds(t, start, d);
    }
    lemma_len_subset(done, all);
}

/// A directory that the sweep lists has not been touched by the deletions
/// so far.
pub proof fn lemma_explored_untouched(
    t: Seq<NodeView>,
    start: int,
    pend: Seq<usize>,
    rep: Seq<usize>,
    done: Set<int>,
    d: int,
)
    requires
        sweep_inv(t, start, pend, rep, done),
        explored(t, start, d),
    ensures
        !under_any(t, rep, d),
        is_dir(without(t, rep), d),
{
    if under_any(t, rep, d) {
        let i = choose|i: int| 0 <= i < rep.len() && within(t, d, rep[i] as int);
        assert(deleted_ok(t, start, done, rep[i] as int));
        lemma_explored_not_cleared(t, start, d, rep[i] as int);
    }
}

/// A directory taken off the work list that cannot be listed was the
/// starting directory, and nothing else changes.
pub proof fn lemma_inv_skip(
    t: Seq<NodeView>,
    start: int,
    pend: Seq<usize>,
    rep: Seq<usize>,
    done: Set<int>,
)
    requires
        sweep_inv(t, start, pend, rep, done),
        pend.len() > 0,
        !is_dir(without(t, rep), pend.last() as int),
    ensures
        sweep_inv(t, start, pend.drop_last(), rep, done),
{
    let d = pend.last() as int;
    let rest = pend.drop_last();
    if explored(t, start, d) {
        lemma_explored_untouched(t, start, pend, rep, done, d);
    }
    assert forall|i: int| 0 <= i < rest.len() implies #[trigger] waiting_ok(
        t,
        start,
        done,
        rest[i] as int,
    ) by {
        assert(rest[i] == pend[i]);
        assert(waiting_ok(t, start, done, pend[i] as int));
    }
    assert forall|e: int| explored(t, start, e) implies #[trigger] covered(
        t,
        start,
        rest,
        done,
        e,
    ) by {
        assert(covered(t, start, pend, done, e));
        if pend.contains(e as usize) {
            let i = choose|i: int| 0 <= i < pend.len() && pend[i] == e as usize;
            lemma_explored_bounds(t, start, e);
            assert(i < rest.len());
            assert(rest[i] == e as usize);
        }
    }
}

/// `y` is a directory just found in `d` that the sweep is to list.
pub open spec fn found_in(t: Seq<NodeView>, start: int, d: int, y: int) -> bool {
    is_child(t, y, d) && explored(t, start, y)
}

/// Listing the directory `d` at the end of the work list keeps the state of
/// the sweep in order, provided that the new work list `pend2` holds, after
/// what waited before, exactly the directories in `d` that the sweep is to
/// list, and that `rep2` adds to `rep` the directory in `d` that the sweep
/// deletes, if there is one.
pub proof fn lemma_inv_step(
    t: Seq<NodeView>,
    start: int,
    pend: Seq<usize>,
    rep: Seq<usize>,
    done: Set<int>,
    pend2: Seq<usize>,
    rep2: Seq<usize>,
)
    requires
        sweep_inv(t, start, pend, rep, done),
        pend.len() > 0,
        explored(t, start, pend.last() as int),
        pend.len() - 1 <= pend2.len(),
        forall|i: int| 0 <= i < pend.len() - 1 ==> pend2[i] == pend[i],
        forall|i: int|
            pend.len() - 1 <= i < pend2.len() ==> #[trigger] found_in(
                t,
                start,
                pend.last() as int,
                pend2[i] as int,
            ),
        forall|i: int, k: int| pend.len() - 1 <= i < k < pend2.len() ==> pend2[i] != pend2[k],
        forall|e: int|
            #[trigger] found_in(t, start, pend.last() as int, e) && e != start ==> pend2.contains(
                e as usize,
            ),
        rep2 == rep || (rep2 == rep.push(rep2.last()) && swept_target(
            t,
            start,
            rep2.last() as int,
        ) && parent_of(t, rep2.last() as int) == pend.last() && !blocked(
            t,
            rep2.last() as int,
        )),
        forall|r: int|
            #[trigger] swept_target(t, start, r) && parent_of(t, r) == pend.last()
                ==> rep2.contains(r as usize),
    ensures
        sweep_inv(t, start, pend2, rep2, done.insert(pend.last() as int)),
{
    let d = pend.last() as int;
    let n = pend.len() - 1;
    let done2 = done.insert(d);
    lemma_explored_bounds(t, start, d);
    assert(waiting_ok(t, start, done, pend[n] as int));
    // What was deleted stays deleted, and a new deletion is a new directory.
    assert forall|i: int| 0 <= i < rep2.len() implies #[trigger] deleted_ok(
        t,
        start,
        done2,
        rep2[i] as int,
    ) by {
        if i < rep.len() {
            assert(rep2[i] == rep[i]);
            assert(deleted_ok(t, start, done, rep[i] as int));
        }
    }
    assert(rep2.no_duplicates()) by {
        assert forall|i: int, k: int| 0 <= i < rep2.len() && 0 <= k < rep2.len() && i != k implies rep2[i]
            != rep2[k] by {
            if i < rep.len() {
                assert(rep2[i] == rep[i]);
                assert(deleted_ok(t, start, done, rep[i] as int));
            }
            if k < rep.len() {
                assert(rep2[k] == rep[k]);
                assert(deleted_ok(t, start, done, rep[k] as int));
            }
        }
    }
    assert forall|x: int| done2.contains(x) implies #[trigger] done_ok(t, start, done2, x) by {
        if x != d {
            assert(done_ok(t, start, done, x));
        }
    }
    assert forall|r: int|
        #[trigger] swept_target(t, start, r) && done2.contains(parent_of(t, r)) implies rep2.contains(
        r as usize,
    ) by {
        if parent_of(t, r) != d {
            let i = choose|i: int| 0 <= i < rep.len() && rep[i] == r as usize;
            assert(rep2[i] == rep[i]);
        }
    }
    // What waits now has not been listed, and came up in the right way.
    assert forall|i: int| 0 <= i < pend2.len() implies #[trigger] waiting_ok(
        t,
        start,
        done2,
        pend2[i] as int,
    ) by {
        let y = pend2[i] as int;
        if i < n {
            assert(pend2[i] == pend[i]);
            assert(waiting_ok(t, start, done, pend[i] as int));
            assert(pend[i] != pend[n]);
        } else {
            assert(found_in(t, start, d, y));
            assert(parent_ok(t, y));
            if done.contains(y) {
                assert(done_ok(t, start, done, y));
            }
        }
    }
    assert(pend2.no_duplicates()) by {
        assert forall|i: int, k: int| 0 <= i < k < pend2.len() implies pend2[i] != pend2[k] by {
            if k < n {
                assert(pend2[i] == pend[i] && pend2[k] == pend[k]);
            } else if i < n {
                assert(pend2[i] == pend[i]);
                assert(waiting_ok(t, start, done, pend[i] as int));
                assert(found_in(t, start, d, pend2[k] as int));
                assert(parent_ok(t, pend2[k] as int));
            }
        }
    }
    // Nothing that the sweep is to list has been lost.
    assert forall|e: int| explored(t, start, e) implies #[trigger] covered(
        t,
        start,
        pend2,
        done2,
        e,
    ) by {
        assert(covered(t, start, pend, done, e));
        lemma_explored_bounds(t, start, e);
        if done.contains(e) {
        } else if pend.contains(e as usize) {
            let i = choose|i: int| 0 <= i < pend.len() && pend[i] == e as usize;
            if i < n {
                assert(pend2[i] == e as usize);
            }
        } else if parent_of(t, e) == d {
            assert(found_in(t, start, d, e));
        }
    }
}

/// Two directories that the sweep deletes do not lie one under the other.
pub proof fn lemma_swept_targets_apart(t: Seq<NodeView>, start: int, a: int, b: int)
    requires
        well_formed(t),
        swept_target(t, start, a),
        swept_target(t, start, b),
        within(t, a, b),
    ensures
        a == b,
{
    if a != b {
        lemma_swept_target_bounds(t, start, a);
        assert(parent_ok(t, a));
        lemma_explored_not_cleared(t, start, parent_of(t, a), b);
    }
}

/// Of two subtrees that share a node, one holds the other.
pub proof fn lemma_within_chain(t: Seq<NodeView>, k: int, a: int, b: int)
    requires
        within(t, k, a),
        within(t, k, b),
    ensures
        within(t, a, b) || within(t, b, a),
    decreases k,
{
    lemma_within_bounds(t, k, a);
    lemma_within_bounds(t, k, b);
    if k != a && k != b {
        lemma_within_chain(t, parent_of(t, k), a, b);
    }
}

/// Whether a directory that the sweep deletes is blocked has not been
/// changed by the deletions before it.
pub proof fn lemma_blocked_untouched(
    t: Seq<NodeView>,
    start: int,
    pend: Seq<usize>,
    rep: Seq<usize>,
    done: Set<int>,
    c: int,
)
    requires
        sweep_inv(t, start, pend, rep, done),
        swept_target(t, start, c),
        !rep.contains(c as usize),
    ensures
        blocked(without(t, rep), c) == blocked(t, c),
{
    let cur = without(t, rep);
    lemma_without_well_formed(t, rep);
    lemma_swept_target_bounds(t, start, c);
    if blocked(cur, c) {
        let k = choose|k: int| present(cur, k) && cur[k].locked && within(cur, k, c);
        lemma_within_same_shape(t, cur, k, c);
        assert(present(t, k) && t[k].locked && within(t, k, c));
    }
    if blocked(t, c) {
        let k = choose|k: int| present(t, k) && t[k].locked && within(t, k, c);
        lemma_within_same_shape(t, cur, k, c);
        if under_any(t, rep, k) {
            let i = choose|i: int| 0 <= i < rep.len() && within(t, k, rep[i] as int);
            assert(deleted_ok(t, start, done, rep[i] as int));
            lemma_within_chain(t, k, c, rep[i] as int);
            if within(t, c, rep[i] as int) {
                lemma_swept_targets_apart(t, start, c, rep[i] as int);
            } else {
                lemma_swept_targets_apart(t, start, rep[i] as int, c);
            }
            assert(rep[i] == c as usize);
        }
        assert(present(cur, k) && cur[k].locked && within(cur, k, c));
    }
}

/// Listing the directory at the end of the work list and resolving what was
/// found keeps the state of the sweep in order. Where an output
/// directory is to be deleted, it is one that the sweep deletes, it is there
/// to be deleted, and the state is in order once it is gone.
pub proof fn lemma_inv_visit(
    t: Seq<NodeView>,
    start: int,
    pend: Seq<usize>,
    rep: Seq<usize>,
    done: Set<int>,
)
    requires
        sweep_inv(t, start, pend, rep, done),
        pend.len() > 0,
        is_dir(without(t, rep), pend.last() as int),
    ensures
        ({
            let d = pend.last() as int;
            let cur = without(t, rep);
            let res = resolution(pend.drop_last(), Some(children(cur, d)));
            let done2 = done.insert(d);
            &&& !done.contains(d)
            &&& 0 <= d < t.len()
            &&& match res.1 {
                Some(c) => {
                    &&& reported_ok(t, start, rep.push(c))
                    &&& is_dir(cur, c as int)
                    &&& blocked(cur, c as int) == blocked(t, c as int)
                    &&& !blocked(t, c as int) ==> sweep_inv(t, start, res.0, rep.push(c), done2)
                },
                None => sweep_inv(t, start, res.0, rep, done2),
            }
        }),
{
    let d = pend.last() as int;
    let n = pend.len() - 1;
    let cur = without(t, rep);
    let q0 = pend.drop_last();
    lemma_without_well_formed(t, rep);
    assert(waiting_ok(t, start, done, pend[n] as int));
    assert(explored(t, start, d));
    lemma_explored_bounds(t, start, d);
    assert forall|c: int| 0 <= c < t.len() implies is_child(cur, c, d) == is_child(t, c, d) by {
        if is_child(t, c, d) && under_any(t, rep, c) {
            let i = choose|i: int| 0 <= i < rep.len() && within(t, c, rep[i] as int);
            let r = rep[i] as int;
            assert(deleted_ok(t, start, done, r));
            if c != r {
                assert(within(t, d, r));
                lemma_explored_not_cleared(t, start, d, r);
            }
        }
    }
    lemma_listing_same(t, cur, d, t.len() as int);
    lemma_scan_listing(t, d, t.len() as int, q0);
    let found = scan(children(t, d), RustProject::fresh(), q0);
    let res = resolution(q0, Some(children(cur, d)));
    assert(scan_matches(t, d, t.len() as int, q0, found));
    assert(found.0.root == has_manifest(t, d)) by {
        if has_manifest(t, d) {
            let c = choose|c: int| manifest_in(t, c, d);
            assert(0 <= c < t.len() && manifest_in(t, c, d));
        }
    }
    assert forall|x: int| target_in(t, x, d) implies found.0.target == Some(x as usize) by {
        let c = found.0.target->0 as int;
        assert(!name_clash(t, c, x));
    }
    // What the scan has queued are the plain directories in `d`.
    assert forall|i: int| n <= i < found.1.len() implies #[trigger] found_in(
        t,
        start,
        d,
        found.1[i] as int,
    ) by {
        let y = found.1[i] as int;
        assert(plain_dir_in(t, y, d));
        assert(parent_ok(t, y));
    }
    let rep2 = match res.1 {
        Some(c) => rep.push(c),
        None => rep,
    };
    if let Some(c) = found.0.target {
        assert(target_in(t, c as int, d));
        assert(parent_ok(t, c as int));
        assert(is_dir(cur, c as int)) by {
            assert(is_child(cur, c as int, d));
        }
        if found.0.root {
            assert(swept_target(t, start, c as int));
            assert(!rep.contains(c)) by {
                if rep.contains(c) {
                    let i = choose|i: int| 0 <= i < rep.len() && rep[i] == c;
                    assert(deleted_ok(t, start, done, rep[i] as int));
                }
            }
            lemma_blocked_untouched(t, start, pend, rep, done, c as int);
            assert(reported_ok(t, start, rep.push(c))) by {
                assert forall|i: int| 0 <= i < rep.push(c).len() implies swept_target(
                    t,
                    start,
                    #[trigger] rep.push(c)[i] as int,
                ) by {
                    if i < rep.len() {
                        assert(deleted_ok(t, start, done, rep[i] as int));
                    }
                }
                assert forall|i: int, k: int|
                    0 <= i < rep.push(c).len() && 0 <= k < rep.push(c).len() && i
                        != k implies rep.push(c)[i] != rep.push(c)[k] by {
                    if i < rep.len() && k < rep.len() {
                    } else if i < rep.len() {
                        assert(rep[i] == rep.push(c)[i]);
                    } else {
                        assert(rep[k] == rep.push(c)[k]);
                    }
                }
            }
        }
    }
    if res.1 is None || !blocked(t, res.1->0 as int) {
        let pend2 = res.0;
        assert(rep2.last() == res.1->0 || rep2 == rep);
        assert forall|i: int| n <= i < pend2.len() implies #[trigger] found_in(
            t,
            start,
            d,
            pend2[i] as int,
        ) by {
            if i < found.1.len() {
                assert(pend2[i] == found.1[i]);
                assert(found_in(t, start, d, found.1[i] as int));
            }
        }
        assert forall|i: int, k: int| n <= i < k < pend2.len() implies pend2[i] != pend2[k] by {
            if k < found.1.len() {
                assert(pend2[i] == found.1[i] && pend2[k] == found.1[k]);
            } else {
                assert(pend2[i] == found.1[i]);
                assert(plain_dir_in(t, found.1[i] as int, d));
            }
        }
        assert forall|e: int| #[trigger] found_in(t, start, d, e) && e != start implies pend2.contains(
            e as usize,
        ) by {
            lemma_explored_bounds(t, start, e);
            if plain_dir_in(t, e, d) {
                let i = choose|i: int| n <= i < found.1.len() && found.1[i] == e;
                assert(pend2[i] == e as usize);
            } else {
                assert(target_in(t, e, d));
                assert(pend2[found.1.len() as int] == e as usize);
            }
        }
        assert forall|r: int|
            #[trigger] swept_target(t, start, r) && parent_of(t, r) == d implies rep2.contains(
            r as usize,
        ) by {
            assert(target_in(t, r, d));
            assert(rep2[rep.len() as int] == r as usize);
        }
        assert forall|i: int| 0 <= i < n implies pend2[i] == pend[i] by {
            assert(found.1[i] == q0[i]);
        }
        lemma_inv_step(t, start, pend, rep, done, pend2, rep2);
    }
}

/// Once the work list is empty, every directory that the sweep lists has
/// been listed.
pub proof fn lemma_all_listed(
    t: Seq<NodeView>,
    start: int,
    rep: Seq<usize>,
    done: Set<int>,
    e: int,
)
    requires
        sweep_inv(t, start, Seq::empty(), rep, done),
        explored(t, start, e),
    ensures
        done.contains(e),
    decreases e,
{
    assert(covered(t, start, Seq::empty(), done, e));
    if !done.contains(e) {
        lemma_all_listed(t, start, rep, done, parent_of(t, e));
    }
}

/// Once the work list is empty, the sweep is complete: every directory that
/// it deletes has been deleted, none was blocked, and the tree is the swept
/// tree.
pub proof fn lemma_inv_finished(t: Seq<NodeView>, start: int, rep: Seq<usize>, done: Set<int>)
    requires
        sweep_inv(t, start, Seq::empty(), rep, done),
    ensures
        reported_ok(t, start, rep),
        forall|r: int| #[trigger] swept_target(t, start, r) ==> rep.contains(r as usize),
        forall|r: int| #[trigger] swept_target(t, start, r) ==> !blocked(t, r),
        without(t, rep) == swept(t, start),
{
    assert forall|i: int| 0 <= i < rep.len() implies swept_target(
        t,
        start,
        #[trigger] rep[i] as int,
    ) by {
        assert(deleted_ok(t, start, done, rep[i] as int));
    }
    assert forall|r: int| #[trigger] swept_target(t, start, r) implies rep.contains(r as usize)
        && !blocked(t, r) by {
        lemma_all_listed(t, start, rep, done, parent_of(t, r));
        let i = choose|i: int| 0 <= i < rep.len() && rep[i] == r as usize;
        lemma_swept_target_bounds(t, start, r);
        assert(deleted_ok(t, start, done, rep[i] as int));
    }
    assert forall|j: int| 0 <= j < t.len() implies under_any(t, rep, j) == cleared(
        t,
        start,
        j,
    ) by {
        if under_any(t, rep, j) {
            let i = choose|i: int| 0 <= i < rep.len() && within(t, j, rep[i] as int);
            assert(deleted_ok(t, start, done, rep[i] as int));
        }
        if cleared(t, start, j) {
            let r = choose|r: int| swept_target(t, start, r) && within(t, j, r);
            lemma_swept_target_bounds(t, start, r);
            let i = choose|i: int| 0 <= i < rep.len() && rep[i] == r as usize;
            assert(within(t, j, rep[i] as int));
        }
    }
    assert(without(t, rep) =~= swept(t, start));
}

} // verus!

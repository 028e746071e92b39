//! The sweep itself, run on a tree in memory.

use vstd::prelude::*;
use crate::model::{blocked, lemma_without_push, swept, swept_target, well_formed, without};
use crate::progress::{
    lemma_done_bounded, lemma_inv_finished, lemma_inv_init, lemma_inv_skip, lemma_inv_visit,
    reported_ok, sweep_inv,
};
use crate::sweep::{removal_outcome, FailedToRemoveError, Sweep};
use crate::tree::DirTree;

verus! {

/// Sweeps `tree` from the directory `path`: lists `path` and every directory
/// found on the way down, deletes the output directory of each project root
/// among them, and descends into the other directories, an output directory
/// without a manifest beside it included.
///
/// Returns the directories it set out to delete, in that order, and how the
/// sweep ended. It ends with `Ok` when every one of them is gone; the tree is
/// then the swept tree. It ends with an error at the first that could not be
/// deleted, which is the last one returned; what was deleted before it stays
/// deleted, and nothing else has changed.
pub fn remove_target_directories(tree: &mut DirTree, path: usize) -> (outcome: (
    Vec<usize>,
    Result<(), FailedToRemoveError<usize>>,
))
    requires
        well_formed(old(tree)@),
    ensures
        well_formed(final(tree)@),
        reported_ok(old(tree)@, path as int, outcome.0@),
        outcome.1 is Ok <==> forall|r: int| #[trigger]
            swept_target(old(tree)@, path as int, r) ==> !blocked(old(tree)@, r),
        outcome.1 is Ok ==> final(tree)@ == swept(old(tree)@, path as int) && forall|r: usize| #[trigger]
            swept_target(old(tree)@, path as int, r as int) ==> outcome.0@.contains(r),
        outcome.1 matches Err(error) ==> outcome.0@.len() > 0 && error.0 == outcome.0@.last()
            && blocked(old(tree)@, error.0 as int) && final(tree)@ == without(
            old(tree)@,
            outcome.0@.drop_last(),
        ),
{
    let ghost t0 = tree@;
    let ghost start = path as int;
    let ghost mut done: Set<int> = Set::empty();
    let mut reported: Vec<usize> = Vec::new();
    let mut sweep = Sweep::new(path);
    proof {
        tree.lemma_len_fits();
        lemma_inv_init(t0, path);
        assert(without(t0, reported@) =~= t0);
    }
    loop
        invariant
            start == path as int,
            t0 == old(tree)@,
            sweep_inv(t0, start, sweep@, reported@, done),
            tree@ == without(t0, reported@),
            well_formed(tree@),
        decreases t0.len() - done.len(), sweep@.len(),
    {
        let ghost pend = sweep@;
        let ghost rep = reported@;
        let dir = match sweep.next_directory() {
            Some(dir) => dir,
            None => {
                proof {
                    assert(pend =~= Seq::empty());
                    lemma_inv_finished(t0, start, rep, done);
                }
                return (reported, Ok(()));
            },
        };
        let listing = tree.read_dir(dir);
        let ghost listed = listing is Some;
        proof {
            lemma_done_bounded(t0, start, pend, rep, done);
            if listed {
                lemma_inv_visit(t0, start, pend, rep, done);
            } else {
                lemma_inv_skip(t0, start, pend, rep, done);
            }
        }
        match sweep.resolve(listing) {
            Some(target) => {
                reported.push(target);
                let removed = tree.remove_dir_all(target);
                match removal_outcome(target, removed) {
                    Ok(()) => {
                        proof {
                            lemma_without_push(t0, rep, target);
                            done = done.insert(dir as int);
                            lemma_done_bounded(t0, start, sweep@, reported@, done);
                        }
                    },
                    Err(error) => {
                        proof {
                            assert(reported@.drop_last() =~= rep);
                            assert(swept_target(t0, start, reported@[rep.len() as int] as int));
                        }
                        return (reported, Err(error));
                    },
                }
            },
            None => {
                proof {
                    if listed {
                        done = done.insert(dir as int);
                        lemma_done_bounded(t0, start, sweep@, reported@, done);
                    }
                }
            },
        }
    }
}

} // verus!

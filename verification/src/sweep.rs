//! The work list of one sweep and the decisions taken between two calls to
//! the file system: which directory to list next, what a listing leads to,
//! and what a failed removal means.

use vstd::prelude::*;
use vstd::string::StringExecFns;
use crate::entry::{views, Entry, EntryView};
use crate::project::{scan, scan_entries, RustProject};

verus! {

/// The output directory that could not be removed.
#[derive(Debug, PartialEq, Eq)]
pub struct FailedToRemoveError<P>(pub P);

/// The directories one sweep has still to explore. The last one is explored
/// next.
pub struct Sweep<P> {
    too_explore: Vec<P>,
}

impl<P> View for Sweep<P> {
    type V = Seq<P>;

    closed spec fn view(&self) -> Seq<P> {
        self.too_explore@
    }
}

/// What a listing looks like to the rule: its entries' views, or nothing
/// where the directory could not be listed.
pub open spec fn listing_view<P>(listing: Option<Vec<Entry<P>>>) -> Option<Seq<EntryView<P>>> {
    match listing {
        Some(entries) => Some(views(entries@)),
        None => None,
    }
}

/// What follows from the listing of one directory: the directories pending
/// afterwards, and the output directory to delete, if there is one.
///
/// A directory that could not be listed changes nothing. Otherwise its
/// plain subdirectories are queued; its output directory is to be deleted if
/// the directory holds a manifest, and is queued after the subdirectories if
/// not.
pub open spec fn resolution<P>(pending: Seq<P>, listing: Option<Seq<EntryView<P>>>) -> (
    Seq<P>,
    Option<P>,
) {
    match listing {
        None => (pending, None),
        Some(entries) => {
            let found = scan(entries, RustProject::fresh(), pending);
            match found.0.target {
                Some(target) => if found.0.root {
                    (found.1, Some(target))
                } else {
                    (found.1.push(target), None)
                },
                None => (found.1, None),
            }
        },
    }
}

impl<P> Sweep<P> {
    /// A sweep that has only its starting directory to explore.
    pub fn new(path: P) -> (sweep: Self)
        ensures
            sweep@ == seq![path],
    {
        let mut too_explore = Vec::new();
        too_explore.push(path);
        Sweep { too_explore }
    }

    /// Takes the directory to list next off the work list; `None` when the
    /// sweep is complete.
    pub fn next_directory(&mut self) -> (dir: Option<P>)
        ensures
            old(self)@.len() == 0 ==> dir is None && final(self)@ == old(self)@,
            old(self)@.len() > 0 ==> dir == Some(old(self)@.last()) && final(self)@ == old(
                self,
            )@.drop_last(),
    {
        self.too_explore.pop()
    }

    /// Takes in the listing of the directory that `next_directory` handed
    /// out, `None` if it could not be listed, and returns the output
    /// directory that is now to be deleted, if any.
    pub fn resolve(&mut self, listing: Option<Vec<Entry<P>>>) -> (doomed: Option<P>)
        ensures
            (final(self)@, doomed) == resolution(old(self)@, listing_view(listing)),
    {
        match listing {
            None => None,
            Some(entries) => {
                let project = scan_entries(entries, &mut self.too_explore);
                match project.target {
                    Some(target) => {
                        if project.root {
                            Some(target)
                        } else {
                            self.too_explore.push(target);
                            None
                        }
                    },
                    None => None,
                }
            },
        }
    }
}

/// What the attempt to remove `target` means for the sweep: it goes on if
/// the directory is gone, and ends with an error naming the directory if not.
pub fn removal_outcome<P>(target: P, removed: bool) -> (outcome: Result<
    (),
    FailedToRemoveError<P>,
>)
    ensures
        removed ==> outcome is Ok,
        !removed ==> outcome == Err::<(), FailedToRemoveError<P>>(FailedToRemoveError(target)),
{
    if removed {
        Ok(())
    } else {
        Err(FailedToRemoveError(target))
    }
}

/// The text of the message for a failed removal, given the path as it is to
/// be shown.
pub open spec fn failure_text(shown: Seq<char>) -> Seq<char> {
    "Failed to remove directory: "@ + shown + "\n"@
}

/// The message for a failed removal: a fixed lead, the path as shown, and a
/// line end.
pub fn failure_message(shown: &str) -> (message: String)
    ensures
        message@ == failure_text(shown@),
{
    let mut message = String::from_str("Failed to remove directory: ");
    message.append(shown);
    message.append("\n");
    message
}

} // verus!

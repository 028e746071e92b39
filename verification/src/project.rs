//! The record kept while one directory is scanned, and the rule that files
//! each child of that directory into it.

use vstd::prelude::*;
use crate::entry::{
    same_name, views, Entry, EntryKind, EntryView, MANIFEST_NAME, OUTPUT_NAME,
};

verus! {

/// What the scan of one directory has found so far.
#[derive(Debug)]
pub struct RustProject<P> {
    /// A regular file named `Cargo.toml` was seen among the children.
    pub root: bool,
    /// The child directory named `target` that was seen last, if any.
    pub target: Option<P>,
}

impl<P> RustProject<P> {
    /// The record of a directory none of whose children has been looked at.
    pub open spec fn fresh() -> Self {
        RustProject { root: false, target: None }
    }

    /// A record with nothing found yet.
    pub fn new() -> (project: Self)
        ensures
            project == Self::fresh(),
    {
        RustProject { root: false, target: None }
    }
}

/// Whether `entry` is a manifest: a regular file named `Cargo.toml`.
pub open spec fn is_manifest<P>(entry: EntryView<P>) -> bool {
    entry.kind == EntryKind::File && entry.name == MANIFEST_NAME@
}

/// Whether `entry` is an output directory: a directory named `target`.
pub open spec fn is_output_dir<P>(entry: EntryView<P>) -> bool {
    entry.kind == EntryKind::Directory && entry.name == OUTPUT_NAME@
}

/// Whether `entry` is a directory to descend into: any directory that is
/// not an output directory.
pub open spec fn is_plain_dir<P>(entry: EntryView<P>) -> bool {
    entry.kind == EntryKind::Directory && entry.name != OUTPUT_NAME@
}

/// The effect of one child on the record and on the list of directories
/// still to explore.
pub open spec fn classify<P>(entry: EntryView<P>, project: RustProject<P>, pending: Seq<P>) -> (
    RustProject<P>,
    Seq<P>,
) {
    if is_manifest(entry) {
        (RustProject { root: true, target: project.target }, pending)
    } else if is_output_dir(entry) {
        (RustProject { root: project.root, target: Some(entry.path) }, pending)
    } else if is_plain_dir(entry) {
        (project, pending.push(entry.path))
    } else {
        (project, pending)
    }
}

/// The effect of a whole listing, its children taken in order.
pub open spec fn scan<P>(entries: Seq<EntryView<P>>, project: RustProject<P>, pending: Seq<P>) -> (
    RustProject<P>,
    Seq<P>,
)
    decreases entries.len(),
{
    if entries.len() == 0 {
        (project, pending)
    } else {
        let before = scan(entries.drop_last(), project, pending);
        classify(entries.last(), before.0, before.1)
    }
}

/// Files one child of the directory being scanned: a manifest marks the
/// directory as a project root, an output directory is remembered in place of
/// any seen before, another directory is queued, anything else is ignored.
pub fn process_entry<P>(entry: Entry<P>, too_explore: &mut Vec<P>, project: &mut RustProject<P>)
    ensures
        (*final(project), final(too_explore)@) == classify(
            entry@,
            *old(project),
            old(too_explore)@,
        ),
{
    match entry.kind {
        EntryKind::File => {
            if same_name(entry.name.as_str(), MANIFEST_NAME) {
                project.root = true;
            }
        },
        EntryKind::Directory => {
            if same_name(entry.name.as_str(), OUTPUT_NAME) {
                project.target = Some(entry.path);
            } else {
                too_explore.push(entry.path);
            }
        },
        EntryKind::Other => {},
    }
}

/// Scans a directory: files each child in turn, starting from a fresh record.
pub fn scan_entries<P>(entries: Vec<Entry<P>>, too_explore: &mut Vec<P>) -> (project: RustProject<P>)
    ensures
        (project, final(too_explore)@) == scan(
            views(entries@),
            RustProject::fresh(),
            old(too_explore)@,
        ),
{
    let mut project = RustProject::new();
    let ghost all = views(entries@);
    for entry in it: entries
        invariant
            views(it.seq()) == all,
            (project, too_explore@) == scan(
                all.take(it.index() as int),
                RustProject::fresh(),
                old(too_explore)@,
            ),
    {
        proof {
            let upto = all.take(it.index() as int + 1);
            assert(upto.drop_last() == all.take(it.index() as int));
            assert(upto.last() == entry@);
        }
        process_entry(entry, too_explore, &mut project);
    }
    assert(all.take(all.len() as int) == all);
    project
}

} // verus!

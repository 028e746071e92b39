//! Directory entries as the sweep sees them: a name, a kind and a handle.

use vstd::prelude::*;
use vstd::utf8::{encode_utf8, encode_utf8_decode_utf8};

verus! {

/// Name of the manifest file that marks a directory as a project root.
pub const MANIFEST_NAME: &'static str = "Cargo.toml";

/// Name of the build-output directory.
pub const OUTPUT_NAME: &'static str = "target";

/// What the file system reports an entry to be, without following links.
#[derive(Clone, Copy, Debug, PartialEq, Eq, Structural)]
pub enum EntryKind {
    /// A regular file.
    File,
    /// A directory.
    Directory,
    /// Anything else: a link, a device, or an entry whose metadata could not be read.
    Other,
}

/// One child of a scanned directory. `path` is whatever the caller uses to
/// name the entry again later; the sweep only carries it around.
#[derive(Debug)]
pub struct Entry<P> {
    pub name: String,
    pub kind: EntryKind,
    pub path: P,
}

/// An entry with its name as text.
pub struct EntryView<P> {
    pub name: Seq<char>,
    pub kind: EntryKind,
    pub path: P,
}

impl<P> View for Entry<P> {
    type V = EntryView<P>;

    open spec fn view(&self) -> EntryView<P> {
        EntryView { name: self.name@, kind: self.kind, path: self.path }
    }
}

/// The views of a listing's entries, in the listing's order.
pub open spec fn views<P>(entries: Seq<Entry<P>>) -> Seq<EntryView<P>> {
    entries.map_values(|e: Entry<P>| e@)
}

/// Whether two names are the same text.
pub fn same_name(a: &str, b: &str) -> (same: bool)
    ensures
        same == (a@ == b@),
{
    let x = a.as_bytes();
    let y = b.as_bytes();
    proof {
        encode_utf8_decode_utf8(a@);
        encode_utf8_decode_utf8(b@);
    }
    if x.len() != y.len() {
        return false;
    }
    let mut i: usize = 0;
    while i < x.len()
        invariant
            i <= x.len(),
            x.len() == y.len(),
            x@ == encode_utf8(a@),
            y@ == encode_utf8(b@),
            forall|k: int| 0 <= k < i ==> x@[k] == y@[k],
        decreases x.len() - i,
    {
        if x[i] != y[i] {
            return false;
        }
        i += 1;
    }
    assert(x@ =~= y@);
    true
}

} // verus!

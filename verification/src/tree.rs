//! A directory tree held in memory. It can be listed and pruned the way a
//! file system can, which makes it the ground on which a sweep is specified,
//! proved and tried out.

use vstd::prelude::*;
use crate::entry::{same_name, views, Entry, EntryKind};
use crate::model::{
    blocked, children, entry_at, is_child, is_dir, lemma_without_well_formed, listing, name_clash,
    parent_ok, present, well_formed, within, without, NodeView,
};

verus! {

struct Node {
    name: String,
    kind: EntryKind,
    parent: Option<usize>,
    removed: bool,
    locked: bool,
}

impl View for Node {
    type V = NodeView;

    closed spec fn view(&self) -> NodeView {
        NodeView {
            name: self.name@,
            kind: self.kind,
            parent: match self.parent {
                Some(p) => Some(p as int),
                None => None,
            },
            removed: self.removed,
            locked: self.locked,
        }
    }
}

/// A forest of directory trees. A node is named by the number that `add`
/// returned for it, and keeps that number when other nodes are removed.
pub struct DirTree {
    nodes: Vec<Node>,
}

impl View for DirTree {
    type V = Seq<NodeView>;

    closed spec fn view(&self) -> Seq<NodeView> {
        Seq::new(self.nodes@.len(), |j: int| self.nodes@[j]@)
    }
}

/// A node named `name` can be added under `parent`: there is no parent, or
/// the parent is a directory that holds no child of that name.
pub open spec fn can_hold(t: Seq<NodeView>, parent: Option<usize>, name: Seq<char>) -> bool {
    match parent {
        Some(p) => is_dir(t, p as int) && forall|c: int|
            is_child(t, c, p as int) ==> t[c].name != name,
        None => true,
    }
}

/// The node that `add` appends.
pub open spec fn new_node(parent: Option<usize>, name: Seq<char>, kind: EntryKind) -> NodeView {
    NodeView {
        name,
        kind,
        parent: match parent {
            Some(p) => Some(p as int),
            None => None,
        },
        removed: false,
        locked: false,
    }
}

/// The tree with node `j` locked.
pub open spec fn with_lock(t: Seq<NodeView>, j: int) -> Seq<NodeView> {
    t.update(
        j,
        NodeView {
            name: t[j].name,
            kind: t[j].kind,
            parent: t[j].parent,
            removed: t[j].removed,
            locked: true,
        },
    )
}

impl DirTree {
    /// A forest without any node.
    pub fn new() -> (tree: Self)
        ensures
            tree@ == Seq::<NodeView>::empty(),
    {
        let tree = DirTree { nodes: Vec::new() };
        assert(tree@ =~= Seq::<NodeView>::empty());
        tree
    }

    /// The nodes of a tree can be counted in a `usize`.
    pub proof fn lemma_len_fits(&self)
        ensures
            self@.len() <= usize::MAX,
    {
        assert(self.nodes@.len() == self.nodes.len());
    }

    /// The number of nodes ever added.
    pub fn len(&self) -> (n: usize)
        ensures
            n == self@.len(),
    {
        self.nodes.len()
    }

    /// Whether `node` is in the tree and has not been removed.
    pub fn contains(&self, node: usize) -> (found: bool)
        ensures
            found == present(self@, node as int),
    {
        node < self.nodes.len() && !self.nodes[node].removed
    }

    /// Adds a node under `parent`, or a new root where `parent` is `None`,
    /// and returns its number. Nothing is added, and `None` returned, where
    /// `parent` is not a directory of the tree or already holds a child of
    /// that name.
    pub fn add(&mut self, parent: Option<usize>, name: &str, kind: EntryKind) -> (node: Option<
        usize,
    >)
        requires
            well_formed(old(self)@),
        ensures
            well_formed(final(self)@),
            node is Some <==> can_hold(old(self)@, parent, name@),
            node matches Some(j) ==> j == old(self)@.len() && final(self)@ == old(self)@.push(
                new_node(parent, name@, kind),
            ),
            node is None ==> final(self)@ == old(self)@,
    {
        let ghost before = self@;
        if let Some(p) = parent {
            if p >= self.nodes.len() || self.nodes[p].removed {
                return None;
            }
            match self.nodes[p].kind {
                EntryKind::Directory => {},
                _ => {
                    return None;
                },
            }
            let mut c: usize = 0;
            while c < self.nodes.len()
                invariant
                    c <= self.nodes.len(),
                    self@ == before,
                    well_formed(before),
                    parent == Some(p),
                    is_dir(before, p as int),
                    forall|k: int|
                        0 <= k < c && is_child(before, k, p as int) ==> before[k].name != name@,
                decreases self.nodes.len() - c,
            {
                let sibling = !self.nodes[c].removed && match self.nodes[c].parent {
                    Some(q) => q == p,
                    None => false,
                };
                if sibling && same_name(self.nodes[c].name.as_str(), name) {
                    assert(is_child(before, c as int, p as int));
                    return None;
                }
                c += 1;
            }
        }
        let j = self.nodes.len();
        self.nodes.push(
            Node { name: name.to_owned(), kind, parent, removed: false, locked: false },
        );
        proof {
            let after = self@;
            assert(after =~= before.push(new_node(parent, name@, kind)));
            assert forall|k: int| #![trigger after[k]] 0 <= k < after.len() implies parent_ok(
                after,
                k,
            ) by {
                if k < before.len() {
                    assert(parent_ok(before, k));
                }
            }
            assert forall|i: int, k: int| !#[trigger] name_clash(after, i, k) by {
                assert(!name_clash(before, i, k));
                if name_clash(after, i, k) {
                    if i == j {
                        assert(is_child(before, k, parent->0 as int));
                    } else {
                        assert(is_child(before, i, parent->0 as int));
                    }
                }
            }
        }
        Some(j)
    }

    /// Locks `node`, so that neither it nor a directory above it can be
    /// removed. A number that names no node changes nothing.
    pub fn protect(&mut self, node: usize)
        requires
            well_formed(old(self)@),
        ensures
            well_formed(final(self)@),
            node < old(self)@.len() ==> final(self)@ == with_lock(old(self)@, node as int),
            node >= old(self)@.len() ==> final(self)@ == old(self)@,
    {
        if node < self.nodes.len() {
            let ghost before = self@;
            self.nodes[node].locked = true;
            proof {
                let after = self@;
                assert(after =~= with_lock(before, node as int));
                assert forall|k: int| #![trigger after[k]] 0 <= k < after.len() implies parent_ok(
                    after,
                    k,
                ) by {
                    assert(parent_ok(before, k));
                }
                assert forall|i: int, k: int| !#[trigger] name_clash(after, i, k) by {
                    assert(!name_clash(before, i, k));
                }
            }
        }
    }

    /// Lists the directory `dir`: its children in the order in which they
    /// were added, each with its number as its path. `None` where `dir` is
    /// not a directory of the tree.
    pub fn read_dir(&self, dir: usize) -> (found: Option<Vec<Entry<usize>>>)
        ensures
            found is Some <==> is_dir(self@, dir as int),
            found matches Some(entries) ==> views(entries@) == children(self@, dir as int),
    {
        if dir >= self.nodes.len() || self.nodes[dir].removed {
            return None;
        }
        match self.nodes[dir].kind {
            EntryKind::Directory => {},
            _ => {
                return None;
            },
        }
        let mut entries: Vec<Entry<usize>> = Vec::new();
        let mut c: usize = 0;
        assert(views(entries@) =~= listing(self@, dir as int, 0));
        while c < self.nodes.len()
            invariant
                c <= self.nodes.len(),
                views(entries@) == listing(self@, dir as int, c as int),
            decreases self.nodes.len() - c,
        {
            let child = !self.nodes[c].removed && match self.nodes[c].parent {
                Some(q) => q == dir,
                None => false,
            };
            if child {
                let ghost listed = entries@;
                let entry = Entry {
                    name: self.nodes[c].name.clone(),
                    kind: self.nodes[c].kind,
                    path: c,
                };
                assert(entry@ == entry_at(self@, c as int));
                entries.push(entry);
                assert(views(entries@) =~= views(listed).push(entry@));
            }
            c += 1;
        }
        Some(entries)
    }

    /// Removes the directory `target` with all that lies under it, and says
    /// whether it did. Nothing is removed where `target` is not a directory
    /// of the tree, or where something in or under it is locked.
    pub fn remove_dir_all(&mut self, target: usize) -> (removed: bool)
        requires
            well_formed(old(self)@),
        ensures
            well_formed(final(self)@),
            removed <==> is_dir(old(self)@, target as int) && !blocked(old(self)@, target as int),
            removed ==> final(self)@ == without(old(self)@, seq![target]),
            !removed ==> final(self)@ == old(self)@,
    {
        let n = self.nodes.len();
        if target >= n || self.nodes[target].removed {
            return false;
        }
        match self.nodes[target].kind {
            EntryKind::Directory => {},
            _ => {
                return false;
            },
        }
        let ghost before = self@;
        let mut inside: Vec<bool> = Vec::new();
        let mut stuck = false;
        let mut j: usize = 0;
        while j < n
            invariant
                j <= n,
                n == self.nodes.len(),
                inside.len() == j,
                self@ == before,
                well_formed(before),
                forall|k: int| 0 <= k < j ==> inside[k] == within(before, k, target as int),
                stuck ==> blocked(before, target as int),
                !stuck ==> forall|k: int|
                    0 <= k < j && present(before, k) && before[k].locked ==> !within(
                        before,
                        k,
                        target as int,
                    ),
            decreases n - j,
        {
            assert(parent_ok(before, j as int));
            let hit = j == target || match self.nodes[j].parent {
                Some(p) => inside[p],
                None => false,
            };
            assert(hit == within(before, j as int, target as int));
            if hit && !self.nodes[j].removed && self.nodes[j].locked {
                stuck = true;
            }
            inside.push(hit);
            j += 1;
        }
        if stuck {
            return false;
        }
        assert(!blocked(before, target as int)) by {
            if blocked(before, target as int) {
                let k = choose|k: int|
                    present(before, k) && before[k].locked && within(before, k, target as int);
                assert(false);
            }
        }
        let ghost pruned = without(before, seq![target]);
        j = 0;
        while j < n
            invariant
                j <= n,
                n == self.nodes.len(),
                n == before.len(),
                inside.len() == n,
                pruned == without(before, seq![target]),
                forall|k: int| 0 <= k < n ==> inside[k] == within(before, k, target as int),
                forall|k: int| 0 <= k < j ==> self@[k] == pruned[k],
                forall|k: int| j <= k < n ==> self@[k] == before[k],
            decreases n - j,
        {
            proof {
                if inside[j as int] {
                    assert(within(before, j as int, seq![target][0] as int));
                }
            }
            if inside[j] {
                self.nodes[j].removed = true;
            }
            j += 1;
        }
        proof {
            assert(self@ =~= pruned);
            lemma_without_well_formed(before, seq![target]);
        }
        true
    }
}

} // verus!

use target_sweeper::entry::EntryKind;
use target_sweeper::tree::DirTree;

fn names_and_paths(tree: &DirTree, dir: usize) -> Option<Vec<(String, EntryKind, usize)>> {
    let entries = tree.read_dir(dir)?;
    Some(entries.into_iter().map(|e| (e.name, e.kind, e.path)).collect())
}

#[test]
fn new_tree_is_empty() {
    let tree = DirTree::new();
    assert_eq!(tree.len(), 0);
    assert!(!tree.contains(0));
    assert!(tree.read_dir(0).is_none());
}

#[test]
fn nodes_are_numbered_in_the_order_added() {
    let mut tree = DirTree::new();
    assert_eq!(tree.add(None, "root", EntryKind::Directory), Some(0));
    assert_eq!(tree.add(Some(0), "a", EntryKind::File), Some(1));
    assert_eq!(tree.add(Some(0), "b", EntryKind::Directory), Some(2));
    assert_eq!(tree.add(None, "other", EntryKind::Directory), Some(3));
    assert_eq!(tree.len(), 4);
    for node in 0..4 {
        assert!(tree.contains(node));
    }
    assert!(!tree.contains(4));
}

#[test]
fn add_refuses_a_parent_that_is_no_directory() {
    let mut tree = DirTree::new();
    let root = tree.add(None, "root", EntryKind::Directory).unwrap();
    let file = tree.add(Some(root), "file", EntryKind::File).unwrap();
    let link = tree.add(Some(root), "link", EntryKind::Other).unwrap();
    assert_eq!(tree.add(Some(file), "x", EntryKind::File), None);
    assert_eq!(tree.add(Some(link), "x", EntryKind::File), None);
    assert_eq!(tree.add(Some(17), "x", EntryKind::File), None);
    assert_eq!(tree.len(), 3);
}

#[test]
fn add_refuses_a_name_already_taken_in_the_directory() {
    let mut tree = DirTree::new();
    let root = tree.add(None, "root", EntryKind::Directory).unwrap();
    let sub = tree.add(Some(root), "sub", EntryKind::Directory).unwrap();
    assert_eq!(tree.add(Some(root), "sub", EntryKind::File), None);
    assert_eq!(tree.add(Some(root), "sub", EntryKind::Directory), None);
    // The same name is free in another directory, and in any case.
    assert_eq!(tree.add(Some(sub), "sub", EntryKind::Directory), Some(2));
    assert_eq!(tree.add(Some(root), "Sub", EntryKind::Directory), Some(3));
    assert_eq!(tree.len(), 4);
}

#[test]
fn add_refuses_a_removed_parent_and_frees_removed_names() {
    let mut tree = DirTree::new();
    let root = tree.add(None, "root", EntryKind::Directory).unwrap();
    let sub = tree.add(Some(root), "sub", EntryKind::Directory).unwrap();
    assert!(tree.remove_dir_all(sub));
    assert_eq!(tree.add(Some(sub), "x", EntryKind::File), None);
    assert_eq!(tree.add(Some(root), "sub", EntryKind::File), Some(2));
}

#[test]
fn read_dir_lists_children_in_the_order_added() {
    let mut tree = DirTree::new();
    let root = tree.add(None, "root", EntryKind::Directory).unwrap();
    let a = tree.add(Some(root), "a", EntryKind::Directory).unwrap();
    tree.add(Some(a), "deep", EntryKind::File).unwrap();
    tree.add(Some(root), "b", EntryKind::File).unwrap();
    tree.add(Some(root), "c", EntryKind::Other).unwrap();
    assert_eq!(
        names_and_paths(&tree, root),
        Some(vec![
            ("a".to_owned(), EntryKind::Directory, 1),
            ("b".to_owned(), EntryKind::File, 3),
            ("c".to_owned(), EntryKind::Other, 4),
        ])
    );
    assert_eq!(names_and_paths(&tree, a), Some(vec![("deep".to_owned(), EntryKind::File, 2)]));
}

#[test]
fn read_dir_fails_on_what_is_no_directory() {
    let mut tree = DirTree::new();
    let root = tree.add(None, "root", EntryKind::Directory).unwrap();
    let file = tree.add(Some(root), "file", EntryKind::File).unwrap();
    let link = tree.add(Some(root), "link", EntryKind::Other).unwrap();
    let gone = tree.add(Some(root), "gone", EntryKind::Directory).unwrap();
    assert!(tree.remove_dir_all(gone));
    assert!(tree.read_dir(file).is_none());
    assert!(tree.read_dir(link).is_none());
    assert!(tree.read_dir(gone).is_none());
    assert!(tree.read_dir(99).is_none());
    assert_eq!(names_and_paths(&tree, root).map(|l| l.len()), Some(2));
}

#[test]
fn remove_dir_all_takes_the_whole_subtree_and_nothing_else() {
    let mut tree = DirTree::new();
    let root = tree.add(None, "root", EntryKind::Directory).unwrap();
    let keep = tree.add(Some(root), "keep", EntryKind::Directory).unwrap();
    let out = tree.add(Some(root), "out", EntryKind::Directory).unwrap();
    let kept_file = tree.add(Some(keep), "f", EntryKind::File).unwrap();
    let inner = tree.add(Some(out), "inner", EntryKind::Directory).unwrap();
    let leaf = tree.add(Some(inner), "leaf", EntryKind::File).unwrap();
    let late = tree.add(Some(out), "late", EntryKind::Other).unwrap();
    assert!(tree.remove_dir_all(out));
    for node in [out, inner, leaf, late] {
        assert!(!tree.contains(node));
    }
    for node in [root, keep, kept_file] {
        assert!(tree.contains(node));
    }
    assert_eq!(tree.len(), 7);
    assert_eq!(
        names_and_paths(&tree, root),
        Some(vec![("keep".to_owned(), EntryKind::Directory, 1)])
    );
}

#[test]
fn remove_dir_all_fails_on_what_is_no_directory() {
    let mut tree = DirTree::new();
    let root = tree.add(None, "root", EntryKind::Directory).unwrap();
    let file = tree.add(Some(root), "file", EntryKind::File).unwrap();
    let dir = tree.add(Some(root), "dir", EntryKind::Directory).unwrap();
    assert!(!tree.remove_dir_all(file));
    assert!(!tree.remove_dir_all(42));
    assert!(tree.remove_dir_all(dir));
    assert!(!tree.remove_dir_all(dir));
    assert!(tree.contains(file));
    assert!(tree.contains(root));
}

#[test]
fn locked_node_blocks_removal_of_every_directory_above_it() {
    let mut tree = DirTree::new();
    let root = tree.add(None, "root", EntryKind::Directory).unwrap();
    let out = tree.add(Some(root), "out", EntryKind::Directory).unwrap();
    let inner = tree.add(Some(out), "inner", EntryKind::Directory).unwrap();
    let leaf = tree.add(Some(inner), "leaf", EntryKind::File).unwrap();
    let side = tree.add(Some(out), "side", EntryKind::Directory).unwrap();
    tree.protect(leaf);
    assert!(!tree.remove_dir_all(root));
    assert!(!tree.remove_dir_all(out));
    assert!(!tree.remove_dir_all(inner));
    for node in [root, out, inner, leaf, side] {
        assert!(tree.contains(node));
    }
    assert!(tree.remove_dir_all(side));
    assert!(!tree.contains(side));
}

#[test]
fn protect_of_a_missing_node_changes_nothing() {
    let mut tree = DirTree::new();
    let root = tree.add(None, "root", EntryKind::Directory).unwrap();
    tree.protect(5);
    assert_eq!(tree.len(), 1);
    assert!(tree.remove_dir_all(root));
}

#[test]
fn lock_on_a_removed_node_blocks_nothing() {
    let mut tree = DirTree::new();
    let root = tree.add(None, "root", EntryKind::Directory).unwrap();
    let a = tree.add(Some(root), "a", EntryKind::Directory).unwrap();
    let b = tree.add(Some(root), "b", EntryKind::Directory).unwrap();
    assert!(tree.remove_dir_all(a));
    tree.protect(a);
    assert!(tree.contains(b));
    assert!(tree.remove_dir_all(root));
    assert!(!tree.contains(b));
}

use target_sweeper::entry::{same_name, Entry, EntryKind, MANIFEST_NAME, OUTPUT_NAME};
use target_sweeper::project::{process_entry, scan_entries, RustProject};

fn child(name: &str, kind: EntryKind, path: u32) -> Entry<u32> {
    Entry { name: name.to_owned(), kind, path }
}

fn classified(entry: Entry<u32>) -> (RustProject<u32>, Vec<u32>) {
    let mut queue = vec![1, 2];
    let mut project = RustProject::new();
    process_entry(entry, &mut queue, &mut project);
    (project, queue)
}

#[test]
fn reserved_names_are_cargo_toml_and_target() {
    assert_eq!(MANIFEST_NAME, "Cargo.toml");
    assert_eq!(OUTPUT_NAME, "target");
}

#[test]
fn fresh_record_has_found_nothing() {
    let project: RustProject<u32> = RustProject::new();
    assert!(!project.root);
    assert_eq!(project.target, None);
}

#[test]
fn manifest_file_marks_project_root() {
    let (project, queue) = classified(child("Cargo.toml", EntryKind::File, 9));
    assert!(project.root);
    assert_eq!(project.target, None);
    assert_eq!(queue, vec![1, 2]);
}

#[test]
fn manifest_keeps_target_seen_before() {
    let mut queue: Vec<u32> = Vec::new();
    let mut project = RustProject::new();
    process_entry(child("target", EntryKind::Directory, 4), &mut queue, &mut project);
    process_entry(child("Cargo.toml", EntryKind::File, 5), &mut queue, &mut project);
    assert!(project.root);
    assert_eq!(project.target, Some(4));
    assert!(queue.is_empty());
}

#[test]
fn directory_named_like_manifest_is_queued() {
    let (project, queue) = classified(child("Cargo.toml", EntryKind::Directory, 9));
    assert!(!project.root);
    assert_eq!(project.target, None);
    assert_eq!(queue, vec![1, 2, 9]);
}

#[test]
fn file_named_target_is_ignored() {
    let (project, queue) = classified(child("target", EntryKind::File, 9));
    assert!(!project.root);
    assert_eq!(project.target, None);
    assert_eq!(queue, vec![1, 2]);
}

#[test]
fn other_file_is_ignored() {
    let (project, queue) = classified(child("main.rs", EntryKind::File, 9));
    assert!(!project.root);
    assert_eq!(project.target, None);
    assert_eq!(queue, vec![1, 2]);
}

#[test]
fn entry_of_other_kind_is_ignored_whatever_its_name() {
    for name in ["Cargo.toml", "target", "src"] {
        let (project, queue) = classified(child(name, EntryKind::Other, 9));
        assert!(!project.root);
        assert_eq!(project.target, None);
        assert_eq!(queue, vec![1, 2]);
    }
}

#[test]
fn target_directory_is_remembered_and_not_queued() {
    let (project, queue) = classified(child("target", EntryKind::Directory, 9));
    assert!(!project.root);
    assert_eq!(project.target, Some(9));
    assert_eq!(queue, vec![1, 2]);
}

#[test]
fn last_target_directory_wins() {
    let mut queue: Vec<u32> = Vec::new();
    let mut project = RustProject::new();
    process_entry(child("target", EntryKind::Directory, 4), &mut queue, &mut project);
    process_entry(child("target", EntryKind::Directory, 6), &mut queue, &mut project);
    assert_eq!(project.target, Some(6));
    assert!(!project.root);
    assert!(queue.is_empty());
}

#[test]
fn plain_directory_is_queued_at_the_end() {
    let (project, queue) = classified(child("src", EntryKind::Directory, 9));
    assert!(!project.root);
    assert_eq!(project.target, None);
    assert_eq!(queue, vec![1, 2, 9]);
}

#[test]
fn names_are_compared_exactly() {
    for name in ["cargo.toml", "Cargo.toml ", "Cargo.tom", "Cargo.toml.bak", ""] {
        let (project, _) = classified(child(name, EntryKind::File, 9));
        assert!(!project.root, "{name:?} is no manifest");
    }
    for name in ["Target", "targets", "targe", " target", "target\u{fffd}"] {
        let (project, queue) = classified(child(name, EntryKind::Directory, 9));
        assert_eq!(project.target, None, "{name:?} is no output directory");
        assert_eq!(queue, vec![1, 2, 9]);
    }
}

#[test]
fn same_name_tells_equal_from_unequal_text() {
    assert!(same_name("", ""));
    assert!(same_name("target", "target"));
    assert!(same_name("Cargo.toml", MANIFEST_NAME));
    assert!(same_name("caf\u{e9}", "caf\u{e9}"));
    assert!(!same_name("target", "targer"));
    assert!(!same_name("target", "targets"));
    assert!(!same_name("targets", "target"));
    assert!(!same_name("", "a"));
    assert!(!same_name("caf\u{e9}", "cafe"));
    assert!(!same_name("caf\u{e9}", "caf\u{e8}"));
}

#[test]
fn scan_of_empty_listing_finds_nothing() {
    let mut queue = vec![3u32];
    let project = scan_entries(Vec::new(), &mut queue);
    assert!(!project.root);
    assert_eq!(project.target, None);
    assert_eq!(queue, vec![3]);
}

#[test]
fn scan_files_each_child_in_order() {
    let listing = vec![
        child("src", EntryKind::Directory, 10),
        child("target", EntryKind::Directory, 11),
        child("README.md", EntryKind::File, 12),
        child("Cargo.toml", EntryKind::File, 13),
        child("link", EntryKind::Other, 14),
        child("benches", EntryKind::Directory, 15),
    ];
    let mut queue = vec![3u32];
    let project = scan_entries(listing, &mut queue);
    assert!(project.root);
    assert_eq!(project.target, Some(11));
    assert_eq!(queue, vec![3, 10, 15]);
}

#[test]
fn scan_starts_from_a_fresh_record_each_time() {
    let mut queue: Vec<u32> = Vec::new();
    let first = scan_entries(vec![child("Cargo.toml", EntryKind::File, 1)], &mut queue);
    let second = scan_entries(vec![child("target", EntryKind::Directory, 2)], &mut queue);
    assert!(first.root);
    assert_eq!(first.target, None);
    assert!(!second.root);
    assert_eq!(second.target, Some(2));
}

use target_sweeper::entry::{Entry, EntryKind};
use target_sweeper::sweep::{failure_message, removal_outcome, FailedToRemoveError, Sweep};

fn item(name: &str, kind: EntryKind, path: &str) -> Entry<String> {
    Entry { name: name.to_owned(), kind, path: path.to_owned() }
}

/// A small file system by path: what listing `dir` gives.
fn listing_of(dir: &str) -> Option<Vec<Entry<String>>> {
    match dir {
        "ws" => Some(vec![
            item("member_a", EntryKind::Directory, "ws/member_a"),
            item("member_b", EntryKind::Directory, "ws/member_b"),
            item("notes.txt", EntryKind::File, "ws/notes.txt"),
        ]),
        "ws/member_a" => Some(vec![
            item("Cargo.toml", EntryKind::File, "ws/member_a/Cargo.toml"),
            item("target", EntryKind::Directory, "ws/member_a/target"),
        ]),
        "ws/member_b" => Some(vec![
            item("target", EntryKind::Directory, "ws/member_b/target"),
            item("src", EntryKind::Directory, "ws/member_b/src"),
            item("Cargo.toml", EntryKind::File, "ws/member_b/Cargo.toml"),
        ]),
        "ws/member_b/src" => Some(Vec::new()),
        _ => None,
    }
}

#[test]
fn new_sweep_hands_out_its_start_then_nothing() {
    let mut sweep = Sweep::new("start".to_owned());
    assert_eq!(sweep.next_directory(), Some("start".to_owned()));
    assert_eq!(sweep.next_directory(), None);
    assert_eq!(sweep.next_directory(), None);
}

#[test]
fn unlistable_directory_changes_nothing() {
    let mut sweep = Sweep::new(1u32);
    assert_eq!(sweep.resolve(None), None);
    assert_eq!(sweep.next_directory(), Some(1));
    assert_eq!(sweep.resolve(None), None);
    assert_eq!(sweep.next_directory(), None);
}

#[test]
fn empty_directory_changes_nothing() {
    let mut sweep = Sweep::new(1u32);
    assert_eq!(sweep.next_directory(), Some(1));
    assert_eq!(sweep.resolve(Some(Vec::new())), None);
    assert_eq!(sweep.next_directory(), None);
}

#[test]
fn directories_leave_the_work_list_last_in_first_out() {
    let mut sweep = Sweep::new(0u32);
    assert_eq!(sweep.next_directory(), Some(0));
    let listing = vec![
        Entry { name: "a".to_owned(), kind: EntryKind::Directory, path: 1 },
        Entry { name: "b".to_owned(), kind: EntryKind::Directory, path: 2 },
        Entry { name: "c".to_owned(), kind: EntryKind::Directory, path: 3 },
    ];
    assert_eq!(sweep.resolve(Some(listing)), None);
    assert_eq!(sweep.next_directory(), Some(3));
    assert_eq!(sweep.next_directory(), Some(2));
    assert_eq!(sweep.next_directory(), Some(1));
    assert_eq!(sweep.next_directory(), None);
}

#[test]
fn project_root_hands_out_its_target_for_deletion() {
    let mut sweep = Sweep::new(0u32);
    assert_eq!(sweep.next_directory(), Some(0));
    let listing = vec![
        Entry { name: "target".to_owned(), kind: EntryKind::Directory, path: 1 },
        Entry { name: "src".to_owned(), kind: EntryKind::Directory, path: 2 },
        Entry { name: "Cargo.toml".to_owned(), kind: EntryKind::File, path: 3 },
    ];
    assert_eq!(sweep.resolve(Some(listing)), Some(1));
    assert_eq!(sweep.next_directory(), Some(2));
    assert_eq!(sweep.next_directory(), None);
}

#[test]
fn target_without_manifest_is_listed_next() {
    let mut sweep = Sweep::new(0u32);
    assert_eq!(sweep.next_directory(), Some(0));
    let listing = vec![
        Entry { name: "target".to_owned(), kind: EntryKind::Directory, path: 1 },
        Entry { name: "src".to_owned(), kind: EntryKind::Directory, path: 2 },
        Entry { name: "docs".to_owned(), kind: EntryKind::Directory, path: 3 },
    ];
    assert_eq!(sweep.resolve(Some(listing)), None);
    assert_eq!(sweep.next_directory(), Some(1));
    // The outer `target` is a directory like any other now: a `target`
    // inside it is judged by what lies beside it.
    let inner = vec![
        Entry { name: "target".to_owned(), kind: EntryKind::Directory, path: 4 },
        Entry { name: "Cargo.toml".to_owned(), kind: EntryKind::File, path: 5 },
    ];
    assert_eq!(sweep.resolve(Some(inner)), Some(4));
    assert_eq!(sweep.next_directory(), Some(3));
    assert_eq!(sweep.next_directory(), Some(2));
    assert_eq!(sweep.next_directory(), None);
}

#[test]
fn manifest_without_target_yields_nothing() {
    let mut sweep = Sweep::new(0u32);
    assert_eq!(sweep.next_directory(), Some(0));
    let listing = vec![
        Entry { name: "Cargo.toml".to_owned(), kind: EntryKind::File, path: 1 },
        Entry { name: "src".to_owned(), kind: EntryKind::Directory, path: 2 },
    ];
    assert_eq!(sweep.resolve(Some(listing)), None);
    assert_eq!(sweep.next_directory(), Some(2));
    assert_eq!(sweep.next_directory(), None);
}

#[test]
fn successful_removal_lets_the_sweep_go_on() {
    assert_eq!(removal_outcome("ws/target".to_owned(), true), Ok(()));
}

#[test]
fn failed_removal_names_the_directory() {
    assert_eq!(
        removal_outcome("ws/target".to_owned(), false),
        Err(FailedToRemoveError("ws/target".to_owned()))
    );
    let FailedToRemoveError(path) = removal_outcome(7u32, false).unwrap_err();
    assert_eq!(path, 7);
}

#[test]
fn failure_message_frames_the_shown_path() {
    assert_eq!(
        failure_message("\"root/target\""),
        "Failed to remove directory: \"root/target\"\n"
    );
    assert_eq!(failure_message(""), "Failed to remove directory: \n");
}

#[test]
fn steps_drive_a_sweep_over_paths() {
    let mut deleted: Vec<String> = Vec::new();
    let mut listed: Vec<String> = Vec::new();
    let mut sweep = Sweep::new("ws".to_owned());
    while let Some(dir) = sweep.next_directory() {
        let listing = listing_of(&dir);
        listed.push(dir);
        if let Some(target) = sweep.resolve(listing) {
            deleted.push(target.clone());
            assert_eq!(removal_outcome(target, true), Ok(()));
        }
    }
    assert_eq!(listed, vec!["ws", "ws/member_b", "ws/member_b/src", "ws/member_a"]);
    assert_eq!(deleted, vec!["ws/member_b/target", "ws/member_a/target"]);
}

#[test]
fn steps_stop_at_the_first_failed_removal() {
    let mut attempted: Vec<String> = Vec::new();
    let mut sweep = Sweep::new("ws".to_owned());
    let mut result = Ok(());
    while let Some(dir) = sweep.next_directory() {
        if let Some(target) = sweep.resolve(listing_of(&dir)) {
            attempted.push(target.clone());
            result = removal_outcome(target, false);
            if result.is_err() {
                break;
            }
        }
    }
    assert_eq!(result, Err(FailedToRemoveError("ws/member_b/target".to_owned())));
    assert_eq!(attempted, vec!["ws/member_b/target"]);
}

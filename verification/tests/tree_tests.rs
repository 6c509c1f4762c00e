use fswhy::model::{RawEntry, ScanError};
use fswhy::scan::scan;
use fswhy::ui_state::{Action, UiState};

fn entry(path: &str, size: u64, is_dir: bool, parent: usize) -> RawEntry {
    RawEntry { path: path.to_string(), size, is_dir, parent }
}

/// The tree `root/ (a.txt 10B, sub/ (b.txt 20B))` in preorder.
fn sample_entries() -> Vec<RawEntry> {
    vec![
        entry("root", 0, true, 0),
        entry("root/a.txt", 10, false, 0),
        entry("root/sub", 0, true, 0),
        entry("root/sub/b.txt", 20, false, 2),
    ]
}

#[test]
fn sizes_aggregate_recursively() {
    let tree = scan(&sample_entries()).unwrap();
    assert_eq!(tree.len(), 4);
    assert_eq!(tree.node(0).size(), 30);
    assert_eq!(tree.node(1).size(), 10);
    assert_eq!(tree.node(2).size(), 20);
    assert_eq!(tree.node(3).size(), 20);
}

#[test]
fn kinds_and_paths_are_kept() {
    let tree = scan(&sample_entries()).unwrap();
    assert!(tree.node(0).kind().is_dir());
    assert!(!tree.node(1).kind().is_dir());
    assert!(tree.node(2).kind().is_dir());
    assert_eq!(tree.node(0).path(), "root");
    assert_eq!(tree.node(3).path(), "root/sub/b.txt");
}

#[test]
fn directory_children_are_recorded() {
    let tree = scan(&sample_entries()).unwrap();
    match tree.node(0).kind() {
        fswhy::model::NodeKind::Directory(p) => {
            assert_eq!(p.children(), &vec![1usize, 2usize]);
        }
        fswhy::model::NodeKind::File => panic!("root must be a directory"),
    }
}

#[test]
fn empty_input_is_rejected() {
    let entries: Vec<RawEntry> = Vec::new();
    assert_eq!(scan(&entries).unwrap_err(), ScanError::NoEntries);
}

#[test]
fn forward_parent_link_is_rejected() {
    let entries = vec![
        entry("root", 0, true, 0),
        entry("root/a", 0, true, 2),
        entry("root/b", 5, false, 0),
    ];
    assert_eq!(scan(&entries).unwrap_err(), ScanError::InvalidParent);
}

#[test]
fn file_parent_is_rejected() {
    let entries = vec![
        entry("root", 0, true, 0),
        entry("root/a.txt", 1, false, 0),
        entry("root/a.txt/b", 2, false, 1),
    ];
    assert_eq!(scan(&entries).unwrap_err(), ScanError::InvalidParent);
}

#[test]
fn root_that_does_not_name_itself_is_rejected() {
    let entries = vec![entry("root", 0, true, 1)];
    assert_eq!(scan(&entries).unwrap_err(), ScanError::InvalidParent);
}

#[test]
fn aggregated_size_overflow_is_rejected() {
    let entries = vec![
        entry("root", 0, true, 0),
        entry("root/huge", u64::MAX, false, 0),
        entry("root/one", 1, false, 0),
    ];
    assert_eq!(scan(&entries).unwrap_err(), ScanError::SizeOverflow);
}

#[test]
fn largest_fitting_size_is_accepted() {
    let entries = vec![
        entry("root", 0, true, 0),
        entry("root/huge", u64::MAX - 1, false, 0),
        entry("root/one", 1, false, 0),
    ];
    let tree = scan(&entries).unwrap();
    assert_eq!(tree.node(0).size(), u64::MAX);
}

#[test]
fn single_file_root_scans() {
    let entries = vec![entry("notes.txt", 7, false, 0)];
    let tree = scan(&entries).unwrap();
    assert_eq!(tree.len(), 1);
    assert_eq!(tree.node(0).size(), 7);
    assert!(!tree.node(0).kind().is_dir());
    let mut state = UiState::new(&tree);
    let view = state.flatten_view();
    assert_eq!(view.len(), 1);
    assert_eq!(view[0].node, 0);
    assert_eq!(view[0].depth, 0);
    // A lone file cannot be toggled; the session keeps running.
    assert!(state.update(Action::ToggleAtCursor));
    assert!(state.status.as_ref().unwrap().is_error);
}

#[test]
fn scanning_twice_gives_equal_trees() {
    let t1 = scan(&sample_entries()).unwrap();
    let t2 = scan(&sample_entries()).unwrap();
    assert_eq!(t1.len(), t2.len());
    for i in 0..t1.len() {
        assert_eq!(t1.node(i).path(), t2.node(i).path());
        assert_eq!(t1.node(i).size(), t2.node(i).size());
        assert_eq!(t1.node(i).kind().is_dir(), t2.node(i).kind().is_dir());
    }
}

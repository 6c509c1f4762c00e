use fswhy::model::RawEntry;
use fswhy::scan::scan;
use fswhy::ui_state::{Action, UiState};
use fswhy::view::{size_range, ViewItem};

fn entry(path: &str, size: u64, is_dir: bool, parent: usize) -> RawEntry {
    RawEntry { path: path.to_string(), size, is_dir, parent }
}

fn rows(view: &[ViewItem]) -> Vec<(usize, usize)> {
    view.iter().map(|v| (v.node, v.depth)).collect()
}

/// The tree `root/ (a.txt 10B, sub/ (b.txt 20B))` in preorder.
fn sample_entries() -> Vec<RawEntry> {
    vec![
        entry("root", 0, true, 0),
        entry("root/a.txt", 10, false, 0),
        entry("root/sub", 0, true, 0),
        entry("root/sub/b.txt", 20, false, 2),
    ]
}

#[test]
fn initial_view_shows_root_expanded_once() {
    let tree = scan(&sample_entries()).unwrap();
    let state = UiState::new(&tree);
    // Directories come before files, so `sub` precedes `a.txt`;
    // `sub` itself starts collapsed.
    let view = state.flatten_view();
    assert_eq!(rows(&view), vec![(0, 0), (2, 1), (1, 1)]);
    assert_eq!(tree.node(0).size(), 30);
}

#[test]
fn expanding_a_subdirectory_reveals_its_children() {
    let tree = scan(&sample_entries()).unwrap();
    let mut state = UiState::new(&tree);
    // `sub` sits at view index 1 in the default order.
    assert!(state.update(Action::Toggle(1)));
    let view = state.flatten_view();
    assert_eq!(rows(&view), vec![(0, 0), (2, 1), (3, 2), (1, 1)]);
    assert_eq!(state.cursor, 1);
    assert!(state.status.is_none());
}

#[test]
fn default_sort_puts_directories_first_then_paths_ascending() {
    let entries = vec![
        entry("r", 0, true, 0),
        entry("r/zz.txt", 1, false, 0),
        entry("r/x", 0, true, 0),
        entry("r/aa.txt", 2, false, 0),
        entry("r/m", 0, true, 0),
    ];
    let tree = scan(&entries).unwrap();
    let state = UiState::new(&tree);
    let view = state.flatten_view();
    // dirs `r/m`, `r/x` by path, then files `r/aa.txt`, `r/zz.txt`.
    assert_eq!(rows(&view), vec![(0, 0), (4, 1), (2, 1), (3, 1), (1, 1)]);
}

#[test]
fn size_sort_orders_by_size_descending_with_path_tiebreak() {
    let entries = vec![
        entry("r", 0, true, 0),
        entry("r/big.txt", 50, false, 0),
        entry("r/small.txt", 5, false, 0),
        entry("r/alike.txt", 5, false, 0),
    ];
    let tree = scan(&entries).unwrap();
    let mut state = UiState::new(&tree);
    assert!(state.update(Action::ToggleSort));
    let view = state.flatten_view();
    // 50 first, then the two 5-byte files in path order.
    assert_eq!(rows(&view), vec![(0, 0), (1, 1), (3, 1), (2, 1)]);
    // Toggling the sort again restores the name order.
    assert!(state.update(Action::ToggleSort));
    let view = state.flatten_view();
    assert_eq!(rows(&view), vec![(0, 0), (3, 1), (1, 1), (2, 1)]);
}

#[test]
fn size_sort_still_puts_directories_before_files() {
    let entries = vec![
        entry("r", 0, true, 0),
        entry("r/big.txt", 500, false, 0),
        entry("r/d1", 0, true, 0),
        entry("r/d1/x.txt", 10, false, 2),
        entry("r/d2", 0, true, 0),
        entry("r/d2/y.txt", 40, false, 4),
    ];
    let tree = scan(&entries).unwrap();
    let mut state = UiState::new(&tree);
    assert!(state.update(Action::ToggleSort));
    let view = state.flatten_view();
    // Directories first, larger first: d2 (40), d1 (10); then the file.
    assert_eq!(rows(&view), vec![(0, 0), (4, 1), (2, 1), (1, 1)]);
}

#[test]
fn collapsing_a_parent_hides_but_does_not_forget() {
    let tree = scan(&sample_entries()).unwrap();
    let mut state = UiState::new(&tree);
    // Expand `sub` (view index 1), then collapse `root` (view index 0).
    assert!(state.update(Action::Toggle(1)));
    assert!(state.update(Action::Toggle(0)));
    let view = state.flatten_view();
    assert_eq!(rows(&view), vec![(0, 0)]);
    // Re-expanding `root` reveals the grandchild exactly as before.
    assert!(state.update(Action::Toggle(0)));
    let view = state.flatten_view();
    assert_eq!(rows(&view), vec![(0, 0), (2, 1), (3, 2), (1, 1)]);
}

#[test]
fn hidden_subtree_is_entirely_absent() {
    let entries = vec![
        entry("r", 0, true, 0),
        entry("r/d", 0, true, 0),
        entry("r/d/e", 0, true, 1),
        entry("r/d/e/f.txt", 3, false, 2),
    ];
    let tree = scan(&entries).unwrap();
    let mut state = UiState::new(&tree);
    // Expand d (view index 1), then e (view index 2).
    assert!(state.update(Action::Toggle(1)));
    assert!(state.update(Action::Toggle(2)));
    let view = state.flatten_view();
    assert_eq!(rows(&view), vec![(0, 0), (1, 1), (2, 2), (3, 3)]);
    // Collapse d: e and f.txt disappear with it, though e stays a member.
    assert!(state.update(Action::Toggle(1)));
    let view = state.flatten_view();
    assert_eq!(rows(&view), vec![(0, 0), (1, 1)]);
    assert!(state.expanded_nodes.contains(&2));
}

#[test]
fn size_range_separates_directories_and_files() {
    let tree = scan(&sample_entries()).unwrap();
    let state = UiState::new(&tree);
    let view = state.flatten_view();
    // Visible dirs: root (30) and sub (20); visible files: a.txt (10).
    assert_eq!(size_range(&tree, &view, true), Some((20, 30)));
    assert_eq!(size_range(&tree, &view, false), Some((10, 10)));
}

#[test]
fn size_range_is_none_without_rows_of_the_kind() {
    let entries = vec![entry("r", 0, true, 0), entry("r/d", 0, true, 0)];
    let tree = scan(&entries).unwrap();
    let state = UiState::new(&tree);
    let view = state.flatten_view();
    assert_eq!(size_range(&tree, &view, false), None);
    assert_eq!(size_range(&tree, &view, true), Some((0, 0)));
}

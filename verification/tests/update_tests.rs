use fswhy::model::RawEntry;
use fswhy::scan::scan;
use fswhy::ui_state::{Action, UiState};

fn entry(path: &str, size: u64, is_dir: bool, parent: usize) -> RawEntry {
    RawEntry { path: path.to_string(), size, is_dir, parent }
}

/// The tree `root/ (a.txt 10B, sub/ (b.txt 20B))` in preorder.
fn sample_entries() -> Vec<RawEntry> {
    vec![
        entry("root", 0, true, 0),
        entry("root/a.txt", 10, false, 0),
        entry("root/sub", 0, true, 0),
        entry("root/sub/b.txt", 20, false, 2),
    ]
}

/// A root with fourteen empty subdirectories: a 15-row view.
fn wide_entries() -> Vec<RawEntry> {
    let mut entries = vec![entry("r", 0, true, 0)];
    let names = [
        "r/d01", "r/d02", "r/d03", "r/d04", "r/d05", "r/d06", "r/d07", "r/d08", "r/d09", "r/d10",
        "r/d11", "r/d12", "r/d13", "r/d14",
    ];
    for name in names {
        entries.push(entry(name, 0, true, 0));
    }
    entries
}

fn sorted_expanded(state: &UiState) -> Vec<usize> {
    let mut e = state.expanded_nodes.clone();
    e.sort();
    e
}

#[test]
fn cursor_saturates_at_both_ends() {
    let tree = scan(&sample_entries()).unwrap();
    let mut state = UiState::new(&tree);
    assert!(state.update(Action::MoveUp));
    assert_eq!(state.cursor, 0);
    assert!(state.update(Action::MoveDown));
    assert_eq!(state.cursor, 1);
    assert!(state.update(Action::MoveDown));
    assert!(state.update(Action::MoveDown));
    assert!(state.update(Action::MoveDown));
    assert_eq!(state.cursor, 2);
    assert!(state.update(Action::MoveUp));
    assert_eq!(state.cursor, 1);
}

#[test]
fn toggling_a_file_is_a_recoverable_error() {
    let tree = scan(&sample_entries()).unwrap();
    let mut state = UiState::new(&tree);
    // Move the cursor onto `a.txt`, the last of the three rows.
    assert!(state.update(Action::MoveDown));
    assert!(state.update(Action::MoveDown));
    let expanded_before = sorted_expanded(&state);
    let cursor_before = state.cursor;
    assert!(state.update(Action::ToggleAtCursor));
    let status = state.status.as_ref().unwrap();
    assert!(status.is_error);
    assert_eq!(status.text, "only a directory can be toggled");
    assert_eq!(sorted_expanded(&state), expanded_before);
    assert_eq!(state.cursor, cursor_before);
}

#[test]
fn toggle_out_of_range_index_is_a_recoverable_error() {
    let tree = scan(&sample_entries()).unwrap();
    let mut state = UiState::new(&tree);
    let expanded_before = sorted_expanded(&state);
    assert!(state.update(Action::Toggle(99)));
    let status = state.status.as_ref().unwrap();
    assert!(status.is_error);
    assert_eq!(status.text, "index not found");
    assert_eq!(sorted_expanded(&state), expanded_before);
    assert_eq!(state.cursor, 0);
}

#[test]
fn toggling_twice_restores_membership_but_views_differ() {
    let tree = scan(&sample_entries()).unwrap();
    let mut state = UiState::new(&tree);
    let expanded_before = sorted_expanded(&state);
    let view_before: Vec<usize> = state.flatten_view().iter().map(|v| v.node).collect();
    assert!(state.update(Action::Toggle(1)));
    let view_middle: Vec<usize> = state.flatten_view().iter().map(|v| v.node).collect();
    assert_ne!(view_before, view_middle);
    assert!(state.update(Action::Toggle(1)));
    assert_eq!(sorted_expanded(&state), expanded_before);
    let view_after: Vec<usize> = state.flatten_view().iter().map(|v| v.node).collect();
    assert_eq!(view_before, view_after);
}

#[test]
fn typed_index_toggles_and_moves_the_cursor() {
    let tree = scan(&wide_entries()).unwrap();
    let mut state = UiState::new(&tree);
    assert_eq!(state.flatten_view().len(), 15);
    assert!(state.update(Action::InputDigit('1')));
    assert!(state.update(Action::InputDigit('2')));
    assert_eq!(state.input_buffer, vec![b'1', b'2']);
    assert!(state.update(Action::Enter));
    assert_eq!(state.cursor, 12);
    assert!(state.input_buffer.is_empty());
    assert!(state.status.is_none());
    // View index 12 names the directory `r/d12`, arena index 12.
    assert!(state.expanded_nodes.contains(&12));
}

#[test]
fn typed_out_of_range_index_sets_an_error_and_clears_the_buffer() {
    let tree = scan(&wide_entries()).unwrap();
    let mut state = UiState::new(&tree);
    let expanded_before = sorted_expanded(&state);
    assert!(state.update(Action::InputDigit('9')));
    assert!(state.update(Action::InputDigit('9')));
    assert!(state.update(Action::Enter));
    let status = state.status.as_ref().unwrap();
    assert!(status.is_error);
    assert_eq!(status.text, "index not found");
    assert_eq!(sorted_expanded(&state), expanded_before);
    assert!(state.input_buffer.is_empty());
}

#[test]
fn overlong_typed_index_is_invalid() {
    let tree = scan(&sample_entries()).unwrap();
    let mut state = UiState::new(&tree);
    for _ in 0..25 {
        assert!(state.update(Action::InputDigit('9')));
    }
    assert!(state.update(Action::Enter));
    let status = state.status.as_ref().unwrap();
    assert!(status.is_error);
    assert_eq!(status.text, "invalid index");
    assert!(state.input_buffer.is_empty());
}

#[test]
fn enter_with_empty_buffer_toggles_at_the_cursor() {
    let tree = scan(&sample_entries()).unwrap();
    let mut state = UiState::new(&tree);
    // Cursor on `sub` (view index 1).
    assert!(state.update(Action::MoveDown));
    assert!(state.update(Action::Enter));
    assert!(state.status.is_none());
    assert!(state.expanded_nodes.contains(&2));
    assert_eq!(state.flatten_view().len(), 4);
}

#[test]
fn non_digit_input_is_ignored_but_clears_the_status() {
    let tree = scan(&sample_entries()).unwrap();
    let mut state = UiState::new(&tree);
    assert!(state.update(Action::Toggle(99)));
    assert!(state.status.is_some());
    assert!(state.update(Action::InputDigit('x')));
    assert!(state.input_buffer.is_empty());
    assert!(state.status.is_none());
}

#[test]
fn backspace_drops_the_last_digit() {
    let tree = scan(&sample_entries()).unwrap();
    let mut state = UiState::new(&tree);
    assert!(state.update(Action::InputDigit('4')));
    assert!(state.update(Action::InputDigit('7')));
    assert!(state.update(Action::InputBackspace));
    assert_eq!(state.input_buffer, vec![b'4']);
    assert!(state.update(Action::InputBackspace));
    assert!(state.input_buffer.is_empty());
    assert!(state.update(Action::InputBackspace));
    assert!(state.input_buffer.is_empty());
}

#[test]
fn navigation_clears_stale_input() {
    let tree = scan(&sample_entries()).unwrap();
    let mut state = UiState::new(&tree);
    assert!(state.update(Action::InputDigit('3')));
    assert!(state.update(Action::MoveDown));
    assert!(state.input_buffer.is_empty());
    assert!(state.update(Action::InputDigit('3')));
    assert!(state.update(Action::ToggleSort));
    assert!(state.input_buffer.is_empty());
}

#[test]
fn toggling_the_sort_keeps_the_cursor() {
    let tree = scan(&sample_entries()).unwrap();
    let mut state = UiState::new(&tree);
    assert!(state.update(Action::MoveDown));
    assert!(state.update(Action::MoveDown));
    assert_eq!(state.cursor, 2);
    assert!(state.update(Action::ToggleSort));
    assert_eq!(state.cursor, 2);
    assert_eq!(state.flatten_view().len(), 3);
}

#[test]
fn collapsing_the_root_clamps_the_cursor() {
    let tree = scan(&sample_entries()).unwrap();
    let mut state = UiState::new(&tree);
    assert!(state.update(Action::MoveDown));
    assert!(state.update(Action::MoveDown));
    assert_eq!(state.cursor, 2);
    // Collapsing root shrinks the view to one row.
    assert!(state.update(Action::Toggle(0)));
    assert_eq!(state.cursor, 0);
    assert_eq!(state.flatten_view().len(), 1);
}

#[test]
fn quit_ends_the_session_and_changes_nothing() {
    let tree = scan(&sample_entries()).unwrap();
    let mut state = UiState::new(&tree);
    assert!(state.update(Action::MoveDown));
    let cursor_before = state.cursor;
    let expanded_before = sorted_expanded(&state);
    assert!(!state.update(Action::Quit));
    assert_eq!(state.cursor, cursor_before);
    assert_eq!(sorted_expanded(&state), expanded_before);
}

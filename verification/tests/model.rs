use cleard::model::{filter_matches, AppState, Candidate, SortMode};

fn cand(id: usize, path: &str, eco: &str, size: Option<u64>, mtime: Option<i128>) -> Candidate {
    let mut c = Candidate::new(id, path.to_string(), eco.to_string());
    c.size = size;
    c.mtime = mtime;
    c
}

fn sample() -> AppState {
    let mut app = AppState::new("/root".to_string(), false, 0);
    app.push(cand(0, "/root/a/node_modules", "Node", Some(100), Some(50)));
    app.push(cand(1, "/root/b/target", "Rust", Some(300), Some(10)));
    app.push(cand(2, "/root/a-b/__pycache__", "Python", None, None));
    app.push(cand(3, "/root/c/target", "Rust", Some(300), Some(30)));
    app
}

#[test]
fn new_state_starts_scanning_sorted_by_size() {
    let app = AppState::new("/x".to_string(), true, 7);
    assert_eq!(app.root, "/x");
    assert!(app.dry_run);
    assert_eq!(app.min_size, 7);
    assert_eq!(app.sort, SortMode::Size);
    assert!(app.scanning && app.sizing && !app.deleting);
    assert_eq!(app.cursor, 0);
    assert_eq!(app.reclaimed, 0);
    assert!(app.view_indices().is_empty());
}

#[test]
fn candidate_new_is_unsized_and_unselected() {
    let c = Candidate::new(4, "/p".to_string(), "Go".to_string());
    assert_eq!(c.id, 4);
    assert_eq!(c.size, None);
    assert_eq!(c.mtime, None);
    assert!(!c.selected && !c.deleted);
}

#[test]
fn sort_mode_cycles_through_three_keys() {
    assert_eq!(SortMode::Size.next(), SortMode::Age);
    assert_eq!(SortMode::Age.next(), SortMode::Path);
    assert_eq!(SortMode::Path.next(), SortMode::Size);
    let m = SortMode::Age;
    assert_eq!(m.next().next().next(), m);
    assert_eq!(SortMode::Size.label(), "size");
    assert_eq!(SortMode::Age.label(), "age");
    assert_eq!(SortMode::Path.label(), "path");
}

#[test]
fn size_order_is_largest_first_and_stable() {
    let app = sample();
    // 300 (id 1), 300 (id 3, found later), 100, unsized counts as 0.
    assert_eq!(app.view_indices(), vec![1, 3, 0, 2]);
    assert_eq!(app.found_count(), 4);
}

#[test]
fn age_order_is_oldest_first_unknown_last() {
    let mut app = sample();
    app.sort = SortMode::Age;
    assert_eq!(app.view_indices(), vec![1, 3, 0, 2]);
    app.set_size(1, 300, Some(99));
    assert_eq!(app.view_indices(), vec![3, 0, 1, 2]);
}

#[test]
fn path_order_is_component_wise() {
    let mut app = sample();
    app.sort = SortMode::Path;
    // "/root/a" < "/root/a-b" < "/root/b" < "/root/c" component by component,
    // although '-' sorts before '/' character by character.
    assert_eq!(app.view_indices(), vec![0, 2, 1, 3]);
}

#[test]
fn min_size_hides_small_and_unsized_rows() {
    let mut app = sample();
    app.min_size = 200;
    assert_eq!(app.view_indices(), vec![1, 3]);
    assert_eq!(app.reclaimable(), 600);
    app.min_size = 0;
    assert_eq!(app.reclaimable(), 700);
}

#[test]
fn filter_matches_path_or_ecosystem_ignoring_case() {
    let mut app = sample();
    app.filter = "RUST".to_string();
    assert_eq!(app.view_indices(), vec![1, 3]);
    app.filter = "a-b".to_string();
    assert_eq!(app.view_indices(), vec![2]);
    app.filter = "zzz".to_string();
    assert_eq!(app.found_count(), 0);
}

#[test]
fn set_size_updates_only_the_matching_candidate() {
    let mut app = sample();
    app.set_size(2, 5, Some(1));
    assert_eq!(app.get(2).size, Some(5));
    assert_eq!(app.get(2).mtime, Some(1));
    assert_eq!(app.get(0).size, Some(100));
    app.set_size(42, 1, None);
    assert_eq!(app.get(3).size, Some(300));
}

#[test]
fn deletion_targets_prefer_selection_then_focus() {
    let mut app = sample();
    // Nothing selected: the focused row (cursor 0 -> id 1).
    assert_eq!(app.deletion_targets(), vec![1]);
    app.candidate_mut(0).selected = true;
    app.candidate_mut(3).selected = true;
    // Selected rows, in display order.
    assert_eq!(app.deletion_targets(), vec![3, 0]);
    app.candidate_mut(3).deleted = true;
    assert_eq!(app.deletion_targets(), vec![0]);
    app.clear_selection();
    app.cursor = 1;
    // Focused row 3 is deleted: nothing to delete.
    assert!(app.deletion_targets().is_empty());
}

#[test]
fn select_all_then_targets_are_every_live_row() {
    let mut app = sample();
    app.candidate_mut(0).deleted = true;
    app.select_all_in_view();
    assert!(!app.get(0).selected);
    assert!(app.get(1).selected && app.get(2).selected && app.get(3).selected);
    assert_eq!(app.deletion_targets(), vec![1, 3, 2]);
    assert_eq!(app.selected_summary(), (3, 600));
}

#[test]
fn clamp_keeps_cursor_on_a_row() {
    let mut app = sample();
    app.cursor = 10;
    app.clamp_cursor();
    assert_eq!(app.cursor, 3);
    assert_eq!(app.focused_index(), Some(2));
    let mut empty = AppState::new("/".to_string(), false, 0);
    empty.cursor = 5;
    empty.clamp_cursor();
    assert_eq!(empty.cursor, 0);
    assert_eq!(empty.focused_index(), None);
}

#[test]
fn reclaimable_skips_deleted_rows() {
    let mut app = sample();
    app.candidate_mut(1).deleted = true;
    assert_eq!(app.reclaimable(), 400);
}

#[test]
fn filter_text_matching() {
    let key: Vec<char> = "rust".chars().collect();
    assert!(filter_matches("/root/b/target", "rust", &key));
    assert!(filter_matches("/root/rusty/x", "go", &key));
    assert!(!filter_matches("/root/b/target", "node", &key));
    assert!(filter_matches("/anything", "node", &[]));
}

#[test]
fn empty_filter_shows_every_sized_row() {
    let mut app = sample();
    app.filter = String::new();
    assert_eq!(app.found_count(), 4);
    app.min_size = 1;
    assert_eq!(app.view_indices(), vec![1, 3, 0]);
}

#[test]
fn path_order_follows_path_components() {
    let mut app = AppState::new("/r".to_string(), false, 0);
    app.push(cand(0, "/r/-x", "Node", Some(1), None));
    app.push(cand(1, "/r/../b", "Node", Some(1), None));
    app.push(cand(2, "/r/./a/.", "Node", Some(1), None));
    app.push(cand(3, "/r/a", "Node", Some(1), None));
    app.push(cand(4, "r//a", "Node", Some(1), None));
    app.push(cand(5, "./r", "Node", Some(1), None));
    app.sort = SortMode::Path;
    // Rooted paths first; `..` before any name; `.` in the middle or at the
    // end is no component, so `/r/./a/.` equals `/r/a` and keeps its place;
    // a leading `.` of a relative path comes before names.
    assert_eq!(app.view_indices(), vec![1, 0, 2, 3, 5, 4]);
}

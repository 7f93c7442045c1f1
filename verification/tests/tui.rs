use cleard::model::{AppState, Candidate, SortMode};
use cleard::scanner::ScanMsg;
use cleard::tui::events::{Action, KeyCode, KeyPress, Mode};
use cleard::tui::{apply, handle, job_report, DeleteJob, Step};

fn key(code: KeyCode) -> KeyPress {
    KeyPress { code, control: false }
}

fn app_with(n: usize) -> AppState {
    let mut app = AppState::new("/r".to_string(), false, 0);
    for i in 0..n {
        let mut c = Candidate::new(i, format!("/r/p{i}/node_modules"), "Node".to_string());
        c.size = Some(10 * (i as u64 + 1));
        app.push(c);
    }
    app
}

#[test]
fn keys_map_per_mode() {
    assert!(matches!(cleard::tui::events::map(Mode::Normal, key(KeyCode::Char('q'))), Action::Quit));
    assert!(matches!(cleard::tui::events::map(Mode::Normal, KeyPress { code: KeyCode::Char('c'), control: true }), Action::Quit));
    assert!(matches!(cleard::tui::events::map(Mode::Normal, key(KeyCode::Char('c'))), Action::ClearSelection));
    assert!(matches!(cleard::tui::events::map(Mode::Normal, key(KeyCode::Enter)), Action::DeleteFocused));
    assert!(matches!(cleard::tui::events::map(Mode::Normal, key(KeyCode::Char('d'))), Action::RequestDelete));
    assert!(matches!(cleard::tui::events::map(Mode::Normal, key(KeyCode::Delete)), Action::RequestDelete));
    assert!(matches!(cleard::tui::events::map(Mode::Normal, key(KeyCode::Char('j'))), Action::Down));
    assert!(matches!(cleard::tui::events::map(Mode::Normal, key(KeyCode::Other)), Action::Nothing));
    assert!(matches!(cleard::tui::events::map(Mode::Confirm, key(KeyCode::Char('Y'))), Action::ConfirmYes));
    assert!(matches!(cleard::tui::events::map(Mode::Confirm, key(KeyCode::Esc)), Action::ConfirmNo));
    assert!(matches!(cleard::tui::events::map(Mode::Help, key(KeyCode::Char('q'))), Action::Quit));
    assert!(matches!(cleard::tui::events::map(Mode::Help, key(KeyCode::Char('x'))), Action::ToggleHelp));
    assert!(matches!(cleard::tui::events::map(Mode::Filter, key(KeyCode::Char('q'))), Action::FilterInput('q')));
    assert!(matches!(cleard::tui::events::map(Mode::Filter, key(KeyCode::Esc)), Action::FilterClear));
}

#[test]
fn moving_the_cursor_stays_in_the_view() {
    let mut app = app_with(3);
    let (mut mode, mut status, mut pending) = (Mode::Normal, None, Vec::new());
    handle(Action::Up, &mut app, &mut mode, &mut status, &mut pending);
    assert_eq!(app.cursor, 0);
    for _ in 0..5 {
        handle(Action::Down, &mut app, &mut mode, &mut status, &mut pending);
    }
    assert_eq!(app.cursor, 2);
    handle(Action::Top, &mut app, &mut mode, &mut status, &mut pending);
    assert_eq!(app.cursor, 0);
    handle(Action::Bottom, &mut app, &mut mode, &mut status, &mut pending);
    assert_eq!(app.cursor, 2);
}

#[test]
fn toggle_select_keeps_the_cursor() {
    let mut app = app_with(2);
    let (mut mode, mut status, mut pending) = (Mode::Normal, None, Vec::new());
    // Sorted by size: index 1 (20 bytes) is first.
    handle(Action::ToggleSelect, &mut app, &mut mode, &mut status, &mut pending);
    assert!(app.get(1).selected);
    assert_eq!(app.cursor, 0);
    handle(Action::ToggleSelect, &mut app, &mut mode, &mut status, &mut pending);
    assert!(!app.get(1).selected);
}

#[test]
fn delete_asks_then_hands_out_jobs() {
    let mut app = app_with(2);
    let (mut mode, mut status, mut pending) = (Mode::Normal, None, Vec::new());
    let step = handle(Action::RequestDelete, &mut app, &mut mode, &mut status, &mut pending);
    assert!(matches!(step, Step::Continue));
    assert_eq!(mode, Mode::Confirm);
    assert_eq!(pending, vec![1]);
    let step = handle(Action::ConfirmYes, &mut app, &mut mode, &mut status, &mut pending);
    match step {
        Step::Delete(jobs) => {
            assert_eq!(jobs.len(), 1);
            assert_eq!(jobs[0].id, 1);
            assert_eq!(jobs[0].path, "/r/p1/node_modules");
            assert_eq!(jobs[0].size, 20);
        }
        _ => panic!("expected a deletion batch"),
    }
    assert!(app.deleting);
    assert_eq!(mode, Mode::Normal);
    assert!(pending.is_empty());
    // While the batch runs, further requests are ignored.
    handle(Action::RequestDelete, &mut app, &mut mode, &mut status, &mut pending);
    assert_eq!(mode, Mode::Normal);
    assert!(status.is_none());
}

#[test]
fn cancel_leaves_everything() {
    let mut app = app_with(1);
    let (mut mode, mut status, mut pending) = (Mode::Normal, None, Vec::new());
    handle(Action::RequestDelete, &mut app, &mut mode, &mut status, &mut pending);
    handle(Action::ConfirmNo, &mut app, &mut mode, &mut status, &mut pending);
    assert_eq!(mode, Mode::Normal);
    assert!(pending.is_empty());
    assert!(!app.deleting && !app.get(0).deleted);
}

#[test]
fn nothing_to_delete_is_reported() {
    let mut app = app_with(0);
    let (mut mode, mut status, mut pending) = (Mode::Normal, None, Vec::new());
    handle(Action::RequestDelete, &mut app, &mut mode, &mut status, &mut pending);
    assert_eq!(status.as_deref(), Some("Nothing to delete."));
    assert_eq!(mode, Mode::Normal);
    handle(Action::Nothing, &mut app, &mut mode, &mut status, &mut pending);
    assert!(status.is_none());
}

#[test]
fn filter_typing_and_clearing() {
    let mut app = app_with(3);
    app.cursor = 2;
    let (mut mode, mut status, mut pending) = (Mode::Normal, None, Vec::new());
    handle(Action::StartFilter, &mut app, &mut mode, &mut status, &mut pending);
    assert_eq!(mode, Mode::Filter);
    handle(Action::FilterInput('p'), &mut app, &mut mode, &mut status, &mut pending);
    handle(Action::FilterInput('2'), &mut app, &mut mode, &mut status, &mut pending);
    assert_eq!(app.filter, "p2");
    assert_eq!(app.cursor, 0);
    assert_eq!(app.view_indices(), vec![2]);
    handle(Action::FilterBackspace, &mut app, &mut mode, &mut status, &mut pending);
    assert_eq!(app.filter, "p");
    handle(Action::FilterClear, &mut app, &mut mode, &mut status, &mut pending);
    assert_eq!(app.filter, "");
    assert_eq!(mode, Mode::Normal);
}

#[test]
fn help_and_sort_toggle() {
    let mut app = app_with(1);
    let (mut mode, mut status, mut pending) = (Mode::Normal, None, Vec::new());
    handle(Action::ToggleHelp, &mut app, &mut mode, &mut status, &mut pending);
    assert_eq!(mode, Mode::Help);
    handle(Action::ToggleHelp, &mut app, &mut mode, &mut status, &mut pending);
    assert_eq!(mode, Mode::Normal);
    handle(Action::CycleSort, &mut app, &mut mode, &mut status, &mut pending);
    assert_eq!(app.sort, SortMode::Age);
    assert!(matches!(handle(Action::Quit, &mut app, &mut mode, &mut status, &mut pending), Step::Quit));
}

#[test]
fn reports_update_the_list() {
    let mut app = AppState::new("/r".to_string(), false, 0);
    let mut status = None;
    apply(&mut app, ScanMsg::Found(Candidate::new(7, "/r/x/target".to_string(), "Rust".to_string())), &mut status);
    apply(&mut app, ScanMsg::Sized { id: 7, bytes: 64, mtime: Some(5) }, &mut status);
    assert_eq!(app.get(0).size, Some(64));
    apply(&mut app, ScanMsg::ScanDone, &mut status);
    apply(&mut app, ScanMsg::SizingDone, &mut status);
    assert!(!app.scanning && !app.sizing);
    app.deleting = true;
    apply(&mut app, ScanMsg::DeleteFailed { id: 7, error: "boom".to_string() }, &mut status);
    assert_eq!(status.as_deref(), Some("boom"));
    apply(&mut app, ScanMsg::DeleteFailed { id: 7, error: "later".to_string() }, &mut status);
    assert_eq!(status.as_deref(), Some("boom"));
    assert!(!app.get(0).deleted);
    app.candidate_mut(0).selected = true;
    apply(&mut app, ScanMsg::Deleted { id: 7, bytes: 64 }, &mut status);
    assert!(app.get(0).deleted && !app.get(0).selected);
    assert_eq!(app.reclaimed, 64);
    assert!(app.deletion_targets().is_empty());
    apply(&mut app, ScanMsg::DeleteBatchDone, &mut status);
    assert!(!app.deleting);
    assert_eq!(app.view_indices(), vec![0]);
}

#[test]
fn deleter_reports_each_job() {
    let job = DeleteJob { id: 3, path: "/r/a/target".to_string(), size: 42 };
    assert!(matches!(job_report(job, Ok(())), ScanMsg::Deleted { id: 3, bytes: 42 }));
    let job = DeleteJob { id: 4, path: "/r/b/target".to_string(), size: 7 };
    match job_report(job, Err("permission denied".to_string())) {
        ScanMsg::DeleteFailed { id, error } => {
            assert_eq!(id, 4);
            assert_eq!(error, "/r/b/target: permission denied");
        }
        _ => panic!("expected a failure report"),
    }
}

#[test]
fn enter_deletes_the_focused_row_only() {
    let mut app = app_with(3);
    // Sorted by size: indices 2, 1, 0; the cursor is on index 2.
    app.candidate_mut(0).selected = true;
    let (mut mode, mut status, mut pending) = (Mode::Normal, None, Vec::new());
    handle(Action::DeleteFocused, &mut app, &mut mode, &mut status, &mut pending);
    assert_eq!(mode, Mode::Confirm);
    assert_eq!(pending, vec![2]);
    handle(Action::ConfirmNo, &mut app, &mut mode, &mut status, &mut pending);
    // `d` acts on the selection instead.
    handle(Action::RequestDelete, &mut app, &mut mode, &mut status, &mut pending);
    assert_eq!(pending, vec![0]);
    handle(Action::ConfirmNo, &mut app, &mut mode, &mut status, &mut pending);
    // A focused row that is already deleted gives nothing to delete.
    app.candidate_mut(2).deleted = true;
    handle(Action::DeleteFocused, &mut app, &mut mode, &mut status, &mut pending);
    assert_eq!(mode, Mode::Normal);
    assert_eq!(status.as_deref(), Some("Nothing to delete."));
    let mut empty = app_with(0);
    handle(Action::DeleteFocused, &mut empty, &mut mode, &mut status, &mut pending);
    assert_eq!(status.as_deref(), Some("Nothing to delete."));
}

#[test]
fn dry_run_asks_for_no_removal() {
    let mut app = AppState::new("/r".to_string(), true, 0);
    let mut c = Candidate::new(0, "/r/p/node_modules".to_string(), "Node".to_string());
    c.size = Some(5);
    app.push(c);
    let (mut mode, mut status, mut pending) = (Mode::Normal, None, Vec::new());
    handle(Action::DeleteFocused, &mut app, &mut mode, &mut status, &mut pending);
    match handle(Action::ConfirmYes, &mut app, &mut mode, &mut status, &mut pending) {
        Step::Simulate(jobs) => {
            assert_eq!(jobs.len(), 1);
            assert_eq!(jobs[0].size, 5);
        }
        _ => panic!("expected a simulated batch"),
    }
    assert!(app.deleting);
    assert!(!app.get(0).deleted);
    assert_eq!(app.reclaimed, 0);
}

#[test]
fn a_row_listed_twice_is_reclaimed_once() {
    let mut app = AppState::new("/r".to_string(), true, 0);
    let mut c = Candidate::new(0, "/r/p/target".to_string(), "Rust".to_string());
    c.size = Some(10);
    app.push(c);
    let (mut mode, mut status, mut pending) = (Mode::Confirm, None, vec![0, 0]);
    let jobs = match handle(Action::ConfirmYes, &mut app, &mut mode, &mut status, &mut pending) {
        Step::Simulate(jobs) => jobs,
        _ => panic!("expected a simulated batch"),
    };
    assert_eq!(jobs.len(), 1);
    for job in jobs {
        apply(&mut app, job_report(job, Ok(())), &mut status);
    }
    assert_eq!(app.reclaimed, 10);
    // A second report for a row already struck out adds nothing.
    apply(&mut app, ScanMsg::Deleted { id: 0, bytes: 10 }, &mut status);
    assert_eq!(app.reclaimed, 10);
    assert!(app.get(0).deleted && !app.get(0).selected);
    assert!(status.is_none());
}

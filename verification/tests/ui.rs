use cleard::model::{AppState, Candidate, SortMode};
use cleard::tui::ui::{
    activity_text, age_text, confirm_hint, confirm_title, confirm_total, deleting_hint, eco_color,
    empty_list_text, footer_stats, largest_size, reclaimed_message, size_cell, spinner_frame,
    EcoColor,
};

const SEC: i128 = 1_000_000_000;

#[test]
fn ages_read_in_the_largest_whole_unit() {
    let now = 10_000_000 * SEC;
    assert_eq!(age_text(None, now), "\u{2014}");
    assert_eq!(age_text(Some(now - 59 * SEC), now), "now");
    assert_eq!(age_text(Some(now + 5 * SEC), now), "now");
    assert_eq!(age_text(Some(now - 60 * SEC), now), "1m");
    assert_eq!(age_text(Some(now - 3599 * SEC), now), "59m");
    assert_eq!(age_text(Some(now - 7200 * SEC), now), "2h");
    assert_eq!(age_text(Some(now - 3 * 86_400 * SEC), now), "3d");
    assert_eq!(age_text(Some(now - 14 * 86_400 * SEC), now), "2w");
    assert_eq!(age_text(Some(now - 2 * 31_536_000 * SEC), now), "2y");
}

#[test]
fn ecosystems_have_colours() {
    assert_eq!(eco_color("Node"), EcoColor::Green);
    assert_eq!(eco_color("Rust"), EcoColor::Red);
    assert_eq!(eco_color("Python"), EcoColor::Blue);
    assert_eq!(eco_color("Go"), EcoColor::Cyan);
    assert_eq!(eco_color("Maven"), EcoColor::Yellow);
    assert_eq!(eco_color("Gradle"), EcoColor::Yellow);
    assert_eq!(eco_color(".NET"), EcoColor::Magenta);
    assert_eq!(eco_color("Zig"), EcoColor::Gray);
}

#[test]
fn sizes_are_human_readable() {
    assert_eq!(size_cell(None), "\u{2026}");
    assert_eq!(size_cell(Some(0)), "0 B");
    assert_eq!(size_cell(Some(1024)), "1 KiB");
    assert_eq!(size_cell(Some(999)), "999 B");
}

#[test]
fn spinner_and_activity() {
    assert_eq!(spinner_frame(0), "|");
    assert_eq!(spinner_frame(5), "/");
    assert_eq!(spinner_frame(6), "-");
    assert_eq!(spinner_frame(7), "\\");
    let mut app = AppState::new("/r".to_string(), false, 0);
    assert_eq!(activity_text(&app), " | scanning");
    app.scanning = false;
    app.spinner = 2;
    assert_eq!(activity_text(&app), " - sizing");
    app.sizing = false;
    assert_eq!(activity_text(&app), " done");
    assert_eq!(deleting_hint(1), " / deleting\u{2026} (UI stays responsive)");
    assert_eq!(empty_list_text(true), "Scanning for reclaimable directories\u{2026}");
    assert_eq!(empty_list_text(false), "Nothing to reclaim here.");
}

#[test]
fn confirmation_texts() {
    assert_eq!(confirm_title(1, false), "Delete 1 directory?");
    assert_eq!(confirm_title(3, true), "Simulate deleting 3 directories?");
    assert_eq!(confirm_title(0, false), "Delete 0 directories?");
    assert_eq!(confirm_hint(true), "y: confirm (no files removed)   n/esc: cancel");
    assert_eq!(confirm_hint(false), "y: permanently delete   n/esc: cancel");
    let mut app = AppState::new("/r".to_string(), false, 0);
    let mut c = Candidate::new(0, "/r/a".to_string(), "Node".to_string());
    c.size = Some(1000);
    app.push(c);
    let mut c = Candidate::new(1, "/r/b".to_string(), "Node".to_string());
    c.size = Some(24);
    app.push(c);
    app.push(Candidate::new(2, "/r/c".to_string(), "Node".to_string()));
    assert_eq!(confirm_total(&app, &[0, 1, 2]), "Total size: 1 KiB");
    assert_eq!(confirm_total(&app, &[]), "Total size: 0 B");
    assert_eq!(largest_size(&app, &vec![1, 2]), 24);
    assert_eq!(largest_size(&app, &vec![2]), 1);
    assert_eq!(largest_size(&app, &vec![0, 1]), 1000);
}

#[test]
fn footer_shows_counts_and_sizes() {
    let mut app = AppState::new("/r".to_string(), false, 0);
    let mut c = Candidate::new(0, "/r/a".to_string(), "Node".to_string());
    c.size = Some(1000);
    app.push(c);
    let mut c = Candidate::new(1, "/r/b".to_string(), "Node".to_string());
    c.size = Some(24);
    app.push(c);
    app.reclaimed = 999;
    app.sort = SortMode::Path;
    let f = footer_stats(&app);
    assert_eq!(f.found, " 2 found");
    assert_eq!(f.reclaimable, "1 KiB reclaimable");
    assert_eq!(f.reclaimed, "999 B reclaimed");
    assert_eq!(f.sort, "sort:path");
    assert_eq!(f.selected, None);
    app.candidate_mut(1).selected = true;
    let f = footer_stats(&app);
    assert_eq!(f.selected.as_deref(), Some("1 selected (24 B)"));
    assert_eq!(f.dry_run, None);
    app.dry_run = true;
    assert_eq!(footer_stats(&app).dry_run.as_deref(), Some("[dry-run]"));
}

#[test]
fn closing_message() {
    assert_eq!(reclaimed_message(0, false), None);
    assert_eq!(reclaimed_message(1024, false).as_deref(), Some("Reclaimed 1 KiB"));
    assert_eq!(
        reclaimed_message(999, true).as_deref(),
        Some("Reclaimed 999 B (dry-run \u{2014} nothing was deleted)")
    );
}

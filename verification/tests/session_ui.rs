//! Tests of the triage session, the interactive state machine, and the
//! display helpers.
use giff::args::Args;
use giff::display::populate_table;
use giff::model::FileChangeSet;
use giff::pairing::ChangeState;
use giff::parser::parse_diff_output;
use giff::triage::build_session;
use giff::ui::{unified_lines, App, AppMode, Pane, ViewMode};
use giff::{line_color, LineColor};

fn parse_ok(text: &str) -> FileChangeSet {
    parse_diff_output(&text.as_bytes().to_vec()).expect("diff should parse")
}

fn two_file_diff() -> FileChangeSet {
    parse_ok(
        "diff --git a/zeta b/zeta\n@@ -1,1 +1,1 @@\n-x\n+y\ndiff --git a/alpha b/alpha\n@@ -1,1 +1,1 @@\n-a\n+b\n",
    )
}

#[test]
fn session_orders_files_lexicographically() {
    let s = build_session(&two_file_diff(), 0);
    assert_eq!(s.file_order.len(), 2);
    assert_eq!(s.file_order[0], b"alpha".to_vec());
    assert_eq!(s.file_order[1], b"zeta".to_vec());
    assert_eq!(s.changes_by_file.len(), 2);
    assert_eq!(s.current_file, 0);
    assert_eq!(s.current_change, 0);
}

#[test]
fn decisions_overwrite_and_auto_advance() {
    let fcs = parse_ok("diff --git a/f b/f\n@@ -1,3 +1,3 @@\n-a\n-b\n-c\n");
    let mut s = build_session(&fcs, 0);
    assert_eq!(s.changes_by_file[0].len(), 3);
    s.accept_current();
    assert_eq!(s.changes_by_file[0][0].state, ChangeState::Accepted);
    assert_eq!(s.current_change, 1);
    s.reject_current();
    assert_eq!(s.changes_by_file[0][1].state, ChangeState::Rejected);
    assert_eq!(s.current_change, 2);
    // at the last change the cursor stays put, the decision still lands
    s.accept_current();
    assert_eq!(s.changes_by_file[0][2].state, ChangeState::Accepted);
    assert_eq!(s.current_change, 2);
    // a decision is reversible
    s.reject_current();
    assert_eq!(s.changes_by_file[0][2].state, ChangeState::Rejected);
}

#[test]
fn cursor_moves_stay_in_bounds() {
    let fcs = parse_ok("diff --git a/f b/f\n@@ -1,2 +1,2 @@\n-a\n-b\n");
    let mut s = build_session(&fcs, 0);
    s.retreat();
    assert_eq!(s.current_change, 0);
    s.advance();
    assert_eq!(s.current_change, 1);
    s.advance();
    assert_eq!(s.current_change, 1);
    s.retreat();
    assert_eq!(s.current_change, 0);
}

#[test]
fn file_navigation_wraps_and_skips_quiet_files() {
    let s0 = parse_ok(
        "diff --git a/a b/a\n@@ -1,1 +1,1 @@\n-x\ndiff --git a/b b/b\n@@ -1,1 +1,1 @@\n one\ndiff --git a/c b/c\n@@ -1,1 +1,1 @@\n-y\n",
    );
    let mut s = build_session(&s0, 0);
    // `b` holds only context, so it pairs to no changes and is skipped
    s.next_file_with_changes();
    assert_eq!(s.current_file, 2);
    s.next_file_with_changes();
    assert_eq!(s.current_file, 0);
    s.prev_file_with_changes();
    assert_eq!(s.current_file, 2);
}

#[test]
fn rejecting_everything_commits_nothing() {
    let fcs = two_file_diff();
    let mut s = build_session(&fcs, 0);
    for _ in 0..4 {
        s.reject_current();
        s.next_file_with_changes();
    }
    assert!(s
        .changes_by_file
        .iter()
        .all(|cs| cs.iter().all(|c| c.state == ChangeState::Rejected)));
    let batch = s.commit();
    assert_eq!(batch.len(), 0);
}

#[test]
fn commit_gathers_only_accepted_files() {
    let fcs = two_file_diff();
    let mut s = build_session(&fcs, 0);
    s.accept_current();
    let batch = s.commit();
    assert_eq!(batch.len(), 1);
    assert_eq!(batch[0].path, b"alpha".to_vec());
    assert_eq!(batch[0].edits.len(), 1);
    assert_eq!(batch[0].edits[0].line_number, 1);
    // the paired added line supersedes the deletion
    assert_eq!(batch[0].edits[0].content, b"b".to_vec());
    assert!(batch[0].edits[0].accepted);
}

#[test]
fn unified_view_reads_each_number_once() {
    let fcs = parse_ok("diff --git a/f b/f\n@@ -1,2 +1,2 @@\n-old\n+new\n same\n");
    let merged = unified_lines(&fcs.entries[0]);
    let tuples: Vec<(usize, String)> = merged
        .iter()
        .map(|r| (r.line_number, String::from_utf8(r.text.clone()).unwrap()))
        .collect();
    // the removal at 1 supersedes the addition at 1; the context renders once
    assert_eq!(tuples, vec![(1, "-old".to_string()), (2, " same".to_string())]);
}

#[test]
fn unified_view_interleaves_disjoint_numbers() {
    let fcs = parse_ok("diff --git a/f b/f\n@@ -3,1 +1,1 @@\n-low\n@@ -9,1 +5,1 @@\n+high\n");
    let merged = unified_lines(&fcs.entries[0]);
    let tuples: Vec<(usize, String)> = merged
        .iter()
        .map(|r| (r.line_number, String::from_utf8(r.text.clone()).unwrap()))
        .collect();
    assert_eq!(tuples, vec![(3, "-low".to_string()), (5, "+high".to_string())]);
}

#[test]
fn table_rows_pair_sides_and_pad_the_shorter() {
    let fcs = parse_ok("diff --git a/f b/f\n@@ -1,2 +1,1 @@\n-a\n-b\n+c\n");
    let rows = populate_table(&fcs);
    assert_eq!(rows.len(), 3);
    assert_eq!(rows[0].file, b"f".to_vec());
    assert_eq!(rows[0].base.text, b"".to_vec());
    assert_eq!(rows[1].file, b"".to_vec());
    assert_eq!(rows[1].base.text, b"1 -a".to_vec());
    assert_eq!(rows[1].base.color, LineColor::Red);
    assert_eq!(rows[1].head.text, b"1 +c".to_vec());
    assert_eq!(rows[1].head.color, LineColor::Green);
    assert_eq!(rows[2].base.text, b"2 -b".to_vec());
    assert_eq!(rows[2].head.text, b"".to_vec());
    assert_eq!(rows[2].head.color, LineColor::White);
}

#[test]
fn line_colors_follow_the_marker() {
    assert_eq!(line_color(&b"-x".to_vec()), LineColor::Red);
    assert_eq!(line_color(&b"+x".to_vec()), LineColor::Green);
    assert_eq!(line_color(&b" x".to_vec()), LineColor::White);
    assert_eq!(line_color(&b"".to_vec()), LineColor::White);
}

#[test]
fn app_starts_browsing_the_first_file() {
    let app = App::new(two_file_diff(), b"main".to_vec());
    assert_eq!(app.app_mode, AppMode::Diff);
    assert_eq!(app.view_mode, ViewMode::SideBySide);
    assert_eq!(app.focused_pane, Pane::FileList);
    assert_eq!(app.current_file_idx, 0);
    assert_eq!(app.file_names.len(), 2);
    assert_eq!(app.file_names[0], b"alpha".to_vec());
    assert_eq!(app.scrolls, vec![0u16, 0u16]);
}

#[test]
fn keys_drive_modes_panes_and_views() {
    let mut app = App::new(two_file_diff(), b"main".to_vec());
    app.on_toggle_view();
    assert_eq!(app.view_mode, ViewMode::Unified);
    app.on_tab();
    assert_eq!(app.focused_pane, Pane::DiffContent);
    app.on_down();
    assert_eq!(app.scrolls[0], 1);
    app.on_up();
    app.on_up();
    assert_eq!(app.scrolls[0], 0);
    app.on_focus_files();
    assert_eq!(app.focused_pane, Pane::FileList);
    app.on_down();
    assert_eq!(app.current_file_idx, 1);
    app.on_down();
    assert_eq!(app.current_file_idx, 1);
    app.on_enter_rebase();
    assert_eq!(app.app_mode, AppMode::Rebase);
    assert_eq!(app.session.current_file, 1);
    // escape cancels the session and no quit is requested while triaging
    assert!(!app.on_escape());
    assert_eq!(app.app_mode, AppMode::Diff);
    assert!(app.on_escape());
}

#[test]
fn app_commit_returns_the_batch_and_resumes_browsing() {
    let mut app = App::new(two_file_diff(), b"main".to_vec());
    app.on_enter_rebase();
    app.on_accept();
    let batch = app.on_commit();
    assert_eq!(app.app_mode, AppMode::Diff);
    assert_eq!(batch.len(), 1);
    assert_eq!(batch[0].path, b"alpha".to_vec());
}

#[test]
fn args_carry_the_branch_name() {
    let a = Args::new(String::from("main"));
    assert_eq!(a.branch, "main");
}

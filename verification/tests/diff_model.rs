//! Tests of the parser, the pairing engine and the committer.
use giff::diff::{apply_changes, get_changes, rebase_advice, status_indicates_behind,
    trimmed_nonempty, LineEdit};
use giff::model::{FileChangeSet, LineKind};
use giff::pairing::pair_changes;
use giff::parser::{parse_diff_output, ParseError};

fn parse_ok(text: &str) -> FileChangeSet {
    parse_diff_output(&text.as_bytes().to_vec()).expect("diff should parse")
}

fn rec_tuples(recs: &[giff::model::LineRecord]) -> Vec<(usize, String)> {
    recs.iter()
        .map(|r| (r.line_number, String::from_utf8(r.text.clone()).unwrap()))
        .collect()
}

#[test]
fn empty_diff_yields_empty_change_set() {
    let fcs = parse_ok("");
    assert_eq!(fcs.entries.len(), 0);
}

#[test]
fn scenario_parse_pair_accept_commit() {
    // the full pipeline on one file: one replacement and one context line
    let fcs = parse_ok("diff --git a/f b/f\n@@ -1,2 +1,2 @@\n-old\n+new\n same\n");
    assert_eq!(fcs.entries.len(), 1);
    let e = &fcs.entries[0];
    assert_eq!(e.path, b"f".to_vec());
    assert_eq!(
        rec_tuples(&e.base),
        vec![(1, "-old".to_string()), (2, " same".to_string())]
    );
    assert_eq!(
        rec_tuples(&e.head),
        vec![(1, "+new".to_string()), (2, " same".to_string())]
    );
    let changes = pair_changes(e);
    assert_eq!(changes.len(), 1);
    assert_eq!(changes[0].line_number, 1);
    assert_eq!(changes[0].content, b"-old".to_vec());
    assert_eq!(changes[0].paired_content, Some(b"+new".to_vec()));
    assert!(changes[0].is_base);

    // accept it and commit: line 1 of the file becomes `new`
    let mut session = giff::triage::build_session(&fcs, 0);
    session.accept_current();
    let batch = session.commit();
    assert_eq!(batch.len(), 1);
    assert_eq!(batch[0].path, b"f".to_vec());
    let out = apply_changes(&b"old\nsame".to_vec(), &batch[0].edits);
    assert_eq!(out, b"new\nsame".to_vec());
}

#[test]
fn counters_follow_hunk_header_independently() {
    let fcs = parse_ok("diff --git a/f b/f\n@@ -10,3 +20,3 @@\n-rem\n+add\n ctx\n");
    let e = &fcs.entries[0];
    assert_eq!(
        rec_tuples(&e.base),
        vec![(10, "-rem".to_string()), (11, " ctx".to_string())]
    );
    assert_eq!(
        rec_tuples(&e.head),
        vec![(20, "+add".to_string()), (21, " ctx".to_string())]
    );
}

#[test]
fn context_only_diff_round_trips() {
    let fcs = parse_ok("diff --git a/f b/f\n@@ -4,2 +4,2 @@\n one\n two\n");
    let e = &fcs.entries[0];
    assert_eq!(rec_tuples(&e.base), rec_tuples(&e.head));
    assert_eq!(
        rec_tuples(&e.base),
        vec![(4, " one".to_string()), (5, " two".to_string())]
    );
    assert!(e.base.iter().all(|r| r.kind == LineKind::Context));
}

#[test]
fn ansi_colour_sequences_are_stripped() {
    let fcs = parse_ok("diff --git a/f b/f\n@@ -1,1 +1,1 @@\n\u{1b}[31m-red\u{1b}[0m\n");
    let e = &fcs.entries[0];
    assert_eq!(rec_tuples(&e.base), vec![(1, "-red".to_string())]);
    assert_eq!(e.base[0].kind, LineKind::Removed);
}

#[test]
fn metadata_lines_are_skipped() {
    let fcs = parse_ok(
        "diff --git a/f b/f\nindex 123..456 100644\n--- a/f\n+++ b/f\n@@ -1,1 +1,1 @@\n-x\n",
    );
    let e = &fcs.entries[0];
    assert_eq!(e.base.len(), 1);
    assert_eq!(e.head.len(), 0);
}

#[test]
fn malformed_hunk_header_is_fatal() {
    let r = parse_diff_output(&b"diff --git a/f b/f\n@@ -a,1 +2,2 @@\n x\n".to_vec());
    assert_eq!(r.err(), Some(ParseError::MalformedHunkHeader));
}

#[test]
fn oversized_hunk_number_is_rejected() {
    let r = parse_diff_output(
        &b"diff --git a/f b/f\n@@ -99999999999999999999999,1 +1,1 @@\n x\n".to_vec(),
    );
    assert_eq!(r.err(), Some(ParseError::NumberOverflow));
}

#[test]
fn hunk_stepping_back_is_rejected() {
    let r = parse_diff_output(
        &b"diff --git a/f b/f\n@@ -5,1 +5,1 @@\n-x\n@@ -2,1 +2,1 @@\n-y\n".to_vec(),
    );
    assert_eq!(r.err(), Some(ParseError::HunkOutOfOrder));
}

#[test]
fn get_changes_parses_like_the_parser() {
    let fcs = get_changes(&b"diff --git a/f b/f\n@@ -1,1 +1,1 @@\n-x\n+y\n".to_vec()).unwrap();
    assert_eq!(fcs.entries.len(), 1);
    assert_eq!(fcs.entries[0].base.len(), 1);
    assert_eq!(fcs.entries[0].head.len(), 1);
}

#[test]
fn files_with_no_records_never_appear() {
    let fcs = parse_ok("diff --git a/f b/f\ndiff --git a/g b/g\n@@ -1,1 +1,1 @@\n-x\n");
    assert_eq!(fcs.entries.len(), 1);
    assert_eq!(fcs.entries[0].path, b"g".to_vec());
}

#[test]
fn pairing_window_accepts_distance_four() {
    let fcs = parse_ok("diff --git a/f b/f\n@@ -1,1 +5,1 @@\n-x\n+y\n");
    let changes = pair_changes(&fcs.entries[0]);
    assert_eq!(changes.len(), 1);
    assert_eq!(changes[0].line_number, 1);
    assert_eq!(changes[0].paired_content, Some(b"+y".to_vec()));
}

#[test]
fn pairing_window_rejects_distance_five() {
    let fcs = parse_ok("diff --git a/f b/f\n@@ -1,1 +6,1 @@\n-x\n+y\n");
    let changes = pair_changes(&fcs.entries[0]);
    assert_eq!(changes.len(), 2);
    assert!(changes[0].is_base);
    assert_eq!(changes[0].line_number, 1);
    assert_eq!(changes[0].paired_content, None);
    assert!(!changes[1].is_base);
    assert_eq!(changes[1].line_number, 6);
}

#[test]
fn consumed_head_line_never_surfaces_alone() {
    // the added line at head 2 is claimed by the removed line at base 1
    let fcs = parse_ok("diff --git a/f b/f\n@@ -1,1 +2,1 @@\n-x\n+y\n");
    let changes = pair_changes(&fcs.entries[0]);
    assert_eq!(changes.len(), 1);
    assert!(changes[0].is_base);
    assert_eq!(changes[0].paired_content, Some(b"+y".to_vec()));
    assert!(changes.iter().all(|c| c.is_base));
}

#[test]
fn change_context_renders_neighbouring_lines() {
    let fcs = parse_ok(
        "diff --git a/f b/f\n@@ -1,5 +1,5 @@\n a\n b\n-c\n d\n e\n",
    );
    let changes = pair_changes(&fcs.entries[0]);
    assert_eq!(changes.len(), 1);
    let ctx: Vec<String> = changes[0]
        .context
        .iter()
        .map(|l| String::from_utf8(l.clone()).unwrap())
        .collect();
    assert_eq!(ctx, vec!["1:  a", "2:  b", "4:  d", "5:  e"]);
}

#[test]
fn out_of_range_accepted_edit_changes_nothing() {
    let original = b"a\nb\nc".to_vec();
    let edits = vec![LineEdit { line_number: 10, content: b"+zzz".to_vec(), accepted: true }];
    assert_eq!(apply_changes(&original, &edits), original);
}

#[test]
fn rejected_edits_are_not_applied() {
    let original = b"a\nb\nc".to_vec();
    let edits = vec![LineEdit { line_number: 2, content: b"+zzz".to_vec(), accepted: false }];
    assert_eq!(apply_changes(&original, &edits), original);
}

#[test]
fn overwrites_of_distinct_lines_commute() {
    let original: Vec<u8> = b"l1\nl2\nl3\nl4\nl5\nl6\nl7\nl8\nl9\nl10".to_vec();
    let a = LineEdit { line_number: 3, content: b"+three".to_vec(), accepted: true };
    let b = LineEdit { line_number: 7, content: b"+seven".to_vec(), accepted: true };
    let ab = apply_changes(
        &original,
        &vec![
            LineEdit { line_number: a.line_number, content: a.content.clone(), accepted: true },
            LineEdit { line_number: b.line_number, content: b.content.clone(), accepted: true },
        ],
    );
    let ba = apply_changes(
        &original,
        &vec![
            LineEdit { line_number: b.line_number, content: b.content.clone(), accepted: true },
            LineEdit { line_number: a.line_number, content: a.content.clone(), accepted: true },
        ],
    );
    assert_eq!(ab, ba);
    assert_eq!(ab, b"l1\nl2\nthree\nl4\nl5\nl6\nseven\nl8\nl9\nl10".to_vec());
}

#[test]
fn applied_content_loses_marker_and_leading_whitespace() {
    let original = b"one\ntwo".to_vec();
    let edits = vec![LineEdit { line_number: 2, content: b"-   spaced".to_vec(), accepted: true }];
    assert_eq!(apply_changes(&original, &edits), b"one\nspaced".to_vec());
}

#[test]
fn last_accepted_edit_of_a_line_wins() {
    let original = b"one".to_vec();
    let edits = vec![
        LineEdit { line_number: 1, content: b"+first".to_vec(), accepted: true },
        LineEdit { line_number: 1, content: b"+second".to_vec(), accepted: true },
    ];
    assert_eq!(apply_changes(&original, &edits), b"second".to_vec());
}

#[test]
fn behind_branch_earns_the_behind_advice() {
    let r = rebase_advice(&b"dev".to_vec(), &b"origin/dev".to_vec(), true, false, false);
    assert_eq!(
        r,
        Some(b"Your branch 'dev' is behind 'origin/dev'. A rebase is recommended.".to_vec())
    );
}

#[test]
fn diverged_branch_earns_the_divergence_advice() {
    let r = rebase_advice(&b"dev".to_vec(), &b"origin/dev".to_vec(), false, true, true);
    let expected = b"Your branch 'dev' has diverged from 'origin/dev'.\nConsider rebasing to integrate changes cleanly.".to_vec();
    assert_eq!(r, Some(expected));
}

#[test]
fn quiet_branch_earns_no_advice() {
    assert_eq!(
        rebase_advice(&b"dev".to_vec(), &b"origin/dev".to_vec(), false, true, false),
        None
    );
}

#[test]
fn status_text_reveals_a_behind_branch() {
    assert!(status_indicates_behind(
        &b"## main...origin/main [behind 2]".to_vec()
    ));
    assert!(!status_indicates_behind(&b"## main...origin/main".to_vec()));
}

#[test]
fn trimming_decides_emptiness() {
    assert!(trimmed_nonempty(&b"  x \n".to_vec()));
    assert!(!trimmed_nonempty(&b" \t \n".to_vec()));
}

//! Line diffs.

use rgit::diff::{diff_lines, split_lines, unified_diff, LineChange};

#[test]
fn split_lines_preserves_trailing_lf() {
    let lines = split_lines(b"a\nb\nc\n");
    assert_eq!(lines, vec![b"a\n".as_slice(), b"b\n", b"c\n"]);
}

#[test]
fn split_lines_handles_final_line_without_lf() {
    let lines = split_lines(b"a\nb");
    assert_eq!(lines, vec![b"a\n".as_slice(), b"b"]);
}

#[test]
fn diff_lines_empty_vs_empty() {
    let a: &[&[u8]] = &[];
    let b: &[&[u8]] = &[];
    assert!(diff_lines(a, b).is_empty());
}

#[test]
fn diff_lines_pure_addition() {
    let a: Vec<&[u8]> = vec![];
    let b: Vec<&[u8]> = vec![b"x\n", b"y\n"];
    let script = diff_lines(&a, &b);
    assert_eq!(
        script,
        vec![LineChange::Added(b"x\n"), LineChange::Added(b"y\n"),]
    );
}

#[test]
fn diff_lines_pure_removal() {
    let a: Vec<&[u8]> = vec![b"x\n", b"y\n"];
    let b: Vec<&[u8]> = vec![];
    let script = diff_lines(&a, &b);
    assert_eq!(
        script,
        vec![LineChange::Removed(b"x\n"), LineChange::Removed(b"y\n"),]
    );
}

#[test]
fn diff_lines_in_middle_change() {
    let a: Vec<&[u8]> = vec![b"a\n", b"b\n", b"c\n"];
    let b: Vec<&[u8]> = vec![b"a\n", b"B\n", b"c\n"];
    let script = diff_lines(&a, &b);
    // Expected: Same(a), Removed(b), Added(B), Same(c). Order of
    // adjacent Remove/Add may vary; just check counts + same-lines.
    let same_count = script
        .iter()
        .filter(|c| matches!(c, LineChange::Same(_)))
        .count();
    let removed_count = script
        .iter()
        .filter(|c| matches!(c, LineChange::Removed(_)))
        .count();
    let added_count = script
        .iter()
        .filter(|c| matches!(c, LineChange::Added(_)))
        .count();
    assert_eq!(same_count, 2);
    assert_eq!(removed_count, 1);
    assert_eq!(added_count, 1);
}

#[test]
fn unified_diff_emits_label_lines_and_hunks() {
    let a = b"alpha\nbeta\ngamma\n";
    let b = b"alpha\nBETA\ngamma\n";
    let out = unified_diff(a, "a/file", b, "b/file", 3);
    assert!(out.starts_with("--- a/file\n+++ b/file\n"));
    assert!(out.contains("@@ "));
    assert!(out.contains("-beta\n"));
    assert!(out.contains("+BETA\n"));
}

#[test]
fn unified_diff_no_changes_emits_only_labels() {
    let a = b"alpha\nbeta\n";
    let b = b"alpha\nbeta\n";
    let out = unified_diff(a, "a/x", b, "b/x", 3);
    assert_eq!(out, "--- a/x\n+++ b/x\n");
}

#[test]
fn unified_diff_marks_missing_newline_at_eof() {
    let a = b"alpha\nbeta";
    let b = b"alpha\nBETA";
    let out = unified_diff(a, "a/x", b, "b/x", 3);
    assert!(out.contains("\\ No newline at end of file"));
}

#[test]
fn hunk_of_an_empty_side_starts_at_zero() {
    assert_eq!(
        unified_diff(b"", "x", b"p\nq\n", "y", 3),
        "--- x\n+++ y\n@@ -0,0 +1,2 @@\n+p\n+q\n",
    );
    assert_eq!(
        unified_diff(b"p\nq\n", "x", b"", "y", 3),
        "--- x\n+++ y\n@@ -1,2 +0,0 @@\n-p\n-q\n",
    );
    // Without context an insertion is numbered by the line it follows.
    assert_eq!(
        unified_diff(b"a\nb\n", "x", b"a\nn\nb\n", "y", 0),
        "--- x\n+++ y\n@@ -1,0 +2,1 @@\n+n\n",
    );
}

#[test]
fn changes_with_few_lines_between_them_share_a_hunk() {
    // Three lines stand between the changes, and two of context on each side.
    assert_eq!(
        unified_diff(b"a\n1\n2\n3\nb\n", "x", b"A\n1\n2\n3\nB\n", "y", 2),
        "--- x\n+++ y\n@@ -1,5 +1,5 @@\n-a\n+A\n 1\n 2\n 3\n-b\n+B\n",
    );
    assert_eq!(
        unified_diff(b"a\n1\n2\n3\n4\nb\n", "x", b"A\n1\n2\n3\n4\nB\n", "y", 2),
        "--- x\n+++ y\n@@ -1,6 +1,6 @@\n-a\n+A\n 1\n 2\n 3\n 4\n-b\n+B\n",
    );
    // Five lines are one too many.
    assert_eq!(
        unified_diff(b"a\n1\n2\n3\n4\n5\nb\n", "x", b"A\n1\n2\n3\n4\n5\nB\n", "y", 2),
        "--- x\n+++ y\n@@ -1,3 +1,3 @@\n-a\n+A\n 1\n 2\n@@ -5,3 +5,3 @@\n 4\n 5\n-b\n+B\n",
    );
}

#[test]
fn hunks_stand_in_order_and_apart() {
    let a: Vec<String> = (0..60).map(|i| format!("{i}\n")).collect();
    let mut b = a.clone();
    for i in [3, 9, 10, 22, 31, 45, 59] {
        b[i] = format!("new {i}\n");
    }
    b.remove(50);
    for context in 0..6 {
        let text = unified_diff(a.concat().as_bytes(), "x", b.concat().as_bytes(), "y", context);
        let mut ends = (0, 0);
        let mut hunks = 0;
        for line in text.lines().filter(|l| l.starts_with("@@")) {
            let numbers: Vec<usize> = line
                .split(|c: char| !c.is_ascii_digit())
                .filter(|s| !s.is_empty())
                .map(|s| s.parse().unwrap())
                .collect();
            assert!(ends.0 <= numbers[0] && ends.1 <= numbers[2], "{text}");
            ends = (numbers[0] + numbers[1], numbers[2] + numbers[3]);
            hunks += 1;
        }
        assert!(hunks > 0);
    }
}

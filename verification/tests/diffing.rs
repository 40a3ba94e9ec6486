use rg_replace::diff::{
    apply_decisions, diff_hunks, edit_lines, file_diff, find_replacement, is_changed,
    is_following, patch_lines, render_diff, run_diff, DiffHunk, DiffLine, LineRange,
    DEFAULT_CONTEXT,
};
use rg_replace::inplace::{edit_content, join_lines, split_content};
use rg_replace::event::ByteRange;
use rg_replace::group::{FileGroup, Line};
use rg_replace::replace::{batch_decisions, EditDecision};

fn context(n: u64, text: &str) -> Line {
    Line::Context { line_number: n, text: text.as_bytes().to_vec() }
}

fn matched(n: u64, text: &str) -> Line {
    Line::Matched {
        line_number: n,
        absolute_offset: 0,
        text: text.as_bytes().to_vec(),
        submatches: vec![ByteRange { start: 0, end: 1 }],
    }
}

fn replaced(n: u64, old: &str, new: &str) -> EditDecision {
    EditDecision {
        line_number: n,
        original_text: old.as_bytes().to_vec(),
        replacement_text: Some(new.as_bytes().to_vec()),
        applied: true,
    }
}

fn left(n: u64, old: &str) -> EditDecision {
    EditDecision {
        line_number: n,
        original_text: old.as_bytes().to_vec(),
        replacement_text: None,
        applied: false,
    }
}

fn numbered(n: u64, text: &str) -> DiffLine {
    DiffLine { line_number: n, text: text.as_bytes().to_vec() }
}

fn ten_lines(matches: &[u64]) -> FileGroup {
    let words = ["one", "two", "three", "four", "five", "six", "seven", "eight", "nine", "ten"];
    let mut lines = Vec::new();
    for (k, word) in words.iter().enumerate() {
        let n = k as u64 + 1;
        let text = format!("{}\n", word);
        if matches.contains(&n) {
            lines.push(matched(n, &text));
        } else {
            lines.push(context(n, &text));
        }
    }
    FileGroup { path: b"a.txt".to_vec(), lines }
}

#[test]
fn one_changed_line_gives_one_hunk_with_its_context() {
    let group = ten_lines(&[5]);
    let decisions = vec![replaced(5, "five\n", "FIVE\n")];
    let range = LineRange { start: 2, count: 7 };
    assert_eq!(
        vec![DiffHunk {
            file_path: b"a.txt".to_vec(),
            old_range: range,
            new_range: range,
            context_before: vec![numbered(2, "two\n"), numbered(3, "three\n"), numbered(4, "four\n")],
            removed_lines: vec![numbered(5, "five\n")],
            added_lines: vec![numbered(5, "FIVE\n")],
            context_after: vec![numbered(6, "six\n"), numbered(7, "seven\n"), numbered(8, "eight\n")],
        }],
        diff_hunks(&group, &decisions, DEFAULT_CONTEXT)
    );
}

#[test]
fn diff_text_is_in_unified_format() {
    let group = ten_lines(&[5]);
    let decisions = vec![replaced(5, "five\n", "FIVE\n")];
    let expected = "--- a.txt\n+++ a.txt\n@@ -2,7 +2,7 @@\n two\n three\n four\n-five\n+FIVE\n six\n seven\n eight\n";
    assert_eq!(expected.as_bytes().to_vec(), file_diff(&group, &decisions, 3));
}

#[test]
fn line_without_a_line_feed_gets_one_in_the_diff() {
    let group = FileGroup { path: b"f".to_vec(), lines: vec![matched(1, "old")] };
    let decisions = vec![replaced(1, "old", "new")];
    assert_eq!(
        b"--- f\n+++ f\n@@ -1,1 +1,1 @@\n-old\n+new\n".to_vec(),
        file_diff(&group, &decisions, 3)
    );
}

#[test]
fn lines_changed_in_a_row_share_a_hunk() {
    let group = ten_lines(&[4, 5, 6]);
    let decisions = vec![
        replaced(4, "four\n", "4\n"),
        replaced(5, "five\n", "5\n"),
        replaced(6, "six\n", "6\n"),
    ];
    let hunks = diff_hunks(&group, &decisions, 1);
    assert_eq!(1, hunks.len());
    assert_eq!(LineRange { start: 3, count: 5 }, hunks[0].old_range);
    assert_eq!(vec![numbered(3, "three\n")], hunks[0].context_before);
    assert_eq!(
        vec![numbered(4, "four\n"), numbered(5, "five\n"), numbered(6, "six\n")],
        hunks[0].removed_lines
    );
    assert_eq!(
        vec![numbered(4, "4\n"), numbered(5, "5\n"), numbered(6, "6\n")],
        hunks[0].added_lines
    );
    assert_eq!(vec![numbered(7, "seven\n")], hunks[0].context_after);
    assert_eq!(
        b"--- a.txt\n+++ a.txt\n@@ -3,5 +3,5 @@\n three\n-four\n-five\n-six\n+4\n+5\n+6\n seven\n".to_vec(),
        render_diff(&group.path, &hunks)
    );
}

#[test]
fn runs_close_to_each_other_do_not_share_lines() {
    let group = ten_lines(&[5, 7]);
    let decisions = vec![replaced(5, "five\n", "FIVE\n"), replaced(7, "seven\n", "SEVEN\n")];
    let hunks = diff_hunks(&group, &decisions, 3);
    assert_eq!(2, hunks.len());
    assert_eq!(LineRange { start: 2, count: 5 }, hunks[0].old_range);
    assert_eq!(vec![numbered(6, "six\n")], hunks[0].context_after);
    assert_eq!(LineRange { start: 7, count: 4 }, hunks[1].old_range);
    assert_eq!(Vec::<DiffLine>::new(), hunks[1].context_before);
    assert_eq!(vec![numbered(7, "seven\n")], hunks[1].removed_lines);
    assert_eq!(
        vec![numbered(8, "eight\n"), numbered(9, "nine\n"), numbered(10, "ten\n")],
        hunks[1].context_after
    );
}

#[test]
fn runs_far_from_each_other_leave_lines_out() {
    let group = ten_lines(&[1, 10]);
    let decisions = vec![replaced(1, "one\n", "1\n"), replaced(10, "ten\n", "10\n")];
    let hunks = diff_hunks(&group, &decisions, 2);
    assert_eq!(2, hunks.len());
    assert_eq!(LineRange { start: 1, count: 3 }, hunks[0].old_range);
    assert_eq!(LineRange { start: 8, count: 3 }, hunks[1].old_range);
    assert_eq!(vec![numbered(8, "eight\n"), numbered(9, "nine\n")], hunks[1].context_before);
}

#[test]
fn context_does_not_cross_a_gap_in_the_numbers() {
    let group = FileGroup {
        path: b"g".to_vec(),
        lines: vec![
            context(1, "a\n"),
            context(2, "b\n"),
            matched(10, "x\n"),
            context(11, "c\n"),
            context(20, "d\n"),
        ],
    };
    let decisions = vec![replaced(10, "x\n", "y\n")];
    let range = LineRange { start: 10, count: 2 };
    assert_eq!(
        vec![DiffHunk {
            file_path: b"g".to_vec(),
            old_range: range,
            new_range: range,
            context_before: vec![],
            removed_lines: vec![numbered(10, "x\n")],
            added_lines: vec![numbered(10, "y\n")],
            context_after: vec![numbered(11, "c\n")],
        }],
        diff_hunks(&group, &decisions, 3)
    );
}

#[test]
fn changed_lines_apart_by_number_give_hunks_of_their_own() {
    let group = FileGroup {
        path: b"g".to_vec(),
        lines: vec![matched(3, "x\n"), matched(9, "x\n")],
    };
    let decisions = vec![replaced(3, "x\n", "y\n"), replaced(9, "x\n", "z\n")];
    let hunks = diff_hunks(&group, &decisions, 3);
    assert_eq!(2, hunks.len());
    assert_eq!(LineRange { start: 3, count: 1 }, hunks[0].old_range);
    assert_eq!(LineRange { start: 9, count: 1 }, hunks[1].old_range);
    assert_eq!(
        b"--- g\n+++ g\n@@ -3,1 +3,1 @@\n-x\n+y\n@@ -9,1 +9,1 @@\n-x\n+z\n".to_vec(),
        render_diff(&group.path, &hunks)
    );
}

#[test]
fn no_context_is_asked_for() {
    let group = ten_lines(&[5]);
    let decisions = vec![replaced(5, "five\n", "FIVE\n")];
    let hunks = diff_hunks(&group, &decisions, 0);
    assert_eq!(1, hunks.len());
    assert_eq!(LineRange { start: 5, count: 1 }, hunks[0].old_range);
    assert!(hunks[0].context_before.is_empty());
    assert!(hunks[0].context_after.is_empty());
}

#[test]
fn skipped_and_unchanged_lines_give_no_hunk() {
    let group = ten_lines(&[5, 6]);
    let decisions = vec![left(5, "five\n"), replaced(6, "six\n", "six\n")];
    assert_eq!(Vec::<DiffHunk>::new(), diff_hunks(&group, &decisions, 3));
    assert_eq!(Vec::<u8>::new(), file_diff(&group, &decisions, 3));
    assert_eq!(Vec::<DiffHunk>::new(), diff_hunks(&group, &vec![], 3));
}

#[test]
fn applying_the_hunks_gives_the_edited_lines() {
    let group = ten_lines(&[2, 3, 7, 10]);
    let decisions = vec![
        replaced(2, "two\n", "2\n"),
        left(3, "three\n"),
        replaced(7, "seven\n", "7\n"),
        replaced(10, "ten\n", "10\n"),
    ];
    let hunks = diff_hunks(&group, &decisions, 3);
    let patched = patch_lines(&group, &hunks);
    assert_eq!(edit_lines(&group, &decisions), patched);
    let expected: Vec<Vec<u8>> =
        ["one\n", "2\n", "three\n", "four\n", "five\n", "six\n", "7\n", "eight\n", "nine\n", "10\n"]
            .iter()
            .map(|t| t.as_bytes().to_vec())
            .collect();
    assert_eq!(expected, patched);
}

#[test]
fn hunks_come_in_ascending_order() {
    let group = ten_lines(&[1, 5, 9]);
    let decisions = batch_decisions(&group, &b"X".to_vec()).unwrap();
    let hunks = diff_hunks(&group, &decisions, 1);
    assert_eq!(3, hunks.len());
    for pair in hunks.windows(2) {
        assert!(pair[0].old_range.start + pair[0].old_range.count as u64 <= pair[1].old_range.start);
    }
    for hunk in hunks.iter() {
        assert_eq!(hunk.old_range, hunk.new_range);
        assert_eq!(hunk.removed_lines.len(), hunk.added_lines.len());
        assert!(!hunk.removed_lines.is_empty());
    }
}

#[test]
fn first_applied_decision_for_a_line_counts() {
    let decisions = vec![
        left(4, "a"),
        replaced(4, "a", "first"),
        replaced(4, "a", "second"),
        EditDecision {
            line_number: 5,
            original_text: b"b".to_vec(),
            replacement_text: Some(b"unused".to_vec()),
            applied: false,
        },
    ];
    assert_eq!(Some(&b"first".to_vec()), find_replacement(&decisions, 4));
    assert_eq!(None, find_replacement(&decisions, 5));
    assert_eq!(None, find_replacement(&decisions, 6));
    assert!(is_changed(&matched(4, "a"), &decisions));
    assert!(!is_changed(&matched(4, "first"), &decisions));
    assert!(!is_changed(&matched(5, "b"), &decisions));
}

#[test]
fn following_is_by_line_number() {
    let group = FileGroup {
        path: vec![],
        lines: vec![context(1, ""), context(2, ""), context(4, ""), context(u64::MAX, ""), context(0, "")],
    };
    assert!(!is_following(&group, 0));
    assert!(is_following(&group, 1));
    assert!(!is_following(&group, 2));
    assert!(!is_following(&group, 4));
    assert!(!is_following(&group, 5));
}

#[test]
fn decisions_are_applied_to_the_lines_of_a_file() {
    let lines: Vec<Vec<u8>> = ["a\n", "b\n", "c\n"].iter().map(|t| t.as_bytes().to_vec()).collect();
    let decisions = vec![replaced(2, "b\n", "B\n"), left(3, "c\n"), replaced(9, "z\n", "Z\n")];
    let expected: Vec<Vec<u8>> = ["a\n", "B\n", "c\n"].iter().map(|t| t.as_bytes().to_vec()).collect();
    assert_eq!(expected, apply_decisions(&lines, &decisions));
    assert_eq!(Vec::<Vec<u8>>::new(), apply_decisions(&vec![], &decisions));
}

#[test]
fn patching_without_hunks_changes_nothing() {
    let group = ten_lines(&[]);
    let texts = patch_lines(&group, &vec![]);
    assert_eq!(10, texts.len());
    assert_eq!(b"one\n".to_vec(), texts[0]);
    assert_eq!(b"ten\n".to_vec(), texts[9]);
}

#[test]
fn diff_of_a_run_keeps_the_order_of_the_groups() {
    let first = FileGroup { path: b"z.txt".to_vec(), lines: vec![matched(1, "x\n")] };
    let second = FileGroup { path: b"a.txt".to_vec(), lines: vec![matched(2, "x\n")] };
    let third = FileGroup { path: b"m.txt".to_vec(), lines: vec![matched(3, "x\n")] };
    let decided = vec![vec![replaced(1, "x\n", "y\n")], vec![replaced(2, "x\n", "y\n")]];
    assert_eq!(
        b"--- z.txt\n+++ z.txt\n@@ -1,1 +1,1 @@\n-x\n+y\n--- a.txt\n+++ a.txt\n@@ -2,1 +2,1 @@\n-x\n+y\n".to_vec(),
        run_diff(&vec![first, second, third], &decided, 3)
    );
    assert_eq!(Vec::<u8>::new(), run_diff(&vec![], &decided, 3));
}

#[test]
fn content_is_split_into_lines_with_their_line_feeds() {
    let lines: Vec<Vec<u8>> = ["a\n", "\n", "bc\n", "d"].iter().map(|t| t.as_bytes().to_vec()).collect();
    assert_eq!(lines, split_content(b"a\n\nbc\nd"));
    assert_eq!(b"a\n\nbc\nd".to_vec(), join_lines(&lines));
    assert_eq!(Vec::<Vec<u8>>::new(), split_content(b""));
    assert_eq!(vec![b"\n".to_vec()], split_content(b"\n"));
    assert_eq!(vec![b"x\n".to_vec()], split_content(b"x\n"));
}

#[test]
fn content_is_edited_line_by_line() {
    let decisions = vec![replaced(2, "two\n", "2\n"), left(3, "three\n"), replaced(4, "four", "4")];
    assert_eq!(
        b"one\n2\nthree\n4".to_vec(),
        edit_content(b"one\ntwo\nthree\nfour", &decisions)
    );
    assert_eq!(b"one\ntwo\n".to_vec(), edit_content(b"one\ntwo\n", &vec![]));
    assert_eq!(Vec::<u8>::new(), edit_content(b"", &decisions));
}

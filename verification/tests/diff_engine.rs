use ruling::diff::{
    collapse_whitespace, compute_hunks, compute_hunks_with_options, compute_word_diff, detect_context_function,
    format_hunk, format_hunk_header, format_hunk_with_options, format_json, format_word_diff, json_escape, DiffLine,
    DiffOptions, Hunk, WordDiff,
};

fn vec_of(items: &[&str]) -> Vec<String> {
    items.iter().map(|s| s.to_string()).collect()
}

#[test]
fn identical_files_produce_no_hunks() {
    let old = vec_of(&["a", "b", "c"]);
    let new = vec_of(&["a", "b", "c"]);
    let hunks = compute_hunks(&old, &new, 3, false);
    assert!(hunks.is_empty());
}

#[test]
fn single_line_change_produces_one_hunk() {
    let old = vec_of(&["a", "b", "c"]);
    let new = vec_of(&["a", "X", "c"]);
    let hunks = compute_hunks(&old, &new, 0, false);
    assert_eq!(hunks.len(), 1);
    assert_eq!(hunks[0].old_start, 2);
    assert_eq!(hunks[0].new_start, 2);
    assert_eq!(hunks[0].old_count, 1);
    assert_eq!(hunks[0].new_count, 1);
    assert_eq!(hunks[0].lines.len(), 2);
    assert_eq!(hunks[0].lines[0], DiffLine::Removed("b".to_string()));
    assert_eq!(hunks[0].lines[1], DiffLine::Added("X".to_string()));
}

#[test]
fn context_lines_are_included() {
    let old = vec_of(&["a", "b", "c", "d", "e"]);
    let new = vec_of(&["a", "b", "X", "d", "e"]);
    let hunks = compute_hunks(&old, &new, 1, false);
    assert_eq!(hunks.len(), 1);
    assert_eq!(hunks[0].old_start, 2);
    assert_eq!(hunks[0].new_start, 2);
    assert_eq!(hunks[0].lines.len(), 4);
    assert_eq!(hunks[0].lines[0], DiffLine::Context("b".to_string()));
    assert_eq!(hunks[0].lines[1], DiffLine::Removed("c".to_string()));
    assert_eq!(hunks[0].lines[2], DiffLine::Added("X".to_string()));
    assert_eq!(hunks[0].lines[3], DiffLine::Context("d".to_string()));
}

#[test]
fn ignore_case_treats_differing_case_as_equal() {
    let old = vec_of(&["Hello", "World"]);
    let new = vec_of(&["hello", "world"]);
    assert!(!compute_hunks(&old, &new, 3, false).is_empty());
    assert!(compute_hunks(&old, &new, 3, true).is_empty());
}

#[test]
fn header_format_matches_gnu() {
    let h = Hunk {
        old_start: 1,
        old_count: 1,
        new_start: 1,
        new_count: 1,
        lines: vec![DiffLine::Removed("a".to_string()), DiffLine::Added("b".to_string())],
    };
    assert_eq!(format_hunk_header(&h, None), "@@ -1 +1 @@");
}

#[test]
fn header_format_with_counts() {
    let h = Hunk { old_start: 2, old_count: 3, new_start: 4, new_count: 5, lines: vec![] };
    assert_eq!(format_hunk_header(&h, None), "@@ -2,3 +4,5 @@");
}

#[test]
fn full_hunk_formatting() {
    let h = Hunk {
        old_start: 1,
        old_count: 1,
        new_start: 1,
        new_count: 1,
        lines: vec![
            DiffLine::Context("c".to_string()),
            DiffLine::Removed("a".to_string()),
            DiffLine::Added("b".to_string()),
        ],
    };
    let text = format_hunk(&h);
    assert_eq!(text, "@@ -1 +1 @@\n c\n-a\n+b\n");
}

#[test]
fn insertion_at_end() {
    let old = vec_of(&["a", "b"]);
    let new = vec_of(&["a", "b", "c"]);
    let hunks = compute_hunks(&old, &new, 0, false);
    assert_eq!(hunks.len(), 1);
    assert_eq!(hunks[0].new_start, 3);
    assert_eq!(hunks[0].lines, vec![DiffLine::Added("c".to_string())]);
}

#[test]
fn multiple_hunks_are_split() {
    let old = vec_of(&["a", "b", "c", "d", "e", "f", "g"]);
    let new = vec_of(&["X", "b", "c", "d", "e", "f", "Y"]);
    let hunks = compute_hunks(&old, &new, 0, false);
    assert_eq!(hunks.len(), 2);
}

#[test]
fn adjacent_changes_merge_into_one_hunk() {
    let old = vec_of(&["a", "b", "c"]);
    let new = vec_of(&["X", "Y", "Z"]);
    let hunks = compute_hunks(&old, &new, 0, false);
    assert_eq!(hunks.len(), 1);
    assert_eq!(hunks[0].lines.len(), 6);
}

#[test]
fn trailing_context_line_is_not_marked_changed() {
    let old = vec_of(&["alpha", "CHANGED", "gamma"]);
    let new = vec_of(&["alpha", "changed", "gamma"]);
    let hunks = compute_hunks(&old, &new, 3, false);
    assert_eq!(hunks.len(), 1);
    let lines = &hunks[0].lines;
    assert_eq!(lines[0], DiffLine::Context("alpha".to_string()));
    assert_eq!(lines[1], DiffLine::Removed("CHANGED".to_string()));
    assert_eq!(lines[2], DiffLine::Added("changed".to_string()));
    assert_eq!(lines[3], DiffLine::Context("gamma".to_string()));
    assert_eq!(hunks[0].old_count, 3);
    assert_eq!(hunks[0].new_count, 3);
}

#[test]
fn changed_line_in_middle_keeps_common_context() {
    let old = vec_of(&["alpha", "CHANGED", "gamma"]);
    let new = vec_of(&["alpha", "changed", "gamma"]);
    let hunks = compute_hunks(&old, &new, 3, false);
    let text = format_hunk(&hunks[0]);
    assert!(text.contains(" alpha\n"));
    assert!(text.contains("-CHANGED\n"));
    assert!(text.contains("+changed\n"));
    assert!(text.contains(" gamma\n"));
    assert!(!text.contains("-gamma\n"));
    assert!(!text.contains("+gamma\n"));
}

#[test]
fn ignore_all_space_treats_whitespace_differences_as_equal() {
    let old = vec_of(&["let  x  =  1;", "let y = 2;"]);
    let new = vec_of(&["let x = 1;", "let y = 2;"]);
    let opts = DiffOptions { ignore_all_space: true, ..DiffOptions::default() };
    let hunks = compute_hunks_with_options(&old, &new, &opts);
    assert!(hunks.is_empty(), "whitespace-only differences should be ignored");
}

#[test]
fn ignore_all_space_still_detects_real_changes() {
    let old = vec_of(&["let  x  =  1;", "let y = 2;"]);
    let new = vec_of(&["let x = 99;", "let y = 2;"]);
    let opts = DiffOptions { ignore_all_space: true, ..DiffOptions::default() };
    let hunks = compute_hunks_with_options(&old, &new, &opts);
    assert!(!hunks.is_empty(), "real content changes should be detected");
}

#[test]
fn collapse_whitespace_basic() {
    assert_eq!(collapse_whitespace("  hello   world  "), " hello world ");
    assert_eq!(collapse_whitespace("no_change"), "no_change");
    assert_eq!(collapse_whitespace("  a\tb\n"), " a b ");
}

#[test]
fn word_diff_detects_changed_word() {
    let segments = compute_word_diff("the quick brown fox", "the quick red fox");
    assert_eq!(segments.len(), 5);
    assert_eq!(segments[0], WordDiff::Context("the".to_string()));
    assert_eq!(segments[1], WordDiff::Context("quick".to_string()));
    assert_eq!(segments[2], WordDiff::Removed("brown".to_string()));
    assert_eq!(segments[3], WordDiff::Added("red".to_string()));
    assert_eq!(segments[4], WordDiff::Context("fox".to_string()));
}

#[test]
fn word_diff_all_changed() {
    let segments = compute_word_diff("aaa bbb", "ccc ddd");
    assert_eq!(segments.len(), 4);
    assert!(segments.iter().all(|s| matches!(s, WordDiff::Removed(_) | WordDiff::Added(_))));
}

#[test]
fn format_word_diff_basic() {
    let segments = vec![
        WordDiff::Context("the".to_string()),
        WordDiff::Removed("brown".to_string()),
        WordDiff::Added("red".to_string()),
        WordDiff::Context("fox".to_string()),
    ];
    let formatted = format_word_diff(&segments);
    assert!(formatted.contains("the"));
    assert!(formatted.contains("[-brown-]"));
    assert!(formatted.contains("{red}"));
    assert!(formatted.contains("fox"));
}

#[test]
fn json_escape_quotes_and_backslashes() {
    assert_eq!(json_escape(r#"he said "hello""#), r#"he said \"hello\""#);
    assert_eq!(json_escape(r#"path\to\file"#), r#"path\\to\\file"#);
    assert_eq!(json_escape("line1\nline2"), "line1\\nline2");
}

#[test]
fn json_output_structure() {
    let old = vec_of(&["a", "b"]);
    let new = vec_of(&["a", "X"]);
    let hunks = compute_hunks(&old, &new, 0, false);
    let json = format_json("old.txt", "new.txt", false, &hunks, &old);
    assert!(json.contains("\"old_file\": \"old.txt\""));
    assert!(json.contains("\"new_file\": \"new.txt\""));
    assert!(json.contains("\"identical\": false"));
    assert!(json.contains("\"insertions\":"));
    assert!(json.contains("\"deletions\":"));
}

#[test]
fn detect_context_function_rust() {
    let lines = vec_of(&[
        "use std::io;",
        "",
        "fn main() {",
        "    let x = 1;",
        "}",
        "",
        "fn process_order(order: &Order) -> Result<()> {",
        "    // do stuff",
        "    let y = 2;",
        "}",
    ]);
    let ctx = detect_context_function(&lines, 8);
    assert!(ctx.is_some());
    assert!(ctx.unwrap().contains("fn process_order"));
}

#[test]
fn detect_context_function_python() {
    let lines = vec_of(&["class Foo:", "    def bar(self):", "        pass"]);
    let ctx = detect_context_function(&lines, 2);
    assert!(ctx.is_some());
    assert!(ctx.unwrap().contains("def bar"));
}

#[test]
fn header_format_with_context() {
    let h = Hunk { old_start: 5, old_count: 3, new_start: 5, new_count: 4, lines: vec![] };
    assert_eq!(format_hunk_header(&h, Some("fn process_order")), "@@ -5,3 +5,4 @@ fn process_order");
}

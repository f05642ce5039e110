use ruling::diff::{
    collapse_whitespace,
    compute_hunks, compute_hunks_with_options, compute_word_diff, context_is_displayable, detect_context_function, format_hunk,
    format_hunk_with_options, format_json, format_word_diff, json_escape, DiffLine, DiffOptions, Hunk, WordDiff,
};

fn vec_of(items: &[&str]) -> Vec<String> {
    items.iter().map(|s| s.to_string()).collect()
}

fn ctx(s: &str) -> DiffLine {
    DiffLine::Context(s.to_string())
}
fn rem(s: &str) -> DiffLine {
    DiffLine::Removed(s.to_string())
}
fn add(s: &str) -> DiffLine {
    DiffLine::Added(s.to_string())
}

#[test]
fn default_options_are_three_lines_of_plain_comparison() {
    let o = DiffOptions::default();
    assert_eq!(o.context, 3);
    assert!(!o.ignore_case && !o.ignore_all_space && !o.word_diff);
}

#[test]
fn empty_old_file_gets_start_zero() {
    let old: Vec<String> = vec![];
    let new = vec_of(&["a", "b"]);
    let hunks = compute_hunks(&old, &new, 3, false);
    assert_eq!(hunks.len(), 1);
    assert_eq!(hunks[0].old_start, 0);
    assert_eq!(hunks[0].old_count, 0);
    assert_eq!(hunks[0].new_start, 1);
    assert_eq!(hunks[0].new_count, 2);
    assert_eq!(hunks[0].lines, vec![add("a"), add("b")]);
    assert_eq!(format_hunk(&hunks[0]), "@@ -0 +1,2 @@\n+a\n+b\n");
}

#[test]
fn empty_new_file_gets_start_zero() {
    let old = vec_of(&["a"]);
    let new: Vec<String> = vec![];
    let hunks = compute_hunks(&old, &new, 3, false);
    assert_eq!(hunks.len(), 1);
    assert_eq!(hunks[0].new_start, 0);
    assert_eq!(hunks[0].lines, vec![rem("a")]);
}

#[test]
fn both_empty_give_no_hunks() {
    let e: Vec<String> = vec![];
    assert!(compute_hunks(&e, &e, 3, false).is_empty());
}

#[test]
fn distant_changes_stay_in_separate_hunks() {
    let old = vec_of(&["a", "b", "c", "d", "e", "f", "g", "h"]);
    let new = vec_of(&["a", "X", "c", "d", "e", "Y", "g", "h"]);
    let hunks = compute_hunks(&old, &new, 1, false);
    assert_eq!(hunks.len(), 2);
    assert_eq!(hunks[0].lines, vec![ctx("a"), rem("b"), add("X"), ctx("c")]);
    assert_eq!((hunks[0].old_start, hunks[0].old_count, hunks[0].new_start, hunks[0].new_count), (1, 3, 1, 3));
    assert_eq!(hunks[1].lines, vec![ctx("e"), rem("f"), add("Y"), ctx("g")]);
    assert_eq!((hunks[1].old_start, hunks[1].old_count, hunks[1].new_start, hunks[1].new_count), (5, 3, 5, 3));
}

#[test]
fn touching_context_regions_merge() {
    // Two kept lines between the changes: with one line of context on each
    // side the shown regions touch, so the changes share one hunk.
    let old = vec_of(&["a", "b", "c", "d", "e", "f", "g", "h"]);
    let new = vec_of(&["a", "X", "c", "d", "Y", "f", "g", "h"]);
    let hunks = compute_hunks(&old, &new, 1, false);
    assert_eq!(hunks.len(), 1);
    assert_eq!(hunks[0].lines, vec![ctx("a"), rem("b"), add("X"), ctx("c"), ctx("d"), rem("e"), add("Y"), ctx("f")]);
    assert_eq!((hunks[0].old_start, hunks[0].old_count, hunks[0].new_start, hunks[0].new_count), (1, 6, 1, 6));
}

#[test]
fn insertions_around_a_kept_line_are_two_hunks() {
    let old = vec_of(&["a", "b"]);
    let new = vec_of(&["X", "a", "Y"]);
    let opts = DiffOptions { context: 0, ..DiffOptions::default() };
    let hunks = compute_hunks_with_options(&old, &new, &opts);
    assert_eq!(hunks.len(), 2);
    assert_eq!(hunks[0], Hunk { old_start: 0, old_count: 0, new_start: 1, new_count: 1, lines: vec![add("X")] });
    assert_eq!(hunks[1], Hunk { old_start: 2, old_count: 1, new_start: 3, new_count: 1, lines: vec![rem("b"), add("Y")] });
}

#[test]
fn no_context_means_no_kept_lines() {
    let old = vec_of(&["a", "b", "c"]);
    let new = vec_of(&["a", "c"]);
    let hunks = compute_hunks(&old, &new, 0, false);
    assert_eq!(hunks, vec![Hunk { old_start: 2, old_count: 1, new_start: 1, new_count: 0, lines: vec![rem("b")] }]);
    let old: Vec<String> = (0..30).map(|i| format!("l{i}")).collect();
    let mut new = old.clone();
    new[4] = "x".to_string();
    new.insert(12, "y".to_string());
    new.remove(20);
    for h in compute_hunks(&old, &new, 0, false) {
        assert!(h.lines.iter().all(|l| !matches!(l, DiffLine::Context(_))));
    }
}

#[test]
fn merged_runs_list_removals_before_additions() {
    let old = vec_of(&["a", "b", "k", "e", "f"]);
    let new = vec_of(&["A", "B", "k", "E", "F"]);
    let hunks = compute_hunks(&old, &new, 1, false);
    assert_eq!(hunks.len(), 1);
    assert_eq!(
        hunks[0].lines,
        vec![rem("a"), rem("b"), add("A"), add("B"), ctx("k"), rem("e"), rem("f"), add("E"), add("F")]
    );
}

#[test]
fn close_changes_share_a_hunk() {
    let old = vec_of(&["a", "b", "c", "d", "e", "f", "g", "h"]);
    let new = vec_of(&["a", "X", "c", "d", "Y", "f", "g", "h"]);
    let hunks = compute_hunks(&old, &new, 2, false);
    assert_eq!(hunks.len(), 1);
    assert_eq!(
        hunks[0].lines,
        vec![ctx("a"), rem("b"), add("X"), ctx("c"), ctx("d"), rem("e"), add("Y"), ctx("f"), ctx("g")]
    );
    assert_eq!(format_hunk(&hunks[0]).lines().next(), Some("@@ -1,7 +1,7 @@"));
}

#[test]
fn ignore_case_context_shows_old_text() {
    let hunks = compute_hunks(&vec_of(&["A", "b"]), &vec_of(&["a", "c"]), 3, true);
    assert_eq!(hunks.len(), 1);
    assert_eq!(hunks[0].lines, vec![ctx("A"), rem("b"), add("c")]);
}

#[test]
fn no_hunks_exactly_when_lines_match() {
    let o = vec_of(&["x", "y"]);
    assert!(compute_hunks(&o, &o, 0, false).is_empty());
    assert!(!compute_hunks(&o, &vec_of(&["x", "y", ""]), 0, false).is_empty());
    assert!(!compute_hunks(&o, &vec_of(&["x"]), 0, false).is_empty());
    let ws = DiffOptions { ignore_all_space: true, ..DiffOptions::default() };
    assert!(compute_hunks_with_options(&vec_of(&["  a\t b"]), &vec_of(&[" a b"]), &ws).is_empty());
    assert!(!compute_hunks_with_options(&vec_of(&["a "]), &vec_of(&["a"]), &ws).is_empty());
    let both = DiffOptions { ignore_all_space: true, ignore_case: true, ..DiffOptions::default() };
    assert!(compute_hunks_with_options(&vec_of(&["LET  X"]), &vec_of(&["let x"]), &both).is_empty());
}

#[test]
fn hunk_counts_agree_with_lines() {
    let old = vec_of(&["1", "2", "3", "4", "5", "6", "7", "8", "9"]);
    let new = vec_of(&["1", "two", "3", "4", "5", "6", "7", "eight", "9", "10"]);
    for context in 0..4 {
        for h in compute_hunks(&old, &new, context, false) {
            let old_lines = h.lines.iter().filter(|l| !matches!(l, DiffLine::Added(_))).count();
            let new_lines = h.lines.iter().filter(|l| !matches!(l, DiffLine::Removed(_))).count();
            assert_eq!(h.old_count, old_lines);
            assert_eq!(h.new_count, new_lines);
        }
    }
}

#[test]
fn word_diff_sides_rebuild_both_lines() {
    let old_line = "a b  c d e";
    let new_line = "a x c\te y";
    let segs = compute_word_diff(old_line, new_line);
    let old_side: Vec<String> = segs
        .iter()
        .filter_map(|s| match s {
            WordDiff::Context(w) | WordDiff::Removed(w) => Some(w.clone()),
            WordDiff::Added(_) => None,
        })
        .collect();
    let new_side: Vec<String> = segs
        .iter()
        .filter_map(|s| match s {
            WordDiff::Context(w) | WordDiff::Added(w) => Some(w.clone()),
            WordDiff::Removed(_) => None,
        })
        .collect();
    assert_eq!(old_side, vec_of(&["a", "b", "c", "d", "e"]));
    assert_eq!(new_side, vec_of(&["a", "x", "c", "e", "y"]));
    let kept = segs.iter().filter(|s| matches!(s, WordDiff::Context(_))).count();
    assert_eq!(kept, 3);
}

#[test]
fn word_diff_of_empty_lines() {
    assert!(compute_word_diff("", "   ").is_empty());
    assert_eq!(compute_word_diff("", "a"), vec![WordDiff::Added("a".to_string())]);
}

#[test]
fn format_word_diff_exact_text() {
    let segments = vec![
        WordDiff::Context("the".to_string()),
        WordDiff::Removed("brown".to_string()),
        WordDiff::Added("red".to_string()),
        WordDiff::Context("fox".to_string()),
    ];
    assert_eq!(format_word_diff(&segments), "the [-brown-] {red} fox");
    assert_eq!(format_word_diff(&[]), "");
    assert_eq!(format_word_diff(&[WordDiff::Context("a[".to_string()), WordDiff::Removed("b".to_string())]), "a[[-b-]");
}

#[test]
fn word_diff_hunk_formatting() {
    let h = Hunk {
        old_start: 1,
        old_count: 2,
        new_start: 1,
        new_count: 2,
        lines: vec![ctx("c"), rem("the brown fox"), add("the red fox")],
    };
    let opts = DiffOptions { context: 0, word_diff: true, ..DiffOptions::default() };
    assert_eq!(
        format_hunk_with_options(&h, &opts, &[]),
        "@@ -1,2 +1,2 @@\n c\n-[-the brown fox-]\n+{the red fox}\n the [-brown-] {red} fox\n"
    );
    let plain = DiffOptions { context: 0, ..DiffOptions::default() };
    assert_eq!(format_hunk_with_options(&h, &plain, &[]), "@@ -1,2 +1,2 @@\n c\n-the brown fox\n+the red fox\n");
}

#[test]
fn hunk_header_names_containing_function() {
    let old = vec_of(&["fn process_order() {", "    let x = 1;", "    let y = 2;", "}"]);
    let h = Hunk { old_start: 3, old_count: 1, new_start: 3, new_count: 1, lines: vec![rem("    let y = 2;"), add("    let y = 3;")] };
    let opts = DiffOptions::default();
    assert_eq!(
        format_hunk_with_options(&h, &opts, &old),
        "@@ -3 +3 @@ fn process_order() {\n-    let y = 2;\n+    let y = 3;\n"
    );
}

#[test]
fn context_detection_skips_comments_and_control_flow() {
    let lines = vec_of(&["int main(void) {", "// fn not_this()", "#define X 1", "    if (x) {", "  y();"]);
    assert_eq!(detect_context_function(&lines, 4), Some("int main(void) {".to_string()));
    assert_eq!(detect_context_function(&lines, 5), Some("y();".to_string()));
    assert_eq!(detect_context_function(&lines, 0), None);
    assert_eq!(detect_context_function(&vec_of(&["plain text"]), 1), None);
}

#[test]
fn context_detection_looks_back_at_most_a_hundred_lines() {
    let mut lines = vec_of(&["fn far() {"]);
    for _ in 0..150 {
        lines.push("x".to_string());
    }
    assert_eq!(detect_context_function(&lines, 100), Some("fn far() {".to_string()));
    assert_eq!(detect_context_function(&lines, 101), None);
}

#[test]
fn long_definition_is_shortened() {
    let long = format!("fn {}() {{", "a".repeat(70));
    let lines = vec![long.clone()];
    let shown = detect_context_function(&lines, 1).unwrap();
    assert_eq!(shown, format!("{}...", &long[..57]));
    assert_eq!(detect_context_function(&vec_of(&["   def f():   "]), 1), Some("def f():".to_string()));
}

#[test]
fn json_escape_control_characters() {
    assert_eq!(json_escape("a\tb\rc"), "a\\tb\\rc");
    assert_eq!(json_escape("\u{1}\u{7f}"), "\\u0001\\u007f");
    assert_eq!(json_escape("é"), "é");
}

#[test]
fn json_output_exact() {
    let old = vec_of(&["a", "b"]);
    let new = vec_of(&["a", "X"]);
    let hunks = compute_hunks(&old, &new, 0, false);
    let json = format_json("old.txt", "new.txt", false, &hunks, &old);
    let expected = "{\n  \"meta\": {\n    \"old_file\": \"old.txt\",\n    \"new_file\": \"new.txt\",\n    \"identical\": false\n  },\n  \"hunks\": [\n    {\n      \"old_start\": 2,\n      \"old_count\": 1,\n      \"new_start\": 2,\n      \"new_count\": 1,\n      \"lines\": [\n        { \"type\": \"removed\", \"content\": \"b\", \"old_line\": 2 },\n        { \"type\": \"added\", \"content\": \"X\", \"new_line\": 2 }\n      ]\n    }\n  ],\n  \"summary\": {\n    \"files_changed\": 1,\n    \"insertions\": 1,\n    \"deletions\": 1\n  }\n}\n";
    assert_eq!(json, expected);
}

#[test]
fn json_output_for_identical_files() {
    let json = format_json("a", "b", true, &[], &[]);
    assert_eq!(
        json,
        "{\n  \"meta\": {\n    \"old_file\": \"a\",\n    \"new_file\": \"b\",\n    \"identical\": true\n  },\n  \"hunks\": [\n  ],\n  \"summary\": {\n    \"files_changed\": 0,\n    \"insertions\": 0,\n    \"deletions\": 0\n  }\n}\n"
    );
}

#[test]
fn collapse_is_idempotent_and_single_spaced() {
    for s in ["  a \t\n b  ", "x", "", " \r\n", "a\u{A0} b"] {
        let once = collapse_whitespace(s);
        assert_eq!(collapse_whitespace(&once), once);
        assert!(!once.contains("  "));
        assert!(!once.contains('\t') && !once.contains('\n') && !once.contains('\r'));
    }
}

#[test]
fn json_escape_leaves_no_control_characters() {
    let s: String = (0u32..0x100).filter_map(char::from_u32).collect();
    assert!(!json_escape(&s).chars().any(|c| c.is_control()));
}

fn begin(start: usize, count: usize) -> usize {
    if count > 0 { start - 1 } else { start }
}

/// Applies hunks to the old lines.
fn apply(old: &[String], hunks: &[Hunk]) -> Vec<String> {
    let mut out = Vec::new();
    let mut pos = 0;
    for h in hunks {
        let b = begin(h.old_start, h.old_count);
        out.extend_from_slice(&old[pos..b]);
        for l in &h.lines {
            match l {
                DiffLine::Context(s) | DiffLine::Added(s) => out.push(s.clone()),
                DiffLine::Removed(_) => {}
            }
        }
        pos = b + h.old_count;
    }
    out.extend_from_slice(&old[pos..]);
    out
}

fn forty_lines_edited() -> (Vec<String>, Vec<String>) {
    let old: Vec<String> = (0..40).map(|i| format!("line {i}")).collect();
    let mut new = old.clone();
    for k in [3usize, 6, 7, 15, 22, 23, 30, 38] {
        new[k] = format!("changed {k}");
    }
    new.insert(10, "inserted".to_string());
    new.remove(27);
    (old, new)
}

#[test]
fn consecutive_hunks_stay_apart_in_both_files() {
    let (old, new) = forty_lines_edited();
    for context in 0..6 {
        let hunks = compute_hunks(&old, &new, context, false);
        for pair in hunks.windows(2) {
            let (a, b) = (&pair[0], &pair[1]);
            assert!(begin(a.old_start, a.old_count) + a.old_count < begin(b.old_start, b.old_count));
            assert!(begin(a.new_start, a.new_count) + a.new_count < begin(b.new_start, b.new_count));
        }
    }
}

#[test]
fn applying_the_hunks_gives_the_new_file() {
    let (old, new) = forty_lines_edited();
    for context in 0..6 {
        let hunks = compute_hunks(&old, &new, context, false);
        assert_eq!(apply(&old, &hunks), new);
        for h in &hunks {
            let ob = begin(h.old_start, h.old_count);
            let old_side: Vec<String> = h
                .lines
                .iter()
                .filter_map(|l| match l {
                    DiffLine::Context(s) | DiffLine::Removed(s) => Some(s.clone()),
                    DiffLine::Added(_) => None,
                })
                .collect();
            assert_eq!(old_side, old[ob..ob + h.old_count].to_vec());
            let nb = begin(h.new_start, h.new_count);
            let new_side: Vec<String> = h
                .lines
                .iter()
                .filter_map(|l| match l {
                    DiffLine::Context(s) | DiffLine::Added(s) => Some(s.clone()),
                    DiffLine::Removed(_) => None,
                })
                .collect();
            assert_eq!(new_side, new[nb..nb + h.new_count].to_vec());
        }
    }
    let e: Vec<String> = vec![];
    assert_eq!(apply(&e, &compute_hunks(&e, &new, 3, false)), new);
    assert_eq!(apply(&old, &compute_hunks(&old, &e, 3, false)), e);
}

#[test]
fn edit_script_keeps_a_longest_common_subsequence() {
    let old = vec_of(&["a", "b", "c", "d"]);
    let new = vec_of(&["b", "c", "e"]);
    let hunks = compute_hunks(&old, &new, 10, false);
    assert_eq!(hunks.len(), 1);
    assert_eq!(hunks[0].lines, vec![rem("a"), ctx("b"), ctx("c"), rem("d"), add("e")]);
    let removed = hunks[0].lines.iter().filter(|l| matches!(l, DiffLine::Removed(_))).count();
    let added = hunks[0].lines.iter().filter(|l| matches!(l, DiffLine::Added(_))).count();
    // The longest common subsequence is ["b", "c"].
    assert_eq!(removed, old.len() - 2);
    assert_eq!(added, new.len() - 2);
}

#[test]
fn definition_lines_with_visibility_and_generics_are_found() {
    for line in ["pub struct Config {", "pub enum Kind {", "pub trait Show {", "impl<T> Show for Vec<T> {"] {
        let lines = vec_of(&[line, "x"]);
        assert_eq!(detect_context_function(&lines, 2), Some(line.to_string()));
    }
    assert_eq!(detect_context_function(&vec_of(&["pub type Id = u32;", "x"]), 2), None);
}

/// Decodes a JSON string body into its characters.
fn unescape(t: &str) -> String {
    let chars: Vec<char> = t.chars().collect();
    let mut out = String::new();
    let mut i = 0;
    while i < chars.len() {
        if chars[i] == '\\' && i + 1 < chars.len() {
            match chars[i + 1] {
                'n' => out.push('\n'),
                'r' => out.push('\r'),
                't' => out.push('\t'),
                'u' => {
                    let hex: String = chars[i + 2..i + 6].iter().collect();
                    out.push(char::from_u32(u32::from_str_radix(&hex, 16).unwrap()).unwrap());
                    i += 6;
                    continue;
                }
                c => out.push(c),
            }
            i += 2;
        } else {
            out.push(chars[i]);
            i += 1;
        }
    }
    out
}

#[test]
fn json_escape_round_trips() {
    for s in ["plain", "a\"b\\c", "tab\there\r\nend", "\u{0}\u{1f}\u{7f}\u{9f}", "é → 🎉", ""] {
        assert_eq!(unescape(&json_escape(s)), s);
    }
}

#[test]
fn displayability_of_a_definition_is_checked() {
    let cut = format!("fn {}é(x: u8) {{", "a".repeat(53));
    let whole = format!("fn {}é(x: u8) {{", "a".repeat(52));
    let lines = vec![cut, "x".to_string()];
    assert!(!context_is_displayable(&lines, 1));
    assert!(context_is_displayable(&lines, 0));
    let lines = vec![whole.clone(), "x".to_string()];
    assert!(context_is_displayable(&lines, 2));
    assert_eq!(detect_context_function(&lines, 2), Some(format!("{}...", &whole[..57])));
    assert!(context_is_displayable(&vec_of(&["plain"]), 1));
}

#[test]
fn context_is_cut_only_by_the_ends_of_the_files() {
    let old: Vec<String> = (1..=12).map(|i| i.to_string()).collect();
    let mut new = old.clone();
    new[1] = "two".to_string();
    new[10] = "eleven".to_string();
    let hunks = compute_hunks(&old, &new, 3, false);
    assert_eq!(hunks.len(), 2);
    assert_eq!(hunks[0].lines, vec![ctx("1"), rem("2"), add("two"), ctx("3"), ctx("4"), ctx("5")]);
    assert_eq!((hunks[0].old_start, hunks[0].old_count), (1, 5));
    assert_eq!(hunks[1].lines, vec![ctx("8"), ctx("9"), ctx("10"), rem("11"), add("eleven"), ctx("12")]);
    assert_eq!((hunks[1].old_start, hunks[1].old_count, hunks[1].new_start, hunks[1].new_count), (8, 5, 8, 5));
}

use ruling::cli::Config;
use ruling::compare::{compare_lines, comparison_renderable, exit_code, is_binary, strip_line_ending, CompareOutcome};

fn vec_of(items: &[&str]) -> Vec<String> {
    items.iter().map(|s| s.to_string()).collect()
}

fn config(brief: bool, ignore_case: bool, context: usize) -> Config {
    Config {
        file_a: "a.txt".to_string(),
        file_b: "b.txt".to_string(),
        unified_context: context,
        ignore_case,
        brief,
        ignore_all_space: false,
        word_diff: false,
        json: false,
    }
}

#[test]
fn binary_detection_accepts_utf8() {
    let data = b"hello\nworld\n";
    assert!(!is_binary(data, true));
}

#[test]
fn binary_detection_rejects_non_utf8() {
    let data = [0xffu8, 0xfe, 0x00, 0x01];
    assert!(is_binary(&data, true));
}

#[test]
fn binary_detection_accepts_multibyte_utf8() {
    assert!(!is_binary("héllo → wörld 🎉".as_bytes(), true));
}

#[test]
fn binary_detection_rejects_nul_and_bad_sequences() {
    assert!(is_binary(b"abc\0def", true));
    assert!(is_binary(&[0xC0, 0x80], true));
    assert!(is_binary(&[0xED, 0xA0, 0x80], true));
    assert!(is_binary(&[0xE2, 0x82], true));
    assert!(is_binary(&[0xF4, 0x90, 0x80, 0x80], true));
    assert!(!is_binary(&[], true));
}

#[test]
fn line_endings_are_stripped() {
    assert_eq!(strip_line_ending("abc\n"), "abc");
    assert_eq!(strip_line_ending("abc\r\n"), "abc");
    assert_eq!(strip_line_ending("abc"), "abc");
    assert_eq!(strip_line_ending("abc\r"), "abc\r");
    assert_eq!(strip_line_ending("\n"), "");
}

#[test]
fn identical_lines_give_identical_and_no_output() {
    let a = vec_of(&["line1", "line2", "line3"]);
    let (outcome, out) = compare_lines(&config(false, false, 3), &a, &a);
    assert_eq!(outcome, CompareOutcome::Identical);
    assert_eq!(out, "");
}

#[test]
fn different_lines_give_unified_output() {
    let a = vec_of(&["line1", "line2", "line3"]);
    let b = vec_of(&["line1", "changed", "line3"]);
    let (outcome, out) = compare_lines(&config(false, false, 3), &a, &b);
    assert_eq!(outcome, CompareOutcome::Differ);
    assert_eq!(out, "--- a.txt\n+++ b.txt\n@@ -1,3 +1,3 @@\n line1\n-line2\n+changed\n line3\n");
}

#[test]
fn brief_mode_gives_summary_line() {
    let a = vec_of(&["a"]);
    let b = vec_of(&["b"]);
    let (outcome, out) = compare_lines(&config(true, false, 3), &a, &b);
    assert_eq!(outcome, CompareOutcome::Differ);
    assert_eq!(out, "Files a.txt and b.txt differ\n");
}

#[test]
fn ignore_case_makes_lines_identical() {
    let a = vec_of(&["Hello World"]);
    let b = vec_of(&["hello world"]);
    assert_eq!(compare_lines(&config(false, true, 3), &a, &b).0, CompareOutcome::Identical);
    assert_eq!(compare_lines(&config(false, false, 3), &a, &b).0, CompareOutcome::Differ);
}

#[test]
fn unified_context_controls_context() {
    let a = vec_of(&["1", "2", "3", "4", "5", "6", "7"]);
    let b = vec_of(&["1", "2", "3", "X", "5", "6", "7"]);
    let (_, out) = compare_lines(&config(false, false, 1), &a, &b);
    assert_eq!(out, "--- a.txt\n+++ b.txt\n@@ -3,3 +3,3 @@\n 3\n-4\n+X\n 5\n");
}

#[test]
fn binary_detection_allows_a_character_cut_at_the_sample_end() {
    let text = "abc → wörld";
    let bytes = text.as_bytes();
    // Cut inside the three-byte arrow.
    let cut = &bytes[..5];
    assert!(!is_binary(cut, false));
    assert!(is_binary(cut, true));
    // A cut four-byte character, two of its bytes present.
    assert!(!is_binary(&[b'a', 0xF0, 0x9F], false));
    // A bad continuation is still binary, cut or not.
    assert!(is_binary(&[b'a', 0xE2, 0x41], false));
    // A cut that could not start a character is binary.
    assert!(is_binary(&[b'a', 0x80], false));
    // A NUL byte is binary either way.
    assert!(is_binary(&[0x00, 0xE2], false));
}

#[test]
fn exit_codes_follow_the_outcome() {
    assert_eq!(exit_code(&Ok(CompareOutcome::Identical)), 0);
    assert_eq!(exit_code(&Ok(CompareOutcome::Differ)), 1);
    assert_eq!(exit_code(&Ok(CompareOutcome::Binary)), 1);
    assert_eq!(exit_code(&Err("missing".to_string())), 2);
}

#[test]
fn comparison_headers_name_the_containing_function() {
    let a = vec_of(&["fn main() {", "    let x = 1;", "    let y = 2;", "}"]);
    let b = vec_of(&["fn main() {", "    let x = 1;", "    let y = 3;", "}"]);
    let cfg = config(false, false, 1);
    assert!(comparison_renderable(&cfg, &a, &b));
    let (outcome, out) = compare_lines(&cfg, &a, &b);
    assert_eq!(outcome, CompareOutcome::Differ);
    assert_eq!(
        out,
        "--- a.txt\n+++ b.txt\n@@ -2,3 +2,3 @@ fn main() {\n     let x = 1;\n-    let y = 2;\n+    let y = 3;\n }\n"
    );
}

#[test]
fn comparison_ignores_whitespace_when_asked() {
    let a = vec_of(&["let  x  =  1;"]);
    let b = vec_of(&["let x = 1;"]);
    let mut cfg = config(false, false, 3);
    assert_eq!(compare_lines(&cfg, &a, &b).0, CompareOutcome::Differ);
    cfg.ignore_all_space = true;
    assert_eq!(compare_lines(&cfg, &a, &b).0, CompareOutcome::Identical);
}

#[test]
fn comparison_shows_word_changes_when_asked() {
    let a = vec_of(&["the quick fox"]);
    let b = vec_of(&["the slow fox"]);
    let mut cfg = config(false, false, 0);
    cfg.word_diff = true;
    let (_, out) = compare_lines(&cfg, &a, &b);
    assert!(out.starts_with("--- a.txt\n+++ b.txt\n@@ -1 +1 @@\n"));
    assert!(out.contains("[-quick-]"));
    assert!(out.contains("{slow}"));
}

#[test]
fn comparison_prints_json_when_asked() {
    let a = vec_of(&["x"]);
    let mut cfg = config(false, false, 3);
    cfg.json = true;
    let (outcome, out) = compare_lines(&cfg, &a, &a);
    assert_eq!(outcome, CompareOutcome::Identical);
    assert!(out.contains("\"identical\": true"));
    assert!(out.contains("\"files_changed\": 0"));
    let b = vec_of(&["y"]);
    let (outcome, out) = compare_lines(&cfg, &a, &b);
    assert_eq!(outcome, CompareOutcome::Differ);
    assert!(out.contains("\"identical\": false"));
    assert!(out.contains("\"insertions\": 1"));
    assert!(out.contains("\"deletions\": 1"));
    assert!(out.contains("{ \"type\": \"removed\", \"content\": \"x\", \"old_line\": 1 },"));
}

#[test]
fn renderable_is_false_when_a_definition_would_be_cut() {
    // A definition line over 60 bytes whose 57th byte falls inside a
    // multi-byte character.
    let long = format!("fn {}é(x: u8) {{", "a".repeat(53));
    let mut a = vec![long];
    for k in 1..7 {
        a.push(k.to_string());
    }
    let mut b = a.clone();
    b[6] = "X".to_string();
    let mut json = config(false, false, 3);
    json.json = true;
    assert!(!comparison_renderable(&json, &a, &b));
    assert!(comparison_renderable(&config(false, false, 3), &a, &b));
    assert!(comparison_renderable(&config(true, false, 3), &a, &b));
    // The unified diff shows that hunk with a header that names no definition.
    let (outcome, out) = compare_lines(&config(false, false, 3), &a, &b);
    assert_eq!(outcome, CompareOutcome::Differ);
    assert_eq!(out, "--- a.txt\n+++ b.txt\n@@ -4,4 +4,4 @@\n 3\n 4\n 5\n-6\n+X\n");
}

use ruling::cli::{describe_parse_error, parse_args, ParseError};

fn args(items: &[&str]) -> Vec<String> {
    items.iter().map(|s| s.to_string()).collect()
}

#[test]
fn parses_two_positional_files() {
    let cfg = parse_args(&args(&["a.txt", "b.txt"])).unwrap();
    assert_eq!(cfg.file_a, "a.txt");
    assert_eq!(cfg.file_b, "b.txt");
    assert_eq!(cfg.unified_context, 3);
    assert!(!cfg.ignore_case);
    assert!(!cfg.brief);
}

#[test]
fn parses_unified_flag_with_value() {
    let cfg = parse_args(&args(&["-u", "5", "a.txt", "b.txt"])).unwrap();
    assert_eq!(cfg.unified_context, 5);
}

#[test]
fn parses_unified_equals_form() {
    let cfg = parse_args(&args(&["--unified=0", "a.txt", "b.txt"])).unwrap();
    assert_eq!(cfg.unified_context, 0);
}

#[test]
fn parses_ignore_case_and_brief() {
    let cfg = parse_args(&args(&["-i", "-q", "a.txt", "b.txt"])).unwrap();
    assert!(cfg.ignore_case);
    assert!(cfg.brief);
}

#[test]
fn rejects_unknown_flag() {
    let err = parse_args(&args(&["--bogus", "a.txt", "b.txt"])).unwrap_err();
    assert_eq!(err, ParseError::UnknownFlag("--bogus".to_string()));
}

#[test]
fn rejects_missing_argument() {
    let err = parse_args(&args(&["only-one.txt"])).unwrap_err();
    assert_eq!(err, ParseError::MissingArg);
}

#[test]
fn rejects_extra_argument() {
    let err = parse_args(&args(&["a.txt", "b.txt", "c.txt"])).unwrap_err();
    assert_eq!(err, ParseError::ExtraArg);
}

#[test]
fn rejects_bad_unified_value() {
    let err = parse_args(&args(&["-u", "abc", "a.txt", "b.txt"])).unwrap_err();
    assert_eq!(err, ParseError::BadUnified("abc".to_string()));
}

#[test]
fn long_flags_are_accepted_in_any_position() {
    let cfg = parse_args(&args(&["a.txt", "--ignore-case", "b.txt", "--brief", "--unified", "7"])).unwrap();
    assert_eq!(cfg.file_a, "a.txt");
    assert_eq!(cfg.file_b, "b.txt");
    assert_eq!(cfg.unified_context, 7);
    assert!(cfg.ignore_case);
    assert!(cfg.brief);
}

#[test]
fn later_unified_value_wins() {
    let cfg = parse_args(&args(&["-u", "1", "--unified=9", "a", "b"])).unwrap();
    assert_eq!(cfg.unified_context, 9);
}

#[test]
fn unified_value_accepts_plus_sign_and_leading_zeros() {
    let cfg = parse_args(&args(&["-u", "+007", "a", "b"])).unwrap();
    assert_eq!(cfg.unified_context, 7);
}

#[test]
fn unified_without_value_is_bad() {
    let err = parse_args(&args(&["a", "b", "-u"])).unwrap_err();
    assert_eq!(err, ParseError::BadUnified(String::new()));
}

#[test]
fn unified_rejects_negative_and_empty_and_lone_plus() {
    assert_eq!(parse_args(&args(&["-u", "-1", "a", "b"])).unwrap_err(), ParseError::BadUnified("-1".to_string()));
    assert_eq!(parse_args(&args(&["--unified=", "a", "b"])).unwrap_err(), ParseError::BadUnified(String::new()));
    assert_eq!(parse_args(&args(&["-u", "+", "a", "b"])).unwrap_err(), ParseError::BadUnified("+".to_string()));
}

#[test]
fn unified_rejects_overflowing_value() {
    let too_big = "99999999999999999999999999";
    assert_eq!(
        parse_args(&args(&["-u", too_big, "a", "b"])).unwrap_err(),
        ParseError::BadUnified(too_big.to_string())
    );
}

#[test]
fn lone_dash_is_a_file_operand() {
    let cfg = parse_args(&args(&["-", "b.txt"])).unwrap();
    assert_eq!(cfg.file_a, "-");
}

#[test]
fn no_arguments_is_missing_arg() {
    assert_eq!(parse_args(&args(&[])).unwrap_err(), ParseError::MissingArg);
}

#[test]
fn error_messages_describe_each_error() {
    assert_eq!(describe_parse_error(&ParseError::UnknownFlag("--x".to_string())), "unknown option '--x'");
    assert_eq!(describe_parse_error(&ParseError::MissingArg), "missing file operand");
    assert_eq!(describe_parse_error(&ParseError::ExtraArg), "too many file operands");
    assert_eq!(
        describe_parse_error(&ParseError::BadUnified("q".to_string())),
        "invalid --unified value 'q' (expected a non-negative integer)"
    );
}

#[test]
fn help_and_version_flags_are_accepted_by_the_parser() {
    let cfg = parse_args(&args(&["--help", "a", "-V", "b", "--version", "-h"])).unwrap();
    assert_eq!(cfg.file_a, "a");
    assert_eq!(cfg.file_b, "b");
    assert_eq!(parse_args(&args(&["-V"])).unwrap_err(), ParseError::MissingArg);
}

#[test]
fn whitespace_word_diff_and_json_flags_are_accepted() {
    let cfg = parse_args(&args(&["a.txt", "b.txt"])).unwrap();
    assert!(!cfg.ignore_all_space);
    assert!(!cfg.word_diff);
    assert!(!cfg.json);
    let cfg = parse_args(&args(&["-w", "a.txt", "--word-diff", "b.txt", "--json"])).unwrap();
    assert!(cfg.ignore_all_space);
    assert!(cfg.word_diff);
    assert!(cfg.json);
    assert_eq!(cfg.file_a, "a.txt");
    assert_eq!(cfg.file_b, "b.txt");
    let cfg = parse_args(&args(&["--ignore-all-space", "a.txt", "b.txt"])).unwrap();
    assert!(cfg.ignore_all_space);
    assert!(!cfg.ignore_case);
}

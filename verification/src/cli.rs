//! Hand-rolled command-line argument parsing.
//!
//! The command-line surface is `ruling <file-a> <file-b> [OPTIONS]`.
use vstd::prelude::*;
use crate::text::{decimal, digit_char, chars_of, eq_str, starts_with_str, string_from_chars, push_str};
use crate::diff::text_lines;

verus! {

/// The parsed command-line configuration.
#[derive(Debug, Clone)]
pub struct Config {
    /// Path to the first file (the "old" file).
    pub file_a: String,
    /// Path to the second file (the "new" file).
    pub file_b: String,
    /// Number of context lines to include around hunks (default 3).
    pub unified_context: usize,
    /// Whether to compare case-insensitively (`-i`).
    pub ignore_case: bool,
    /// Whether to run in brief mode (`-q`), printing only a summary line.
    pub brief: bool,
    /// Whether to ignore all whitespace when comparing lines (`-w`).
    pub ignore_all_space: bool,
    /// Whether to show word-level changes within changed lines (`--word-diff`).
    pub word_diff: bool,
    /// Whether to print the diff as JSON (`--json`).
    pub json: bool,
}

/// The mathematical content of a [`Config`].
pub struct ConfigView {
    pub file_a: Seq<char>,
    pub file_b: Seq<char>,
    pub unified_context: usize,
    pub ignore_case: bool,
    pub brief: bool,
    pub ignore_all_space: bool,
    pub word_diff: bool,
    pub json: bool,
}

impl View for Config {
    type V = ConfigView;

    open spec fn view(&self) -> ConfigView {
        ConfigView {
            file_a: self.file_a@,
            file_b: self.file_b@,
            unified_context: self.unified_context,
            ignore_case: self.ignore_case,
            brief: self.brief,
            ignore_all_space: self.ignore_all_space,
            word_diff: self.word_diff,
            json: self.json,
        }
    }
}

/// Errors produced while parsing command-line arguments.
#[derive(Debug, Clone, PartialEq, Eq)]
pub enum ParseError {
    /// An unrecognized flag was supplied.
    UnknownFlag(String),
    /// A required argument (a file operand) was missing.
    MissingArg,
    /// More than two file operands were supplied.
    ExtraArg,
    /// The value for `--unified` was missing or not a non-negative integer.
    BadUnified(String),
}

/// The mathematical content of a [`ParseError`].
pub enum ParseErrorView {
    UnknownFlag(Seq<char>),
    MissingArg,
    ExtraArg,
    BadUnified(Seq<char>),
}

impl View for ParseError {
    type V = ParseErrorView;

    open spec fn view(&self) -> ParseErrorView {
        match self {
            ParseError::UnknownFlag(s) => ParseErrorView::UnknownFlag(s@),
            ParseError::MissingArg => ParseErrorView::MissingArg,
            ParseError::ExtraArg => ParseErrorView::ExtraArg,
            ParseError::BadUnified(s) => ParseErrorView::BadUnified(s@),
        }
    }
}

/// The view of a parse result.
pub open spec fn result_view(r: Result<Config, ParseError>) -> Result<ConfigView, ParseErrorView> {
    match r {
        Ok(c) => Ok(c@),
        Err(e) => Err(e@),
    }
}

pub open spec fn is_digit(c: char) -> bool {
    '0' <= c && c <= '9'
}

/// The value of a string of decimal digits.
pub open spec fn digits_value(s: Seq<char>) -> nat
    decreases s.len(),
{
    if s.len() == 0 {
        0
    } else {
        digits_value(s.drop_last()) * 10 + ((s.last() as int - 48) as nat)
    }
}

/// The digits of a count: the text after an optional leading `+`.
pub open spec fn count_digits(s: Seq<char>) -> Seq<char> {
    if s.len() > 0 && s[0] == '+' { s.drop_first() } else { s }
}

/// One or more decimal digits.
pub open spec fn all_digits(d: Seq<char>) -> bool {
    d.len() > 0 && forall|k: int| 0 <= k < d.len() ==> is_digit(#[trigger] d[k])
}

/// `usize::from_str`: an optional `+` followed by one or more decimal
/// digits whose value fits in `usize`.
pub open spec fn parse_count(s: Seq<char>) -> Option<usize> {
    if all_digits(count_digits(s)) && digits_value(count_digits(s)) <= usize::MAX {
        Some(digits_value(count_digits(s)) as usize)
    } else {
        None
    }
}

proof fn lemma_digits_value_grows(s: Seq<char>, k: int, j: int)
    requires
        0 <= k <= j <= s.len(),
        forall|t: int| 0 <= t < s.len() ==> is_digit(#[trigger] s[t]),
    ensures
        digits_value(s.take(k)) <= digits_value(s.take(j)),
    decreases j - k,
{
    if k < j {
        lemma_digits_value_grows(s, k, j - 1);
        assert(s.take(j).drop_last() =~= s.take(j - 1));
        assert(is_digit(s[j - 1]));
    }
}

/// Parse a non-negative integer used as the unified context count.
fn parse_context(value: &str) -> (r: Result<usize, ParseError>)
    ensures
        r matches Ok(v) ==> parse_count(value@) == Some(v),
        r matches Err(e) ==> parse_count(value@) is None && e@ == ParseErrorView::BadUnified(value@),
{
    let s = chars_of(value);
    let start: usize = if s.len() > 0 && s[0] == '+' { 1 } else { 0 };
    let ghost d = if s@.len() > 0 && s@[0] == '+' { s@.drop_first() } else { s@ };
    proof {
        assert(d =~= s@.skip(start as int));
        assert(d == count_digits(value@));
    }
    if start >= s.len() {
        let r = string_from_chars(&s);
        assert(d.len() == 0);
        assert(parse_count(value@) is None);
        assert(r@ == value@);
        return Err(ParseError::BadUnified(r));
    }
    let mut k = start;
    while k < s.len()
        invariant
            s@ == value@,
            d == s@.skip(start as int),
            start <= k <= s@.len(),
            forall|t: int| 0 <= t < k - start ==> is_digit(#[trigger] d[t]),
            d == count_digits(value@),
        decreases s@.len() - k,
    {
        let c = s[k];
        if !('0' <= c && c <= '9') {
            let r = string_from_chars(&s);
            assert(d[k - start] == c);
            assert(!is_digit(d[k - start]));
            assert(!(forall|t: int| 0 <= t < d.len() ==> is_digit(#[trigger] d[t])));

            return Err(ParseError::BadUnified(r));
        }
        k += 1;
    }
    let mut value_acc: usize = 0;
    let mut k = start;
    while k < s.len()
        invariant
            s@ == value@,
            d == s@.skip(start as int),
            start < s@.len(),
            start <= k <= s@.len(),
            forall|t: int| 0 <= t < d.len() ==> is_digit(#[trigger] d[t]),
            value_acc as nat == digits_value(d.take(k - start)),
            d == count_digits(value@),
        decreases s@.len() - k,
    {
        let c = s[k];
        proof {
            assert(d.take(k + 1 - start).drop_last() =~= d.take(k - start));
            assert(d[k - start] == c);
        }
        let digit: usize = (c as u32 - 48) as usize;
        match value_acc.checked_mul(10) {
            Some(t) => match t.checked_add(digit) {
                Some(v) => {
                    value_acc = v;
                },
                None => {
                    let r = string_from_chars(&s);
                    proof {
                        lemma_digits_value_grows(d, k + 1 - start, d.len() as int);
                        assert(d.take(d.len() as int) =~= d);
                        assert(parse_count(value@) is None);
                    }
                    return Err(ParseError::BadUnified(r));
                },
            },
            None => {
                let r = string_from_chars(&s);
                proof {
                    lemma_digits_value_grows(d, k + 1 - start, d.len() as int);
                    assert(d.take(d.len() as int) =~= d);
                    assert(parse_count(value@) is None);
                }
                return Err(ParseError::BadUnified(r));
            },
        }
        k += 1;
    }
    assert(d.take(d.len() as int) =~= d);
    Ok(value_acc)
}

/// The state of the parser between arguments.
pub struct ParseState {
    pub file_a: Option<Seq<char>>,
    pub file_b: Option<Seq<char>>,
    pub unified_context: usize,
    pub ignore_case: bool,
    pub brief: bool,
    pub ignore_all_space: bool,
    pub word_diff: bool,
    pub json: bool,
}

/// Parses the arguments from index `i` on.
pub open spec fn parse_from(args: Seq<Seq<char>>, i: int, st: ParseState) -> Result<ConfigView, ParseErrorView>
    decreases args.len() - i,
{
    if 0 <= i < args.len() {
        let a = args[i];
        if a == "-i"@ || a == "--ignore-case"@ {
            parse_from(args, i + 1, ParseState { ignore_case: true, ..st })
        } else if a == "-q"@ || a == "--brief"@ {
            parse_from(args, i + 1, ParseState { brief: true, ..st })
        } else if a == "-w"@ || a == "--ignore-all-space"@ {
            parse_from(args, i + 1, ParseState { ignore_all_space: true, ..st })
        } else if a == "--word-diff"@ {
            parse_from(args, i + 1, ParseState { word_diff: true, ..st })
        } else if a == "--json"@ {
            parse_from(args, i + 1, ParseState { json: true, ..st })
        } else if a == "-h"@ || a == "--help"@ || a == "-V"@ || a == "--version"@ {
            parse_from(args, i + 1, st)
        } else if a == "-u"@ || a == "--unified"@ {
            if i + 1 >= args.len() {
                Err(ParseErrorView::BadUnified(Seq::empty()))
            } else {
                match parse_count(args[i + 1]) {
                    Some(v) => parse_from(args, i + 2, ParseState { unified_context: v, ..st }),
                    None => Err(ParseErrorView::BadUnified(args[i + 1])),
                }
            }
        } else if "--unified="@.is_prefix_of(a) {
            let v = a.skip("--unified="@.len() as int);
            match parse_count(v) {
                Some(c) => parse_from(args, i + 1, ParseState { unified_context: c, ..st }),
                None => Err(ParseErrorView::BadUnified(v)),
            }
        } else if a.len() > 1 && a[0] == '-' {
            Err(ParseErrorView::UnknownFlag(a))
        } else if st.file_a is None {
            parse_from(args, i + 1, ParseState { file_a: Some(a), ..st })
        } else if st.file_b is None {
            parse_from(args, i + 1, ParseState { file_b: Some(a), ..st })
        } else {
            Err(ParseErrorView::ExtraArg)
        }
    } else {
        match (st.file_a, st.file_b) {
            (Some(fa), Some(fb)) => Ok(
                ConfigView {
                    file_a: fa,
                    file_b: fb,
                    unified_context: st.unified_context,
                    ignore_case: st.ignore_case,
                    brief: st.brief,
                    ignore_all_space: st.ignore_all_space,
                    word_diff: st.word_diff,
                    json: st.json,
                },
            ),
            _ => Err(ParseErrorView::MissingArg),
        }
    }
}

/// The configuration (or error) that the arguments describe.
pub open spec fn parse(args: Seq<Seq<char>>) -> Result<ConfigView, ParseErrorView> {
    parse_from(args, 0, ParseState {
        file_a: None,
        file_b: None,
        unified_context: 3,
        ignore_case: false,
        brief: false,
        ignore_all_space: false,
        word_diff: false,
        json: false,
    })
}

pub open spec fn opt_view(o: Option<String>) -> Option<Seq<char>> {
    match o {
        Some(s) => Some(s@),
        None => None,
    }
}

/// Parse the command-line arguments (excluding the program name) into a
/// [`Config`].
///
/// The two positional operands are the file paths. Flags may appear in any
/// position:
/// - `-u N` / `--unified N` / `--unified=N`: set the number of context lines
///   (default 3).
/// - `-i` / `--ignore-case`: compare case-insensitively.
/// - `-q` / `--brief`: only report whether the files differ.
/// - `-w` / `--ignore-all-space`: ignore whitespace when comparing lines.
/// - `--word-diff`: show word-level changes within changed lines.
/// - `--json`: print the diff as JSON.
/// - `--help` and `--version` are handled by the program before this parser
///   is asked for a full config; they are still accepted (and ignored) here.
pub fn parse_args(args: &[String]) -> (r: Result<Config, ParseError>)
    ensures
        result_view(r) == parse(text_lines(args@)),
{
    let ghost av = text_lines(args@);
    let ghost target = parse(av);
    let mut file_a: Option<String> = None;
    let mut file_b: Option<String> = None;
    let mut unified_context: usize = 3;
    let mut ignore_case = false;
    let mut brief = false;
    let mut ignore_all_space = false;
    let mut word_diff = false;
    let mut json = false;
    let mut i: usize = 0;
    while i < args.len()
        invariant
            av == text_lines(args@),
            target == parse(av),
            i <= args@.len(),
            target == parse_from(av, i as int, ParseState {
                file_a: opt_view(file_a),
                file_b: opt_view(file_b),
                unified_context,
                ignore_case,
                brief,
                ignore_all_space,
                word_diff,
                json,
            }),
        decreases args@.len() - i,
    {
        let arg = chars_of(args[i].as_str());
        let ghost i0 = i as int;
        let ghost st0 = ParseState {
            file_a: opt_view(file_a),
            file_b: opt_view(file_b),
            unified_context,
            ignore_case,
            brief,
            ignore_all_space,
            word_diff,
            json,
        };
        proof {
            assert(av[i as int] == arg@);
        }
        if eq_str(&arg, "-i") || eq_str(&arg, "--ignore-case") {
            ignore_case = true;
        } else if eq_str(&arg, "-q") || eq_str(&arg, "--brief") {
            brief = true;
        } else if eq_str(&arg, "-w") || eq_str(&arg, "--ignore-all-space") {
            ignore_all_space = true;
        } else if eq_str(&arg, "--word-diff") {
            word_diff = true;
        } else if eq_str(&arg, "--json") {
            json = true;
        } else if eq_str(&arg, "-h") || eq_str(&arg, "--help") || eq_str(&arg, "-V") || eq_str(&arg, "--version") {
            // Handled by the program before parsing; accepted and ignored here.
        } else if eq_str(&arg, "-u") || eq_str(&arg, "--unified") {
            // The next argument is the context count.
            i += 1;
            if i >= args.len() {
                let empty = String::new();
                assert(empty@ =~= Seq::<char>::empty());
                assert(av[i0] == "-u"@ || av[i0] == "--unified"@);
                assert(parse_from(av, i0, st0) == Err::<ConfigView, ParseErrorView>(ParseErrorView::BadUnified(Seq::empty())));
                assert(target == parse_from(av, i0, st0));
                let r = Err(ParseError::BadUnified(empty));
                return r;
            }
            proof {
                assert(av[i as int] == args@[i as int]@);
            }
            match parse_context(args[i].as_str()) {
                Ok(v) => {
                    unified_context = v;
                },
                Err(e) => {
                    return Err(e);
                },
            }
        } else if starts_with_str(&arg, "--unified=") {
            let prefix = chars_of("--unified=");
            let mut v: Vec<char> = Vec::new();
            let mut k = prefix.len();
            while k < arg.len()
                invariant
                    prefix@ == "--unified="@,
                    prefix@.len() <= k <= arg@.len(),
                    v@ == arg@.subrange(prefix@.len() as int, k as int),
                decreases arg@.len() - k,
            {
                v.push(arg[k]);
                k += 1;
                assert(v@ =~= arg@.subrange(prefix@.len() as int, k as int));
            }
            let value = string_from_chars(&v);
            proof {
                assert(v@ =~= arg@.skip("--unified="@.len() as int));
            }
            match parse_context(value.as_str()) {
                Ok(c) => {
                    unified_context = c;
                },
                Err(e) => {
                    return Err(e);
                },
            }
        } else if arg.len() > 1 && arg[0] == '-' {
            // Unknown flag.
            return Err(ParseError::UnknownFlag(args[i].clone()));
        } else if file_a.is_none() {
            file_a = Some(args[i].clone());
        } else if file_b.is_none() {
            file_b = Some(args[i].clone());
        } else {
            return Err(ParseError::ExtraArg);
        }
        i += 1;
    }
    match (file_a, file_b) {
        (Some(a), Some(b)) => Ok(Config { file_a: a, file_b: b, unified_context, ignore_case, brief, ignore_all_space, word_diff, json }),
        _ => Err(ParseError::MissingArg),
    }
}

/// Produce a human-readable message for a [`ParseError`].
pub fn describe_parse_error(err: &ParseError) -> (s: String)
    ensures
        s@ == match err@ {
            ParseErrorView::UnknownFlag(f) => "unknown option '"@ + f + "'"@,
            ParseErrorView::MissingArg => "missing file operand"@,
            ParseErrorView::ExtraArg => "too many file operands"@,
            ParseErrorView::BadUnified(v) => "invalid --unified value '"@ + v
                + "' (expected a non-negative integer)"@,
        },
{
    let mut out: Vec<char> = Vec::new();
    match err {
        ParseError::UnknownFlag(flag) => {
            push_str(&mut out, "unknown option '");
            push_str(&mut out, flag.as_str());
            push_str(&mut out, "'");
        },
        ParseError::MissingArg => {
            push_str(&mut out, "missing file operand");
        },
        ParseError::ExtraArg => {
            push_str(&mut out, "too many file operands");
        },
        ParseError::BadUnified(v) => {
            push_str(&mut out, "invalid --unified value '");
            push_str(&mut out, v.as_str());
            push_str(&mut out, "' (expected a non-negative integer)");
        },
    }
    assert(out@ =~= match err@ {
        ParseErrorView::UnknownFlag(f) => "unknown option '"@ + f + "'"@,
        ParseErrorView::MissingArg => "missing file operand"@,
        ParseErrorView::ExtraArg => "too many file operands"@,
        ParseErrorView::BadUnified(v) => "invalid --unified value '"@ + v + "' (expected a non-negative integer)"@,
    });
    string_from_chars(&out)
}

/// Some argument from index `i` on is one of the two spellings of a flag.
pub open spec fn has_flag(args: Seq<Seq<char>>, i: int, short: Seq<char>, long: Seq<char>) -> bool {
    exists|j: int| i <= j < args.len() && (args[j] == short || args[j] == long)
}

/// An argument that reads as an option: a dash and at least one more
/// character.
pub open spec fn dashed(a: Seq<char>) -> bool {
    a.len() > 1 && a[0] == '-'
}

/// The switches that a configuration has set from index `i` on, given the
/// state before it.
pub open spec fn switches_from(args: Seq<Seq<char>>, i: int, st: ParseState, cfg: ConfigView) -> bool {
    &&& cfg.ignore_case == (st.ignore_case || has_flag(args, i, "-i"@, "--ignore-case"@))
    &&& cfg.brief == (st.brief || has_flag(args, i, "-q"@, "--brief"@))
    &&& cfg.ignore_all_space == (st.ignore_all_space || has_flag(args, i, "-w"@, "--ignore-all-space"@))
    &&& cfg.word_diff == (st.word_diff || has_flag(args, i, "--word-diff"@, "--word-diff"@))
    &&& cfg.json == (st.json || has_flag(args, i, "--json"@, "--json"@))
}

proof fn lemma_flag_literals()
    ensures
        dashed("-i"@) && dashed("--ignore-case"@) && dashed("-q"@) && dashed("--brief"@) && dashed("-w"@)
            && dashed("--ignore-all-space"@) && dashed("--word-diff"@) && dashed("--json"@),
{
    reveal_strlit("-i");
    reveal_strlit("--ignore-case");
    reveal_strlit("-q");
    reveal_strlit("--brief");
    reveal_strlit("-w");
    reveal_strlit("--ignore-all-space");
    reveal_strlit("--word-diff");
    reveal_strlit("--json");
}

/// The spellings of the options differ from one another.
proof fn lemma_flags_distinct()
    ensures
        "-i"@ != "--ignore-case"@,
        "-i"@ != "-q"@,
        "-i"@ != "--brief"@,
        "-i"@ != "-w"@,
        "-i"@ != "--ignore-all-space"@,
        "-i"@ != "--word-diff"@,
        "-i"@ != "--json"@,
        "--ignore-case"@ != "-q"@,
        "--ignore-case"@ != "--brief"@,
        "--ignore-case"@ != "-w"@,
        "--ignore-case"@ != "--ignore-all-space"@,
        "--ignore-case"@ != "--word-diff"@,
        "--ignore-case"@ != "--json"@,
        "-q"@ != "--brief"@,
        "-q"@ != "-w"@,
        "-q"@ != "--ignore-all-space"@,
        "-q"@ != "--word-diff"@,
        "-q"@ != "--json"@,
        "--brief"@ != "-w"@,
        "--brief"@ != "--ignore-all-space"@,
        "--brief"@ != "--word-diff"@,
        "--brief"@ != "--json"@,
        "-w"@ != "--ignore-all-space"@,
        "-w"@ != "--word-diff"@,
        "-w"@ != "--json"@,
        "--ignore-all-space"@ != "--word-diff"@,
        "--ignore-all-space"@ != "--json"@,
        "--word-diff"@ != "--json"@,
        "-h"@ != "-i"@,
        "-h"@ != "--ignore-case"@,
        "-h"@ != "-q"@,
        "-h"@ != "--brief"@,
        "-h"@ != "-w"@,
        "-h"@ != "--ignore-all-space"@,
        "-h"@ != "--word-diff"@,
        "-h"@ != "--json"@,
        "--help"@ != "-i"@,
        "--help"@ != "--ignore-case"@,
        "--help"@ != "-q"@,
        "--help"@ != "--brief"@,
        "--help"@ != "-w"@,
        "--help"@ != "--ignore-all-space"@,
        "--help"@ != "--word-diff"@,
        "--help"@ != "--json"@,
        "-V"@ != "-i"@,
        "-V"@ != "--ignore-case"@,
        "-V"@ != "-q"@,
        "-V"@ != "--brief"@,
        "-V"@ != "-w"@,
        "-V"@ != "--ignore-all-space"@,
        "-V"@ != "--word-diff"@,
        "-V"@ != "--json"@,
        "--version"@ != "-i"@,
        "--version"@ != "--ignore-case"@,
        "--version"@ != "-q"@,
        "--version"@ != "--brief"@,
        "--version"@ != "-w"@,
        "--version"@ != "--ignore-all-space"@,
        "--version"@ != "--word-diff"@,
        "--version"@ != "--json"@,
        "-u"@ != "-i"@,
        "-u"@ != "--ignore-case"@,
        "-u"@ != "-q"@,
        "-u"@ != "--brief"@,
        "-u"@ != "-w"@,
        "-u"@ != "--ignore-all-space"@,
        "-u"@ != "--word-diff"@,
        "-u"@ != "--json"@,
        "--unified"@ != "-i"@,
        "--unified"@ != "--ignore-case"@,
        "--unified"@ != "-q"@,
        "--unified"@ != "--brief"@,
        "--unified"@ != "-w"@,
        "--unified"@ != "--ignore-all-space"@,
        "--unified"@ != "--word-diff"@,
        "--unified"@ != "--json"@,
{
    reveal_strlit("-i");
    reveal_strlit("--ignore-case");
    reveal_strlit("-q");
    reveal_strlit("--brief");
    reveal_strlit("-w");
    reveal_strlit("--ignore-all-space");
    reveal_strlit("--word-diff");
    reveal_strlit("--json");
    reveal_strlit("-h");
    reveal_strlit("--help");
    reveal_strlit("-V");
    reveal_strlit("--version");
    reveal_strlit("-u");
    reveal_strlit("--unified");
    assert("-i"@.len() != "--ignore-case"@.len());
    assert("-i"@ != "-q"@) by { if "-i"@ == "-q"@ { assert("-i"@[1] == "-q"@[1]); } }
    assert("-i"@.len() != "--brief"@.len());
    assert("-i"@ != "-w"@) by { if "-i"@ == "-w"@ { assert("-i"@[1] == "-w"@[1]); } }
    assert("-i"@.len() != "--ignore-all-space"@.len());
    assert("-i"@.len() != "--word-diff"@.len());
    assert("-i"@.len() != "--json"@.len());
    assert("--ignore-case"@.len() != "-q"@.len());
    assert("--ignore-case"@.len() != "--brief"@.len());
    assert("--ignore-case"@.len() != "-w"@.len());
    assert("--ignore-case"@.len() != "--ignore-all-space"@.len());
    assert("--ignore-case"@.len() != "--word-diff"@.len());
    assert("--ignore-case"@.len() != "--json"@.len());
    assert("-q"@.len() != "--brief"@.len());
    assert("-q"@ != "-w"@) by { if "-q"@ == "-w"@ { assert("-q"@[1] == "-w"@[1]); } }
    assert("-q"@.len() != "--ignore-all-space"@.len());
    assert("-q"@.len() != "--word-diff"@.len());
    assert("-q"@.len() != "--json"@.len());
    assert("--brief"@.len() != "-w"@.len());
    assert("--brief"@.len() != "--ignore-all-space"@.len());
    assert("--brief"@.len() != "--word-diff"@.len());
    assert("--brief"@.len() != "--json"@.len());
    assert("-w"@.len() != "--ignore-all-space"@.len());
    assert("-w"@.len() != "--word-diff"@.len());
    assert("-w"@.len() != "--json"@.len());
    assert("--ignore-all-space"@.len() != "--word-diff"@.len());
    assert("--ignore-all-space"@.len() != "--json"@.len());
    assert("--word-diff"@.len() != "--json"@.len());
    assert("-h"@ != "-i"@) by { if "-h"@ == "-i"@ { assert("-h"@[1] == "-i"@[1]); } }
    assert("-h"@.len() != "--ignore-case"@.len());
    assert("-h"@ != "-q"@) by { if "-h"@ == "-q"@ { assert("-h"@[1] == "-q"@[1]); } }
    assert("-h"@.len() != "--brief"@.len());
    assert("-h"@ != "-w"@) by { if "-h"@ == "-w"@ { assert("-h"@[1] == "-w"@[1]); } }
    assert("-h"@.len() != "--ignore-all-space"@.len());
    assert("-h"@.len() != "--word-diff"@.len());
    assert("-h"@.len() != "--json"@.len());
    assert("--help"@.len() != "-i"@.len());
    assert("--help"@.len() != "--ignore-case"@.len());
    assert("--help"@.len() != "-q"@.len());
    assert("--help"@.len() != "--brief"@.len());
    assert("--help"@.len() != "-w"@.len());
    assert("--help"@.len() != "--ignore-all-space"@.len());
    assert("--help"@.len() != "--word-diff"@.len());
    assert("--help"@ != "--json"@) by { if "--help"@ == "--json"@ { assert("--help"@[2] == "--json"@[2]); } }
    assert("-V"@ != "-i"@) by { if "-V"@ == "-i"@ { assert("-V"@[1] == "-i"@[1]); } }
    assert("-V"@.len() != "--ignore-case"@.len());
    assert("-V"@ != "-q"@) by { if "-V"@ == "-q"@ { assert("-V"@[1] == "-q"@[1]); } }
    assert("-V"@.len() != "--brief"@.len());
    assert("-V"@ != "-w"@) by { if "-V"@ == "-w"@ { assert("-V"@[1] == "-w"@[1]); } }
    assert("-V"@.len() != "--ignore-all-space"@.len());
    assert("-V"@.len() != "--word-diff"@.len());
    assert("-V"@.len() != "--json"@.len());
    assert("--version"@.len() != "-i"@.len());
    assert("--version"@.len() != "--ignore-case"@.len());
    assert("--version"@.len() != "-q"@.len());
    assert("--version"@.len() != "--brief"@.len());
    assert("--version"@.len() != "-w"@.len());
    assert("--version"@.len() != "--ignore-all-space"@.len());
    assert("--version"@.len() != "--word-diff"@.len());
    assert("--version"@.len() != "--json"@.len());
    assert("-u"@ != "-i"@) by { if "-u"@ == "-i"@ { assert("-u"@[1] == "-i"@[1]); } }
    assert("-u"@.len() != "--ignore-case"@.len());
    assert("-u"@ != "-q"@) by { if "-u"@ == "-q"@ { assert("-u"@[1] == "-q"@[1]); } }
    assert("-u"@.len() != "--brief"@.len());
    assert("-u"@ != "-w"@) by { if "-u"@ == "-w"@ { assert("-u"@[1] == "-w"@[1]); } }
    assert("-u"@.len() != "--ignore-all-space"@.len());
    assert("-u"@.len() != "--word-diff"@.len());
    assert("-u"@.len() != "--json"@.len());
    assert("--unified"@.len() != "-i"@.len());
    assert("--unified"@.len() != "--ignore-case"@.len());
    assert("--unified"@.len() != "-q"@.len());
    assert("--unified"@.len() != "--brief"@.len());
    assert("--unified"@.len() != "-w"@.len());
    assert("--unified"@.len() != "--ignore-all-space"@.len());
    assert("--unified"@.len() != "--word-diff"@.len());
    assert("--unified"@.len() != "--json"@.len());
}

/// Moving past an argument that is none of a flag's spellings leaves the
/// question whether the flag follows unchanged.
proof fn lemma_has_flag_skip(args: Seq<Seq<char>>, i: int, n: int, short: Seq<char>, long: Seq<char>)
    requires
        0 <= i,
        i + n <= args.len(),
        0 <= n,
        forall|j: int| i <= j < i + n ==> args[j] != short && args[j] != long,
    ensures
        has_flag(args, i, short, long) == has_flag(args, i + n, short, long),
{
    if has_flag(args, i, short, long) {
        let j = choose|j: int| i <= j < args.len() && (args[j] == short || args[j] == long);
        assert(j >= i + n);
    }
}

/// Skipping one argument for every switch.
proof fn lemma_switches_skip(args: Seq<Seq<char>>, i: int, n: int, st: ParseState, cfg: ConfigView)
    requires
        0 <= i,
        0 <= n,
        i + n <= args.len(),
        forall|j: int| i <= j < i + n ==> !dashed(#[trigger] args[j]) || (args[j] != "-i"@ && args[j] != "--ignore-case"@
            && args[j] != "-q"@ && args[j] != "--brief"@ && args[j] != "-w"@ && args[j] != "--ignore-all-space"@
            && args[j] != "--word-diff"@ && args[j] != "--json"@),
        switches_from(args, i + n, st, cfg),
    ensures
        switches_from(args, i, st, cfg),
{
    lemma_flag_literals();
    lemma_flags_distinct();
    lemma_has_flag_skip(args, i, n, "-i"@, "--ignore-case"@);
    lemma_has_flag_skip(args, i, n, "-q"@, "--brief"@);
    lemma_has_flag_skip(args, i, n, "-w"@, "--ignore-all-space"@);
    lemma_has_flag_skip(args, i, n, "--word-diff"@, "--word-diff"@);
    lemma_has_flag_skip(args, i, n, "--json"@, "--json"@);
}

proof fn lemma_parse_switches(args: Seq<Seq<char>>, i: int, st: ParseState)
    requires
        0 <= i <= args.len(),
    ensures
        parse_from(args, i, st) is Ok ==> switches_from(args, i, st, parse_from(args, i, st)->Ok_0),
    decreases args.len() - i,
{
    reveal_strlit("-i");
    reveal_strlit("--ignore-case");
    reveal_strlit("-q");
    reveal_strlit("--brief");
    reveal_strlit("-w");
    reveal_strlit("--ignore-all-space");
    reveal_strlit("--word-diff");
    reveal_strlit("--json");
    reveal_strlit("-h");
    reveal_strlit("--help");
    reveal_strlit("-V");
    reveal_strlit("--version");
    reveal_strlit("-u");
    reveal_strlit("--unified");
    reveal_strlit("--unified=");
    lemma_flag_literals();
    lemma_flags_distinct();
    let r = parse_from(args, i, st);
    if i < args.len() && r is Ok {
        let a = args[i];
        let cfg = r->Ok_0;
        if a == "-i"@ || a == "--ignore-case"@ {
            let st2 = ParseState { ignore_case: true, ..st };
            lemma_parse_switches(args, i + 1, st2);
            lemma_switches_skip(args, i + 1, 0, st2, cfg);
            lemma_has_flag_skip(args, i, 1, "-q"@, "--brief"@);
            lemma_has_flag_skip(args, i, 1, "-w"@, "--ignore-all-space"@);
            lemma_has_flag_skip(args, i, 1, "--word-diff"@, "--word-diff"@);
            lemma_has_flag_skip(args, i, 1, "--json"@, "--json"@);
        } else if a == "-q"@ || a == "--brief"@ {
            let st2 = ParseState { brief: true, ..st };
            lemma_parse_switches(args, i + 1, st2);
            lemma_has_flag_skip(args, i, 1, "-i"@, "--ignore-case"@);
            lemma_has_flag_skip(args, i, 1, "-w"@, "--ignore-all-space"@);
            lemma_has_flag_skip(args, i, 1, "--word-diff"@, "--word-diff"@);
            lemma_has_flag_skip(args, i, 1, "--json"@, "--json"@);
        } else if a == "-w"@ || a == "--ignore-all-space"@ {
            let st2 = ParseState { ignore_all_space: true, ..st };
            lemma_parse_switches(args, i + 1, st2);
            lemma_has_flag_skip(args, i, 1, "-i"@, "--ignore-case"@);
            lemma_has_flag_skip(args, i, 1, "-q"@, "--brief"@);
            lemma_has_flag_skip(args, i, 1, "--word-diff"@, "--word-diff"@);
            lemma_has_flag_skip(args, i, 1, "--json"@, "--json"@);
        } else if a == "--word-diff"@ {
            let st2 = ParseState { word_diff: true, ..st };
            lemma_parse_switches(args, i + 1, st2);
            lemma_has_flag_skip(args, i, 1, "-i"@, "--ignore-case"@);
            lemma_has_flag_skip(args, i, 1, "-q"@, "--brief"@);
            lemma_has_flag_skip(args, i, 1, "-w"@, "--ignore-all-space"@);
            lemma_has_flag_skip(args, i, 1, "--json"@, "--json"@);
        } else if a == "--json"@ {
            let st2 = ParseState { json: true, ..st };
            lemma_parse_switches(args, i + 1, st2);
            lemma_has_flag_skip(args, i, 1, "-i"@, "--ignore-case"@);
            lemma_has_flag_skip(args, i, 1, "-q"@, "--brief"@);
            lemma_has_flag_skip(args, i, 1, "-w"@, "--ignore-all-space"@);
            lemma_has_flag_skip(args, i, 1, "--word-diff"@, "--word-diff"@);
        } else if a == "-h"@ || a == "--help"@ || a == "-V"@ || a == "--version"@ {
            lemma_parse_switches(args, i + 1, st);
            lemma_switches_skip(args, i, 1, st, cfg);
        } else if a == "-u"@ || a == "--unified"@ {
            let v = args[i + 1];
            let d = count_digits(v);
            assert(parse_count(v) is Some);
            assert(all_digits(d));
            if dashed(v) {
                assert(d == v);
                assert(is_digit(d[0]));
            }
            let st2 = ParseState { unified_context: parse_count(v)->Some_0, ..st };
            lemma_parse_switches(args, i + 2, st2);
            lemma_switches_skip(args, i, 2, st, cfg);
        } else if "--unified="@.is_prefix_of(a) {
            let st2 = ParseState { unified_context: parse_count(a.skip("--unified="@.len() as int))->Some_0, ..st };
            lemma_parse_switches(args, i + 1, st2);
            assert(a.len() >= 10);
            assert(a[2] == 'u') by {
                assert(a.subrange(0, 10)[2] == a[2]);
                assert("--unified="@[2] == 'u');
            }
            assert(a != "--ignore-case"@ && a != "--ignore-all-space"@ && a != "--word-diff"@ && a != "--brief"@
                && a != "--json"@);
            lemma_switches_skip(args, i, 1, st, cfg);
        } else {
            assert(!dashed(a));
            if st.file_a is None {
                lemma_parse_switches(args, i + 1, ParseState { file_a: Some(a), ..st });
            } else {
                lemma_parse_switches(args, i + 1, ParseState { file_b: Some(a), ..st });
            }
            lemma_switches_skip(args, i, 1, st, cfg);
        }
    }
}

/// Each switch of a parsed configuration is set exactly when one of its
/// spellings stands among the arguments: `-i`/`--ignore-case`,
/// `-q`/`--brief`, `-w`/`--ignore-all-space`, `--word-diff` and `--json`.
pub proof fn law_parse_switches(args: Seq<Seq<char>>)
    ensures
        parse(args) is Ok ==> {
            let cfg = parse(args)->Ok_0;
            &&& cfg.ignore_case == has_flag(args, 0, "-i"@, "--ignore-case"@)
            &&& cfg.brief == has_flag(args, 0, "-q"@, "--brief"@)
            &&& cfg.ignore_all_space == has_flag(args, 0, "-w"@, "--ignore-all-space"@)
            &&& cfg.word_diff == has_flag(args, 0, "--word-diff"@, "--word-diff"@)
            &&& cfg.json == has_flag(args, 0, "--json"@, "--json"@)
        },
{
    lemma_parse_switches(args, 0, ParseState {
        file_a: None,
        file_b: None,
        unified_context: 3,
        ignore_case: false,
        brief: false,
        ignore_all_space: false,
        word_diff: false,
        json: false,
    });
}

/// Decimal text reads back as the number it was written from, digit by
/// digit, with no leading zero.
pub proof fn law_decimal_round_trip(n: nat)
    ensures
        all_digits(decimal(n)),
        digits_value(decimal(n)) == n,
        decimal(n).len() > 1 ==> decimal(n)[0] != '0',
    decreases n,
{
    let d = decimal(n);
    if n < 10 {
        assert(d.drop_last() =~= Seq::<char>::empty());
        assert(d.last() == digit_char(n as int));
        assert(digit_char(n as int) as int == n + 48);
        assert(digits_value(Seq::<char>::empty()) == 0);
    } else {
        law_decimal_round_trip(n / 10);
        let p = decimal(n / 10);
        assert(d.drop_last() =~= p);
        assert(d.last() == digit_char((n % 10) as int));
        assert(digit_char((n % 10) as int) as int == n % 10 + 48);
        assert(n == (n / 10) * 10 + n % 10);
        assert forall|k: int| 0 <= k < d.len() implies is_digit(#[trigger] d[k]) by {
            if k < p.len() {
                assert(d[k] == p[k]);
                assert(is_digit(p[k]));
            }
        }
        assert(d[0] == p[0]);
        if p.len() == 1 {
            assert(n / 10 < 10) by {
                if n / 10 >= 10 {
                    let q = decimal(n / 10 / 10);
                    assert(p.len() == q.len() + 1);
                    assert(q.len() >= 1) by {
                        lemma_decimal_nonempty(n / 10 / 10);
                    }
                }
            }
            assert(p[0] == digit_char((n / 10) as int));
        }
    }
}

proof fn lemma_decimal_nonempty(n: nat)
    ensures
        decimal(n).len() >= 1,
    decreases n,
{
    if n >= 10 {
        lemma_decimal_nonempty(n / 10);
    }
}

} // verus!

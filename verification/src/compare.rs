//! The decisions of a file comparison: binary detection on a sample of each
//! file, line-ending stripping, the outcome and report for two files' lines,
//! and the exit status.
use vstd::prelude::*;
use crate::cli::{Config, ConfigView};
use crate::diff::{
    compute_hunks_with_options, diff_hunks, text_lines, hunk_text_with, hunks_view, format_hunk_with_options, HunkView,
    equivalent, DiffOptions, sat_sub, context_displayable, context_is_displayable, json_text, json_numbers_fit,
    format_json, hunk_matches,
};
use crate::text::{chars_of, push_str, string_from_chars};

verus! {

/// The outcome of comparing two files.
#[derive(Debug, Clone, PartialEq, Eq)]
pub enum CompareOutcome {
    /// The files are identical (or equal under the configured comparison).
    Identical,
    /// The files differ; a unified diff was printed (unless brief mode).
    Differ,
    /// One or both files contain non-UTF-8 content.
    Binary,
}

pub open spec fn byte_in(b: u8, lo: u8, hi: u8) -> bool {
    lo <= b && b <= hi
}

pub open spec fn is_cont(b: u8) -> bool {
    byte_in(b, 0x80, 0xBF)
}

/// The length of the well-formed UTF-8 sequence at index `i` of `s`
/// (Unicode table 3-7), or 0 when there is none.
pub open spec fn utf8_seq_len(s: Seq<u8>, i: int) -> int {
    let n = s.len() - i;
    if n >= 1 && s[i] <= 0x7F {
        1
    } else if n >= 2 && byte_in(s[i], 0xC2, 0xDF) && is_cont(s[i + 1]) {
        2
    } else if n >= 3 && ((s[i] == 0xE0 && byte_in(s[i + 1], 0xA0, 0xBF)) || (byte_in(s[i], 0xE1, 0xEC)
        && is_cont(s[i + 1])) || (s[i] == 0xED && byte_in(s[i + 1], 0x80, 0x9F)) || (byte_in(s[i], 0xEE, 0xEF)
        && is_cont(s[i + 1]))) && is_cont(s[i + 2]) {
        3
    } else if n >= 4 && ((s[i] == 0xF0 && byte_in(s[i + 1], 0x90, 0xBF)) || (byte_in(s[i], 0xF1, 0xF3)
        && is_cont(s[i + 1])) || (s[i] == 0xF4 && byte_in(s[i + 1], 0x80, 0x8F))) && is_cont(s[i + 2])
        && is_cont(s[i + 3]) {
        4
    } else {
        0
    }
}

/// The bytes of `s` from index `i` on are a sequence of well-formed UTF-8
/// sequences.
pub open spec fn utf8_from(s: Seq<u8>, i: int) -> bool
    decreases s.len() - i,
{
    if 0 <= i < s.len() {
        utf8_seq_len(s, i) > 0 && utf8_from(s, i + utf8_seq_len(s, i))
    } else {
        true
    }
}

/// `s` is well-formed UTF-8.
pub open spec fn well_formed_utf8(s: Seq<u8>) -> bool {
    utf8_from(s, 0)
}

/// The bytes of `s` from index `i` on are the start of a well-formed
/// multi-byte UTF-8 sequence that the end of `s` cuts short.
pub open spec fn cut_short(s: Seq<u8>, i: int) -> bool {
    let n = s.len() - i;
    &&& 0 <= i
    &&& 1 <= n <= 3
    &&& if byte_in(s[i], 0xC2, 0xDF) {
        n == 1
    } else if byte_in(s[i], 0xE0, 0xEF) {
        n <= 2 && (n == 2 ==> if s[i] == 0xE0 {
            byte_in(s[i + 1], 0xA0, 0xBF)
        } else if s[i] == 0xED {
            byte_in(s[i + 1], 0x80, 0x9F)
        } else {
            is_cont(s[i + 1])
        })
    } else if byte_in(s[i], 0xF0, 0xF4) {
        (n >= 2 ==> if s[i] == 0xF0 {
            byte_in(s[i + 1], 0x90, 0xBF)
        } else if s[i] == 0xF4 {
            byte_in(s[i + 1], 0x80, 0x8F)
        } else {
            is_cont(s[i + 1])
        }) && (n == 3 ==> is_cont(s[i + 2]))
    } else {
        false
    }
}

/// Like [`utf8_from`], except that the bytes may end inside a sequence
/// that is well-formed as far as it goes.
pub open spec fn utf8_cut_from(s: Seq<u8>, i: int) -> bool
    decreases s.len() - i,
{
    if 0 <= i < s.len() {
        if utf8_seq_len(s, i) > 0 {
            utf8_cut_from(s, i + utf8_seq_len(s, i))
        } else {
            cut_short(s, i)
        }
    } else {
        true
    }
}

/// A sample looks binary when it holds a NUL byte or is not well-formed
/// UTF-8. Where the sample is only the start of a longer file, a character
/// that the sample's end cuts in two does not count against it.
pub open spec fn looks_binary(sample: Seq<u8>, whole_file: bool) -> bool {
    sample.contains(0u8) || !(if whole_file { well_formed_utf8(sample) } else { utf8_cut_from(sample, 0) })
}

fn utf8_len_at(s: &[u8], i: usize) -> (r: usize)
    requires
        i < s@.len(),
    ensures
        r as int == utf8_seq_len(s@, i as int),
{
    let n = s.len() - i;
    let b0 = s[i];
    if b0 <= 0x7F {
        return 1;
    }
    if n >= 2 {
        let b1 = s[i + 1];
        if 0xC2 <= b0 && b0 <= 0xDF && 0x80 <= b1 && b1 <= 0xBF {
            return 2;
        }
        if n >= 3 {
            let b2 = s[i + 2];
            let lead3 = (b0 == 0xE0 && 0xA0 <= b1 && b1 <= 0xBF) || (0xE1 <= b0 && b0 <= 0xEC && 0x80 <= b1
                && b1 <= 0xBF) || (b0 == 0xED && 0x80 <= b1 && b1 <= 0x9F) || (0xEE <= b0 && b0 <= 0xEF
                && 0x80 <= b1 && b1 <= 0xBF);
            if lead3 && 0x80 <= b2 && b2 <= 0xBF {
                return 3;
            }
            if n >= 4 {
                let b3 = s[i + 3];
                let lead4 = (b0 == 0xF0 && 0x90 <= b1 && b1 <= 0xBF) || (0xF1 <= b0 && b0 <= 0xF3 && 0x80 <= b1
                    && b1 <= 0xBF) || (b0 == 0xF4 && 0x80 <= b1 && b1 <= 0x8F);
                if lead4 && 0x80 <= b2 && b2 <= 0xBF && 0x80 <= b3 && b3 <= 0xBF {
                    return 4;
                }
            }
        }
    }
    0
}

fn cut_short_at(s: &[u8], i: usize) -> (r: bool)
    requires
        i < s@.len(),
    ensures
        r == cut_short(s@, i as int),
{
    let n = s.len() - i;
    if n > 3 {
        return false;
    }
    let b0 = s[i];
    if 0xC2 <= b0 && b0 <= 0xDF {
        n == 1
    } else if 0xE0 <= b0 && b0 <= 0xEF {
        if n == 1 {
            true
        } else if n == 2 {
            let b1 = s[i + 1];
            if b0 == 0xE0 {
                0xA0 <= b1 && b1 <= 0xBF
            } else if b0 == 0xED {
                0x80 <= b1 && b1 <= 0x9F
            } else {
                0x80 <= b1 && b1 <= 0xBF
            }
        } else {
            false
        }
    } else if 0xF0 <= b0 && b0 <= 0xF4 {
        let second = if n >= 2 {
            let b1 = s[i + 1];
            if b0 == 0xF0 {
                0x90 <= b1 && b1 <= 0xBF
            } else if b0 == 0xF4 {
                0x80 <= b1 && b1 <= 0x8F
            } else {
                0x80 <= b1 && b1 <= 0xBF
            }
        } else {
            true
        };
        let third = if n == 3 {
            0x80 <= s[i + 2] && s[i + 2] <= 0xBF
        } else {
            true
        };
        second && third
    } else {
        false
    }
}

/// Whether a sample of a file holds a NUL byte or content that is not
/// UTF-8; such files are compared as binary. `whole_file` says whether the
/// sample is the whole file: if not, a character cut in two at the sample's
/// end is allowed.
pub fn is_binary(sample: &[u8], whole_file: bool) -> (r: bool)
    ensures
        r == looks_binary(sample@, whole_file),
{
    let mut k: usize = 0;
    while k < sample.len()
        invariant
            k <= sample@.len(),
            forall|t: int| 0 <= t < k ==> sample@[t] != 0u8,
        decreases sample@.len() - k,
    {
        if sample[k] == 0 {
            return true;
        }
        k += 1;
    }
    let mut i: usize = 0;
    while i < sample.len()
        invariant
            i <= sample@.len(),
            well_formed_utf8(sample@) == utf8_from(sample@, i as int),
            utf8_cut_from(sample@, 0) == utf8_cut_from(sample@, i as int),
            !sample@.contains(0u8),
        decreases sample@.len() - i,
    {
        let step = utf8_len_at(sample, i);
        if step == 0 {
            if whole_file {
                return true;
            }
            return !cut_short_at(sample, i);
        }
        i += step;
    }
    false
}

/// A line read with its terminator, without a trailing `\n` and, before
/// it, a `\r`.
pub open spec fn strip_ending(s: Seq<char>) -> Seq<char> {
    if s.len() > 0 && s.last() == '\n' {
        let t = s.drop_last();
        if t.len() > 0 && t.last() == '\r' { t.drop_last() } else { t }
    } else {
        s
    }
}

/// Strips a trailing newline (and a carriage return before it) from a line.
pub fn strip_line_ending(line: &str) -> (r: String)
    ensures
        r@ == strip_ending(line@),
{
    let mut v = chars_of(line);
    if v.len() > 0 && v[v.len() - 1] == '\n' {
        v.pop();
        if v.len() > 0 && v[v.len() - 1] == '\r' {
            v.pop();
        }
    }
    string_from_chars(&v)
}

/// The diff options that a configuration asks for.
pub open spec fn config_options(cfg: ConfigView) -> DiffOptions {
    DiffOptions {
        context: cfg.unified_context,
        ignore_case: cfg.ignore_case,
        ignore_all_space: cfg.ignore_all_space,
        word_diff: cfg.word_diff,
    }
}

fn options_of(cfg: &Config) -> (o: DiffOptions)
    ensures
        o == config_options(cfg@),
{
    DiffOptions {
        context: cfg.unified_context,
        ignore_case: cfg.ignore_case,
        ignore_all_space: cfg.ignore_all_space,
        word_diff: cfg.word_diff,
    }
}

/// The options under which a hunk is printed: those asked for, except
/// that a hunk whose containing definition cannot be shown without cutting
/// a character in two gets a header that names none.
pub open spec fn header_options(h: HunkView, opts: DiffOptions, old_lines: Seq<Seq<char>>) -> DiffOptions {
    if opts.context > 0 && !context_displayable(old_lines, sat_sub(h.old_start, 1)) {
        DiffOptions { context: 0, ..opts }
    } else {
        opts
    }
}

/// The text of all hunks, one after another, rendered under the options
/// (function-aware headers, word-level changes where asked for).
pub open spec fn hunks_text(hs: Seq<HunkView>, opts: DiffOptions, old_lines: Seq<Seq<char>>) -> Seq<char>
    decreases hs.len(),
{
    if hs.len() == 0 {
        Seq::empty()
    } else {
        hunks_text(hs.drop_last(), opts, old_lines) + hunk_text_with(hs.last(), header_options(hs.last(), opts, old_lines),
            old_lines)
    }
}

/// The containing definition of every hunk can be shown.
pub open spec fn headers_displayable(old_lines: Seq<Seq<char>>, hs: Seq<HunkView>) -> bool {
    forall|k: int| 0 <= k < hs.len() ==> context_displayable(old_lines, sat_sub(#[trigger] hs[k].old_start, 1))
}

/// The comparison can be printed: in JSON mode, which names every hunk's
/// containing definition, each can be shown without cutting a character.
pub open spec fn renderable(cfg: ConfigView, a: Seq<Seq<char>>, b: Seq<Seq<char>>) -> bool {
    cfg.json ==> headers_displayable(a, diff_hunks(a, b, config_options(cfg)))
}

/// The outcome and standard output of comparing two files' lines. In JSON
/// mode the report is printed whatever the outcome. Otherwise nothing is
/// printed when the files are equivalent; in brief mode a one-line summary;
/// else the unified diff with `---`/`+++` headers (see [`header_options`]).
pub open spec fn comparison(cfg: ConfigView, a: Seq<Seq<char>>, b: Seq<Seq<char>>) -> (CompareOutcome, Seq<char>) {
    let opts = config_options(cfg);
    let hs = diff_hunks(a, b, opts);
    let outcome = if hs.len() == 0 { CompareOutcome::Identical } else { CompareOutcome::Differ };
    if cfg.json {
        (outcome, json_text(cfg.file_a, cfg.file_b, hs.len() == 0, hs, a))
    } else if hs.len() == 0 {
        (CompareOutcome::Identical, Seq::empty())
    } else if cfg.brief {
        (CompareOutcome::Differ, "Files "@ + cfg.file_a + " and "@ + cfg.file_b + " differ\n"@)
    } else {
        (CompareOutcome::Differ, "--- "@ + cfg.file_a + "\n"@ + "+++ "@ + cfg.file_b + "\n"@ + hunks_text(hs, opts, a))
    }
}

/// Whether the comparison of two files' lines under the configuration can
/// be printed (see [`renderable`]).
pub fn comparison_renderable(cfg: &Config, lines_a: &[String], lines_b: &[String]) -> (r: bool)
    requires
        lines_a@.len() < usize::MAX,
        lines_b@.len() < usize::MAX,
    ensures
        r == renderable(cfg@, text_lines(lines_a@), text_lines(lines_b@)),
{
    if !cfg.json {
        return true;
    }
    let opts = options_of(cfg);
    let hunks = compute_hunks_with_options(lines_a, lines_b, &opts);
    let ghost hs = hunks_view(hunks@);
    let mut k: usize = 0;
    while k < hunks.len()
        invariant
            hs == hunks_view(hunks@),
            hs == diff_hunks(text_lines(lines_a@), text_lines(lines_b@), config_options(cfg@)),
            cfg.json,
            k <= hunks@.len(),
            forall|t: int| 0 <= t < k ==> context_displayable(text_lines(lines_a@), sat_sub(#[trigger] hs[t].old_start, 1)),
        decreases hunks@.len() - k,
    {
        proof {
            assert(hs[k as int] == hunks@[k as int]@);
        }
        if !context_is_displayable(lines_a, hunks[k].old_start.saturating_sub(1)) {
            proof {
                assert(!context_displayable(text_lines(lines_a@), sat_sub(hs[k as int].old_start, 1)));
                assert(!headers_displayable(text_lines(lines_a@), hs));
            }
            return false;
        }
        k += 1;
    }
    true
}

/// Compares the lines of two text files under the configuration and returns
/// the outcome with the text to print on standard output.
pub fn compare_lines(cfg: &Config, lines_a: &[String], lines_b: &[String]) -> (r: (CompareOutcome, String))
    requires
        lines_a@.len() < usize::MAX,
        lines_b@.len() < usize::MAX,
        renderable(cfg@, text_lines(lines_a@), text_lines(lines_b@)),
    ensures
        (r.0, r.1@) == comparison(cfg@, text_lines(lines_a@), text_lines(lines_b@)),
        (r.0 == CompareOutcome::Identical) <==> equivalent(text_lines(lines_a@), text_lines(lines_b@), config_options(cfg@)),
        r.0 != CompareOutcome::Binary,
        r.0 == CompareOutcome::Identical && !cfg.json ==> r.1@.len() == 0,
{
    let ghost a = text_lines(lines_a@);
    let ghost b = text_lines(lines_b@);
    let opts = options_of(cfg);
    let hunks = compute_hunks_with_options(lines_a, lines_b, &opts);
    let ghost hs = hunks_view(hunks@);
    let identical = hunks.len() == 0;
    let outcome = if identical { CompareOutcome::Identical } else { CompareOutcome::Differ };
    if cfg.json {
        proof {
            assert forall|k: int| 0 <= k < hunks@.len() implies json_numbers_fit(#[trigger] hunks@[k]@) by {
                assert(hs[k] == hunks@[k]@);
                assert(hunk_matches(a, b, opts, hs[k]));
            }
            assert forall|k: int| 0 <= k < hunks@.len() implies context_displayable(a, sat_sub(#[trigger] hunks@[k].old_start as int, 1)) by {
                assert(hs[k] == hunks@[k]@);
            }
        }
        let text = format_json(cfg.file_a.as_str(), cfg.file_b.as_str(), identical, &hunks, lines_a);
        return (outcome, text);
    }
    let mut out: Vec<char> = Vec::new();
    if identical {
        assert(out@ =~= Seq::<char>::empty());
        return (CompareOutcome::Identical, string_from_chars(&out));
    }
    if cfg.brief {
        push_str(&mut out, "Files ");
        push_str(&mut out, cfg.file_a.as_str());
        push_str(&mut out, " and ");
        push_str(&mut out, cfg.file_b.as_str());
        push_str(&mut out, " differ\n");
        assert(out@ =~= "Files "@ + cfg.file_a@ + " and "@ + cfg.file_b@ + " differ\n"@);
        return (CompareOutcome::Differ, string_from_chars(&out));
    }
    push_str(&mut out, "--- ");
    push_str(&mut out, cfg.file_a.as_str());
    push_str(&mut out, "\n");
    push_str(&mut out, "+++ ");
    push_str(&mut out, cfg.file_b.as_str());
    push_str(&mut out, "\n");
    let ghost head = out@;
    let mut k: usize = 0;
    while k < hunks.len()
        invariant
            hs == hunks_view(hunks@),
            a == text_lines(lines_a@),
            opts == config_options(cfg@),
            !cfg.brief,
            renderable(cfg@, a, b),
            hs == diff_hunks(a, b, opts),
            k <= hunks@.len(),
            out@ == head + hunks_text(hs.take(k as int), opts, a),
        decreases hunks@.len() - k,
    {
        proof {
            assert(hs.take(k + 1).drop_last() =~= hs.take(k as int));
            assert(hs[k as int] == hunks@[k as int]@);
        }
        let shown = if opts.context > 0 && !context_is_displayable(lines_a, hunks[k].old_start.saturating_sub(1)) {
            DiffOptions {
                context: 0,
                ignore_case: opts.ignore_case,
                ignore_all_space: opts.ignore_all_space,
                word_diff: opts.word_diff,
            }
        } else {
            DiffOptions {
                context: opts.context,
                ignore_case: opts.ignore_case,
                ignore_all_space: opts.ignore_all_space,
                word_diff: opts.word_diff,
            }
        };
        let text = format_hunk_with_options(&hunks[k], &shown, lines_a);
        push_str(&mut out, text.as_str());
        k += 1;
        assert(out@ =~= head + hunks_text(hs.take(k as int), opts, a));
    }
    assert(hs.take(hs.len() as int) =~= hs);
    (CompareOutcome::Differ, string_from_chars(&out))
}

/// The process exit status for the result of a comparison: 0 when the files
/// are identical, 1 when they differ (binary files included), 2 on error.
pub fn exit_code(r: &Result<CompareOutcome, String>) -> (c: u8)
    ensures
        c == match r {
            Ok(CompareOutcome::Identical) => 0u8,
            Ok(_) => 1u8,
            Err(_) => 2u8,
        },
{
    match r {
        Ok(CompareOutcome::Identical) => 0,
        Ok(_) => 1,
        Err(_) => 2,
    }
}

/// The diff options of a comparison are exactly the configuration's flags:
/// its context, `-i`, `-w` and `--word-diff`, each on its own.
pub proof fn law_config_options(cfg: ConfigView)
    ensures
        config_options(cfg).context == cfg.unified_context,
        config_options(cfg).ignore_case == cfg.ignore_case,
        config_options(cfg).ignore_all_space == cfg.ignore_all_space,
        config_options(cfg).word_diff == cfg.word_diff,
{
}

/// The UTF-8 encoding of a character (one to four bytes by its code point).
pub open spec fn utf8_char(c: char) -> Seq<u8> {
    let v = c as u32 as int;
    if v < 0x80 {
        seq![v as u8]
    } else if v < 0x800 {
        seq![(0xC0 + v / 64) as u8, (0x80 + v % 64) as u8]
    } else if v < 0x10000 {
        seq![(0xE0 + v / 4096) as u8, (0x80 + (v / 64) % 64) as u8, (0x80 + v % 64) as u8]
    } else {
        seq![(0xF0 + v / 262144) as u8, (0x80 + (v / 4096) % 64) as u8, (0x80 + (v / 64) % 64) as u8, (0x80 + v % 64) as u8]
    }
}

/// The UTF-8 encoding of a text.
pub open spec fn utf8_encode(s: Seq<char>) -> Seq<u8>
    decreases s.len(),
{
    if s.len() == 0 {
        Seq::empty()
    } else {
        utf8_char(s[0]) + utf8_encode(s.skip(1))
    }
}

/// The sequence read at a position depends only on the bytes from there on.
proof fn lemma_utf8_shift(p: Seq<u8>, q: Seq<u8>, i: int)
    requires
        0 <= i <= q.len(),
    ensures
        utf8_from(p + q, p.len() + i) == utf8_from(q, i),
    decreases q.len() - i,
{
    let s = p + q;
    let j = p.len() + i;
    if i < q.len() {
        assert(s[j] == q[i]);
        if i + 1 < q.len() {
            assert(s[j + 1] == q[i + 1]);
        }
        if i + 2 < q.len() {
            assert(s[j + 2] == q[i + 2]);
        }
        if i + 3 < q.len() {
            assert(s[j + 3] == q[i + 3]);
        }
        assert(utf8_seq_len(s, j) == utf8_seq_len(q, i));
        let n = utf8_seq_len(q, i);
        if n > 0 {
            lemma_utf8_shift(p, q, i + n);
        }
    }
}

/// The encoding of a character is read back as one sequence of its length.
proof fn lemma_utf8_char(c: char, rest: Seq<u8>)
    ensures
        utf8_seq_len(utf8_char(c) + rest, 0) == utf8_char(c).len(),
        c != '\0' ==> !utf8_char(c).contains(0u8),
{
    let v = c as u32 as int;
    let e = utf8_char(c);
    let s = e + rest;
    assert(0 <= v <= 0x10FFFF);
    assert(!(0xD800 <= v <= 0xDFFF));
    assert forall|k: int| 0 <= k < e.len() implies s[k] == e[k] by {}
    if c != '\0' {
        assert forall|k: int| 0 <= k < e.len() implies e[k] != 0u8 by {}
    }
}

/// A well-formed byte sequence is also well-formed where its end may cut a
/// character.
proof fn lemma_utf8_cut(s: Seq<u8>, i: int)
    requires
        0 <= i,
        utf8_from(s, i),
    ensures
        utf8_cut_from(s, i),
    decreases s.len() - i,
{
    if i < s.len() {
        lemma_utf8_cut(s, i + utf8_seq_len(s, i));
    }
}

/// The encoding of a text is well-formed UTF-8, and holds a zero byte only
/// where the text holds a NUL.
proof fn lemma_utf8_encode(s: Seq<char>)
    ensures
        well_formed_utf8(utf8_encode(s)),
        !s.contains('\0') ==> !utf8_encode(s).contains(0u8),
    decreases s.len(),
{
    if s.len() > 0 {
        let e = utf8_char(s[0]);
        let r = utf8_encode(s.skip(1));
        lemma_utf8_encode(s.skip(1));
        lemma_utf8_char(s[0], r);
        lemma_utf8_shift(e, r, 0);
        if !s.contains('\0') {
            assert(s[0] != '\0');
            assert(!s.skip(1).contains('\0')) by {
                if s.skip(1).contains('\0') {
                    let k = choose|k: int| 0 <= k < s.skip(1).len() && s.skip(1)[k] == '\0';
                    assert(s[k + 1] == '\0');
                }
            }
            assert(!(e + r).contains(0u8)) by {
                if (e + r).contains(0u8) {
                    let k = choose|k: int| 0 <= k < (e + r).len() && (e + r)[k] == 0u8;
                    if k < e.len() {
                        assert(e[k] == 0u8);
                    } else {
                        assert(r[k - e.len()] == 0u8);
                    }
                }
            }
        }
    }
}

/// Text files are never taken for binary: the UTF-8 encoding of any text
/// without a NUL character, read whole or as the start of a longer file,
/// is not binary.
pub proof fn law_text_is_not_binary(s: Seq<char>, whole_file: bool)
    requires
        !s.contains('\0'),
    ensures
        !looks_binary(utf8_encode(s), whole_file),
{
    lemma_utf8_encode(s);
    lemma_utf8_cut(utf8_encode(s), 0);
}

/// Stripping a line's ending removes exactly a final `\r\n` or, failing
/// that, a final `\n`, and nothing else.
pub proof fn law_strip_ending(s: Seq<char>)
    ensures
        s.len() >= 2 && s[s.len() - 2] == '\r' && s[s.len() - 1] == '\n' ==> s == strip_ending(s) + seq!['\r', '\n'],
        s.len() >= 1 && s[s.len() - 1] == '\n' && !(s.len() >= 2 && s[s.len() - 2] == '\r') ==> s == strip_ending(s)
            + seq!['\n'],
        !(s.len() >= 1 && s[s.len() - 1] == '\n') ==> strip_ending(s) == s,
{
    if s.len() >= 2 && s[s.len() - 2] == '\r' && s[s.len() - 1] == '\n' {
        assert(s =~= s.drop_last().drop_last() + seq!['\r', '\n']);
    } else if s.len() >= 1 && s[s.len() - 1] == '\n' {
        assert(s =~= s.drop_last() + seq!['\n']);
    }
}

/// A byte that no well-formed UTF-8 text can hold anywhere.
pub open spec fn never_utf8(b: u8) -> bool {
    b == 0xC0 || b == 0xC1 || b >= 0xF5
}

proof fn lemma_utf8_no_bad_byte(s: Seq<u8>, i: int, k: int)
    requires
        0 <= i <= k < s.len(),
        utf8_cut_from(s, i),
    ensures
        !never_utf8(s[k]),
    decreases s.len() - i,
{
    let n = utf8_seq_len(s, i);
    if n > 0 && k >= i + n {
        lemma_utf8_no_bad_byte(s, i + n, k);
    }
}

/// A sample holding a byte that UTF-8 never uses (`0xC0`, `0xC1` or
/// `0xF5` and above) is binary, wherever the byte stands.
pub proof fn law_foreign_byte_is_binary(sample: Seq<u8>, k: int, whole_file: bool)
    requires
        0 <= k < sample.len(),
        never_utf8(sample[k]),
    ensures
        looks_binary(sample, whole_file),
{
    if utf8_cut_from(sample, 0) {
        lemma_utf8_no_bad_byte(sample, 0, k);
    }
    if well_formed_utf8(sample) {
        lemma_utf8_cut(sample, 0);
        lemma_utf8_no_bad_byte(sample, 0, k);
    }
}

} // verus!

//! The line-diff engine: computes the differences between two sequences of
//! lines and renders them as GNU-style unified hunks with `@@ -a,b +c,d @@`
//! headers, word-level highlighting and a JSON report.
use vstd::prelude::*;
use crate::text::{collapse, lower_all, chars_equal, chars_of, collapse_chars, lower_chars, words, split_words, string_from_chars, push_chars, push_str, push_decimal, decimal, trim, trim_chars, starts_with_str, ends_with_str, contains_char, byte_len, char_len_exec, lemma_byte_len_monotone};
use crate::lcs::{lcs, seqs_of, lcs_table, lemma_lcs_self};
use crate::script::{diff_script, edit_script, law_diff_script, removals_first, all_context, lemma_all_context, lemma_keys_of};
use crate::hunks::{lemma_hunk_k, context_near_change, lemma_span_context_near, context_full, lemma_span_context_full, layout, cut_hunks, runs_ok, runs_of, shown_marks, hunks_of, law_hunk_layout, old_begin, new_begin, has_change, patch, no_change, is_change, lemma_change_counts};

verus! {

/// A single line in a unified diff hunk.
#[derive(Debug, Clone, PartialEq, Eq)]
pub enum DiffLine {
    /// An unchanged (context) line.
    Context(String),
    /// A line present only in the old file.
    Removed(String),
    /// A line present only in the new file.
    Added(String),
}

/// The mathematical content of a [`DiffLine`].
pub enum LineView {
    Context(Seq<char>),
    Removed(Seq<char>),
    Added(Seq<char>),
}

impl View for DiffLine {
    type V = LineView;

    open spec fn view(&self) -> LineView {
        match self {
            DiffLine::Context(s) => LineView::Context(s@),
            DiffLine::Removed(s) => LineView::Removed(s@),
            DiffLine::Added(s) => LineView::Added(s@),
        }
    }
}

/// A word-level segment within a changed line.
#[derive(Debug, Clone, PartialEq, Eq)]
pub enum WordDiff {
    /// An unchanged word.
    Context(String),
    /// A word removed from the old file.
    Removed(String),
    /// A word added in the new file.
    Added(String),
}

impl View for WordDiff {
    type V = LineView;

    open spec fn view(&self) -> LineView {
        match self {
            WordDiff::Context(s) => LineView::Context(s@),
            WordDiff::Removed(s) => LineView::Removed(s@),
            WordDiff::Added(s) => LineView::Added(s@),
        }
    }
}

/// A contiguous region of differences in a unified diff.
#[derive(Debug, Clone, PartialEq, Eq)]
pub struct Hunk {
    /// 1-based starting line in the old file.
    pub old_start: usize,
    /// Number of old-file lines in this hunk.
    pub old_count: usize,
    /// 1-based starting line in the new file.
    pub new_start: usize,
    /// Number of new-file lines in this hunk.
    pub new_count: usize,
    /// The context/removed/added lines making up this hunk.
    pub lines: Vec<DiffLine>,
}

/// The mathematical content of a [`Hunk`].
pub struct HunkView {
    pub old_start: int,
    pub old_count: int,
    pub new_start: int,
    pub new_count: int,
    pub lines: Seq<LineView>,
}

/// The views of a sequence of diff lines.
pub open spec fn lines_view(v: Seq<DiffLine>) -> Seq<LineView> {
    v.map_values(|l: DiffLine| l@)
}

impl View for Hunk {
    type V = HunkView;

    open spec fn view(&self) -> HunkView {
        HunkView {
            old_start: self.old_start as int,
            old_count: self.old_count as int,
            new_start: self.new_start as int,
            new_count: self.new_count as int,
            lines: lines_view(self.lines@),
        }
    }
}

/// The views of a sequence of hunks.
pub open spec fn hunks_view(v: Seq<Hunk>) -> Seq<HunkView> {
    v.map_values(|h: Hunk| h@)
}

/// Options that control how hunks are computed and formatted.
#[derive(Debug, Clone)]
pub struct DiffOptions {
    /// Number of context lines around changes (default 3).
    pub context: usize,
    /// Compare lines case-insensitively.
    pub ignore_case: bool,
    /// Ignore all whitespace when comparing lines.
    pub ignore_all_space: bool,
    /// Show word-level intra-line highlighting.
    pub word_diff: bool,
}

impl Default for DiffOptions {
    fn default() -> (o: Self)
        ensures
            o.context == 3,
            !o.ignore_case,
            !o.ignore_all_space,
            !o.word_diff,
    {
        DiffOptions { context: 3, ignore_case: false, ignore_all_space: false, word_diff: false }
    }
}

/// The characters of each line.
pub open spec fn text_lines(v: Seq<String>) -> Seq<Seq<char>> {
    v.map_values(|s: String| s@)
}

/// The form of a line that comparison looks at: whitespace runs collapsed
/// when whitespace is ignored, ASCII letters lowercased when case is ignored.
pub open spec fn line_key(line: Seq<char>, ignore_case: bool, ignore_all_space: bool) -> Seq<char> {
    let s = if ignore_all_space { collapse(line) } else { line };
    if ignore_case { lower_all(s) } else { s }
}

/// Whether two lines compare equal under the options.
pub open spec fn lines_match(a: Seq<char>, b: Seq<char>, opts: DiffOptions) -> bool {
    line_key(a, opts.ignore_case, opts.ignore_all_space) == line_key(b, opts.ignore_case, opts.ignore_all_space)
}

/// The comparison keys of all lines.
pub open spec fn keys_of(lines: Seq<Seq<char>>, opts: DiffOptions) -> Seq<Seq<char>> {
    lines.map_values(|l: Seq<char>| line_key(l, opts.ignore_case, opts.ignore_all_space))
}

/// Comparing lines under the options is an equivalence: every line matches
/// itself, matching is symmetric, and lines that match a common line match
/// each other.
pub proof fn law_lines_match_equivalence(a: Seq<char>, b: Seq<char>, c: Seq<char>, opts: DiffOptions)
    ensures
        lines_match(a, a, opts),
        lines_match(a, b, opts) ==> lines_match(b, a, opts),
        lines_match(a, b, opts) && lines_match(b, c, opts) ==> lines_match(a, c, opts),
{
}

/// Two files are equivalent when they have the same number of lines and
/// corresponding lines compare equal under the options.
pub open spec fn equivalent(old: Seq<Seq<char>>, new: Seq<Seq<char>>, opts: DiffOptions) -> bool {
    old.len() == new.len() && forall|k: int| 0 <= k < old.len() ==> lines_match(old[k], new[k], opts)
}

// ---------------------------------------------------------------------------
// Hunks.
// ---------------------------------------------------------------------------

/// `a - b`, or 0 where `b` exceeds `a`.
pub open spec fn sat_sub(a: int, b: int) -> int {
    if a >= b { a - b } else { 0 }
}

/// Number of lines that belong to the old file (context and removed).
pub open spec fn count_old(lines: Seq<LineView>) -> int
    decreases lines.len(),
{
    if lines.len() == 0 {
        0
    } else {
        count_old(lines.drop_last()) + if lines.last() is Added { 0int } else { 1int }
    }
}

/// Number of lines that belong to the new file (context and added).
pub open spec fn count_new(lines: Seq<LineView>) -> int
    decreases lines.len(),
{
    if lines.len() == 0 {
        0
    } else {
        count_new(lines.drop_last()) + if lines.last() is Removed { 0int } else { 1int }
    }
}



pub proof fn lemma_count_prefix(lines: Seq<LineView>, k: int)
    requires
        0 <= k <= lines.len(),
    ensures
        0 <= count_old(lines.take(k)) <= count_old(lines),
        0 <= count_new(lines.take(k)) <= count_new(lines),
    decreases lines.len() - k,
{
    if k < lines.len() {
        lemma_count_prefix(lines, k + 1);
        assert(lines.take(k + 1).drop_last() =~= lines.take(k));
    } else {
        assert(lines.take(k) =~= lines);
    }
    lemma_count_nonneg(lines.take(k));
}

pub proof fn lemma_count_nonneg(lines: Seq<LineView>)
    ensures
        0 <= count_old(lines) <= lines.len(),
        0 <= count_new(lines) <= lines.len(),
    decreases lines.len(),
{
    if lines.len() > 0 {
        lemma_count_nonneg(lines.drop_last());
    }
}

/// The options that [`compute_hunks`] uses.
pub open spec fn basic_options(context: usize, ignore_case: bool) -> DiffOptions {
    DiffOptions { context, ignore_case, ignore_all_space: false, word_diff: false }
}

/// The comparison keys of the lines.
pub(crate) fn line_keys(lines: &[String], opts: &DiffOptions) -> (keys: Vec<Vec<char>>)
    ensures
        seqs_of(keys@) == keys_of(text_lines(lines@), *opts),
{
    let mut keys: Vec<Vec<char>> = Vec::new();
    let mut k: usize = 0;
    while k < lines.len()
        invariant
            k <= lines@.len(),
            keys@.len() == k,
            forall|t: int| 0 <= t < k ==> #[trigger] keys@[t]@ == line_key(lines@[t]@, opts.ignore_case, opts.ignore_all_space),
        decreases lines@.len() - k,
    {
        let chars = chars_of(lines[k].as_str());
        let spaced = if opts.ignore_all_space { collapse_chars(&chars) } else { chars };
        let key = if opts.ignore_case { lower_chars(&spaced) } else { spaced };
        keys.push(key);
        k += 1;
    }
    assert(seqs_of(keys@) =~= keys_of(text_lines(lines@), *opts));
    keys
}


/// The hunks between `old` and `new`: the edit script cut into hunks with
/// `opts.context` lines of context.
pub open spec fn diff_hunks(old: Seq<Seq<char>>, new: Seq<Seq<char>>, opts: DiffOptions) -> Seq<HunkView> {
    layout(diff_script(old, new, opts), opts.context as int)
}

/// A hunk agrees with the two files: its counts are those of its lines,
/// its context and removed lines are the old lines that its header names,
/// and its context and added lines match, by comparison key (and exactly
/// when nothing is ignored), the new lines that its header names.
pub open spec fn hunk_matches(old: Seq<Seq<char>>, new: Seq<Seq<char>>, opts: DiffOptions, h: HunkView) -> bool {
    &&& h.old_count == count_old(h.lines)
    &&& h.new_count == count_new(h.lines)
    &&& 0 <= old_begin(h) <= old_begin(h) + h.old_count <= old.len()
    &&& 0 <= new_begin(h) <= new_begin(h) + h.new_count <= new.len()
    &&& old_side(h.lines) == old.subrange(old_begin(h), old_begin(h) + h.old_count)
    &&& keys_of(new_side(h.lines), opts) == keys_of(new.subrange(new_begin(h), new_begin(h) + h.new_count), opts)
    &&& (!opts.ignore_case && !opts.ignore_all_space ==> new_side(h.lines) == new.subrange(new_begin(h), new_begin(h) + h.new_count))
}

/// The hunks form a unified diff of `old` into `new`: each hunk agrees with
/// the two files, holds a change, keeps no line further than `context`
/// lines from a change of its own while showing all the context that the
/// files have around its changes, and lists the removals of each run of
/// changes before its additions; without context no hunk holds a kept
/// line; consecutive hunks leave at least one line between them in each
/// file; applying the hunks to `old` gives `new` (by comparison key, and
/// exactly when nothing is ignored); the removed and added lines are as few
/// as a longest common subsequence allows; and there is no hunk exactly
/// when the files are equivalent.
pub open spec fn unified_diff(old: Seq<Seq<char>>, new: Seq<Seq<char>>, opts: DiffOptions, hs: Seq<HunkView>) -> bool {
    &&& forall|k: int| 0 <= k < hs.len() ==> hunk_matches(old, new, opts, #[trigger] hs[k])
    &&& forall|k: int| 0 <= k < hs.len() ==> has_change(#[trigger] hs[k].lines) && removals_first(hs[k].lines)
        && context_near_change(hs[k].lines, opts.context as int)
        && context_full(hs[k], opts.context as int, old.len() as int, new.len() as int)
    &&& (opts.context == 0 ==> forall|k: int, t: int|
        0 <= k < hs.len() && 0 <= t < hs[k].lines.len() ==> !(#[trigger] hs[k].lines[t] is Context))
    &&& forall|k: int| 0 <= k < hs.len() - 1 ==> old_begin(#[trigger] hs[k]) + hs[k].old_count < old_begin(hs[k + 1])
        && new_begin(hs[k]) + hs[k].new_count < new_begin(hs[k + 1])
    &&& keys_of(patch(old, hs), opts) == keys_of(new, opts)
    &&& (!opts.ignore_case && !opts.ignore_all_space ==> patch(old, hs) == new)
    &&& total_kind(hs, false) == old.len() - lcs(keys_of(old, opts), keys_of(new, opts), 0, 0)
    &&& total_kind(hs, true) == new.len() - lcs(keys_of(old, opts), keys_of(new, opts), 0, 0)
    &&& (hs.len() == 0 <==> equivalent(old, new, opts))
}

/// Equivalence is equality of the comparison keys.
proof fn lemma_equivalent_keys(old: Seq<Seq<char>>, new: Seq<Seq<char>>, opts: DiffOptions)
    ensures
        equivalent(old, new, opts) <==> keys_of(old, opts) == keys_of(new, opts),
{
    let ok = keys_of(old, opts);
    let nk = keys_of(new, opts);
    if equivalent(old, new, opts) {
        assert(ok =~= nk) by {
            assert forall|k: int| 0 <= k < ok.len() implies ok[k] == nk[k] by {
                assert(lines_match(old[k], new[k], opts));
            }
        }
    }
    if ok == nk {
        assert(old.len() == ok.len() && new.len() == nk.len());
        assert forall|k: int| 0 <= k < old.len() implies lines_match(old[k], new[k], opts) by {
            assert(ok[k] == nk[k]);
        }
    }
}

/// Each hunk cut from the edit script agrees with the two files.
proof fn lemma_diff_hunks_match(old: Seq<Seq<char>>, new: Seq<Seq<char>>, opts: DiffOptions)
    requires
        runs_ok(shown_marks(diff_script(old, new, opts), opts.context as int),
            runs_of(shown_marks(diff_script(old, new, opts), opts.context as int))),
    ensures
        forall|k: int| 0 <= k < diff_hunks(old, new, opts).len() ==> hunk_matches(old, new, opts, #[trigger] diff_hunks(old, new, opts)[k]),
{
    let d = diff_script(old, new, opts);
    let ctx = opts.context as int;
    let sp = runs_of(shown_marks(d, ctx));
    let hs = diff_hunks(old, new, opts);
    law_diff_script(old, new, opts);
    law_hunk_layout(d, ctx, sp);
    lemma_keys_of(new, Seq::empty(), opts);
    lemma_keys_of(new_side(d), Seq::empty(), opts);
    assert forall|k: int| 0 <= k < hs.len() implies hunk_matches(old, new, opts, #[trigger] hs[k]) by {
        let h = hs[k];
        assert(h == hunks_of(d, sp)[k]);
        let x = new_begin(h);
        let y = new_begin(h) + h.new_count;
        assert(keys_of(new_side(d).subrange(x, y), opts) == keys_of(new_side(d), opts).subrange(x, y));
        assert(keys_of(new.subrange(x, y), opts) == keys_of(new, opts).subrange(x, y));
        if !opts.ignore_case && !opts.ignore_all_space {
            lemma_keys_of(new_side(h.lines), Seq::empty(), opts);
            lemma_keys_of(new.subrange(x, y), Seq::empty(), opts);
        }
    }
}

/// The shape of the hunk `k` cut from the edit script: it holds a change
/// with removals first, keeps its context close to its changes but as full
/// as the files allow, holds no kept line without context, and stands apart
/// from the next hunk.
#[verifier::spinoff_prover]
proof fn lemma_diff_hunk_shape(old: Seq<Seq<char>>, new: Seq<Seq<char>>, opts: DiffOptions, k: int)
    requires
        runs_ok(shown_marks(diff_script(old, new, opts), opts.context as int),
            runs_of(shown_marks(diff_script(old, new, opts), opts.context as int))),
        0 <= k < diff_hunks(old, new, opts).len(),
    ensures
        has_change(diff_hunks(old, new, opts)[k].lines),
        removals_first(diff_hunks(old, new, opts)[k].lines),
        context_near_change(diff_hunks(old, new, opts)[k].lines, opts.context as int),
        context_full(diff_hunks(old, new, opts)[k], opts.context as int, old.len() as int, new.len() as int),
        opts.context == 0 ==> forall|t: int| 0 <= t < diff_hunks(old, new, opts)[k].lines.len()
            ==> !(#[trigger] diff_hunks(old, new, opts)[k].lines[t] is Context),
        k + 1 < diff_hunks(old, new, opts).len() ==> old_begin(diff_hunks(old, new, opts)[k])
            + diff_hunks(old, new, opts)[k].old_count < old_begin(diff_hunks(old, new, opts)[k + 1])
            && new_begin(diff_hunks(old, new, opts)[k]) + diff_hunks(old, new, opts)[k].new_count
            < new_begin(diff_hunks(old, new, opts)[k + 1]),
{
    let d = diff_script(old, new, opts);
    let ctx = opts.context as int;
    let sp = runs_of(shown_marks(d, ctx));
    law_diff_script(old, new, opts);
    lemma_keys_of(new, Seq::empty(), opts);
    lemma_keys_of(new_side(d), Seq::empty(), opts);
    lemma_hunk_k(d, ctx, sp, k);
    lemma_span_context_near(d, ctx, sp, k);
    lemma_span_context_full(d, ctx, sp, k);
    assert(sp[k] == sp[k]);
}

/// The hunks cut from the edit script each hold a change with removals
/// first, hold no kept line without context, and stand apart.
proof fn lemma_diff_hunks_shape(old: Seq<Seq<char>>, new: Seq<Seq<char>>, opts: DiffOptions)
    requires
        runs_ok(shown_marks(diff_script(old, new, opts), opts.context as int),
            runs_of(shown_marks(diff_script(old, new, opts), opts.context as int))),
    ensures
        ({
            let hs = diff_hunks(old, new, opts);
            &&& forall|k: int| 0 <= k < hs.len() ==> has_change(#[trigger] hs[k].lines) && removals_first(hs[k].lines)
                && context_near_change(hs[k].lines, opts.context as int)
                && context_full(hs[k], opts.context as int, old.len() as int, new.len() as int)
            &&& (opts.context == 0 ==> forall|k: int, t: int|
                0 <= k < hs.len() && 0 <= t < hs[k].lines.len() ==> !(#[trigger] hs[k].lines[t] is Context))
            &&& forall|k: int| 0 <= k < hs.len() - 1 ==> old_begin(#[trigger] hs[k]) + hs[k].old_count < old_begin(hs[k + 1])
                && new_begin(hs[k]) + hs[k].new_count < new_begin(hs[k + 1])
        }),
{
    let hs = diff_hunks(old, new, opts);
    assert forall|k: int| 0 <= k < hs.len() implies has_change(#[trigger] hs[k].lines) && removals_first(hs[k].lines)
        && context_near_change(hs[k].lines, opts.context as int)
        && context_full(hs[k], opts.context as int, old.len() as int, new.len() as int) by {
        lemma_diff_hunk_shape(old, new, opts, k);
    }
    if opts.context == 0 {
        assert forall|k: int, t: int| 0 <= k < hs.len() && 0 <= t < hs[k].lines.len() implies !(#[trigger] hs[k].lines[t] is Context) by {
            lemma_diff_hunk_shape(old, new, opts, k);
        }
    }
    assert forall|k: int| 0 <= k < hs.len() - 1 implies old_begin(#[trigger] hs[k]) + hs[k].old_count < old_begin(hs[k + 1])
        && new_begin(hs[k]) + hs[k].new_count < new_begin(hs[k + 1]) by {
        lemma_diff_hunk_shape(old, new, opts, k);
    }
}

/// Applying the hunks cut from the edit script gives the new file; their
/// changes are as few as possible; there are none exactly for equivalent
/// files.
proof fn lemma_diff_hunks_patch(old: Seq<Seq<char>>, new: Seq<Seq<char>>, opts: DiffOptions)
    requires
        runs_ok(shown_marks(diff_script(old, new, opts), opts.context as int),
            runs_of(shown_marks(diff_script(old, new, opts), opts.context as int))),
    ensures
        keys_of(patch(old, diff_hunks(old, new, opts)), opts) == keys_of(new, opts),
        !opts.ignore_case && !opts.ignore_all_space ==> patch(old, diff_hunks(old, new, opts)) == new,
        total_kind(diff_hunks(old, new, opts), false) == old.len() - lcs(keys_of(old, opts), keys_of(new, opts), 0, 0),
        total_kind(diff_hunks(old, new, opts), true) == new.len() - lcs(keys_of(old, opts), keys_of(new, opts), 0, 0),
        diff_hunks(old, new, opts).len() == 0 <==> equivalent(old, new, opts),
{
    let d = diff_script(old, new, opts);
    let ctx = opts.context as int;
    let sp = runs_of(shown_marks(d, ctx));
    let ok = keys_of(old, opts);
    let nk = keys_of(new, opts);
    law_diff_script(old, new, opts);
    law_hunk_layout(d, ctx, sp);
    lemma_keys_of(new, Seq::empty(), opts);
    lemma_keys_of(new_side(d), Seq::empty(), opts);
    lemma_keys_of(old, Seq::empty(), opts);
    lemma_equivalent_keys(old, new, opts);
    lemma_change_counts(d);
    if ok == nk {
        lemma_lcs_self(ok, 0);
    }
    if no_change(d) {
        assert(all_context(d)) by {
            assert forall|t: int| 0 <= t < d.len() implies #[trigger] d[t] is Context by {
                assert(!is_change(d, t));
            }
        }
        lemma_all_context(d);
    }
}

/// The hunks cut from the edit script form a unified diff.
proof fn lemma_diff_hunks(old: Seq<Seq<char>>, new: Seq<Seq<char>>, opts: DiffOptions)
    requires
        runs_ok(shown_marks(diff_script(old, new, opts), opts.context as int),
            runs_of(shown_marks(diff_script(old, new, opts), opts.context as int))),
    ensures
        unified_diff(old, new, opts, diff_hunks(old, new, opts)),
{
    lemma_diff_hunks_match(old, new, opts);
    lemma_diff_hunks_shape(old, new, opts);
    lemma_diff_hunks_patch(old, new, opts);
}

/// Compute a list of unified hunks describing the differences between `old`
/// and `new`.
///
/// This is the primary entry point for backward compatibility. For full
/// control over options, use [`compute_hunks_with_options`].
pub fn compute_hunks(old: &[String], new: &[String], context: usize, ignore_case: bool) -> (hunks: Vec<Hunk>)
    requires
        old@.len() < usize::MAX,
        new@.len() < usize::MAX,
    ensures
        hunks_view(hunks@) == diff_hunks(text_lines(old@), text_lines(new@), basic_options(context, ignore_case)),
        unified_diff(text_lines(old@), text_lines(new@), basic_options(context, ignore_case), hunks_view(hunks@)),
{
    compute_hunks_with_options(old, new, &DiffOptions { context, ignore_case, ..DiffOptions::default() })
}

/// Compute hunks with full control over comparison and formatting options.
pub fn compute_hunks_with_options(old: &[String], new: &[String], opts: &DiffOptions) -> (hunks: Vec<Hunk>)
    requires
        old@.len() < usize::MAX,
        new@.len() < usize::MAX,
    ensures
        hunks_view(hunks@) == diff_hunks(text_lines(old@), text_lines(new@), *opts),
        unified_diff(text_lines(old@), text_lines(new@), *opts, hunks_view(hunks@)),
{
    let d = edit_script(old, new, opts);
    let hunks = cut_hunks(&d, opts.context);
    proof {
        lemma_diff_hunks(text_lines(old@), text_lines(new@), *opts);
    }
    hunks
}


// ---------------------------------------------------------------------------
// Word-level diff.
// ---------------------------------------------------------------------------

/// The segments of the greedy LCS walk over two word sequences from
/// `(i, j)`, appended to `acc`: common words as context, the others as
/// removed or added (removing first on a tie), then what is left of each side.
pub open spec fn word_walk(a: Seq<Seq<char>>, b: Seq<Seq<char>>, i: int, j: int, acc: Seq<LineView>) -> Seq<LineView>
    decreases (if 0 <= i < a.len() { a.len() - i } else { 0 }) + (if 0 <= j < b.len() { b.len() - j } else { 0 }),
{
    if 0 <= i < a.len() && 0 <= j < b.len() {
        if a[i] == b[j] {
            word_walk(a, b, i + 1, j + 1, acc.push(LineView::Context(a[i])))
        } else if lcs(a, b, i + 1, j) >= lcs(a, b, i, j + 1) {
            word_walk(a, b, i + 1, j, acc.push(LineView::Removed(a[i])))
        } else {
            word_walk(a, b, i, j + 1, acc.push(LineView::Added(b[j])))
        }
    } else if 0 <= i < a.len() {
        word_walk(a, b, i + 1, j, acc.push(LineView::Removed(a[i])))
    } else if 0 <= j < b.len() {
        word_walk(a, b, i, j + 1, acc.push(LineView::Added(b[j])))
    } else {
        acc
    }
}

/// The word-level diff of two lines.
pub open spec fn word_diff(old_line: Seq<char>, new_line: Seq<char>) -> Seq<LineView> {
    word_walk(words(old_line), words(new_line), 0, 0, Seq::empty())
}

/// The views of a sequence of word segments.
pub open spec fn words_view(v: Seq<WordDiff>) -> Seq<LineView> {
    v.map_values(|w: WordDiff| w@)
}

/// Compute word-level diff between two changed lines.
///
/// Splits each line into whitespace-delimited words, then computes the LCS
/// of the word arrays to identify which words changed.
pub fn compute_word_diff(old_line: &str, new_line: &str) -> (segs: Vec<WordDiff>)
    ensures
        words_view(segs@) == word_diff(old_line@, new_line@),
{
    let old_words = split_words(old_line);
    let new_words = split_words(new_line);
    let ghost a = seqs_of(old_words@);
    let ghost b = seqs_of(new_words@);
    let n = old_words.len();
    let m = new_words.len();
    let mut result: Vec<WordDiff> = Vec::new();
    let t = lcs_table(&old_words, &new_words);
    let ghost target = word_walk(a, b, 0, 0, Seq::empty());
    let mut i: usize = 0;
    let mut j: usize = 0;
    assert(words_view(result@) =~= Seq::<LineView>::empty());
    while i < n && j < m
        invariant
            n == a.len(),
            m == b.len(),
            a == seqs_of(old_words@),
            b == seqs_of(new_words@),
            crate::lcs::lcs_table_ok(t@, a, b),
            i <= n,
            j <= m,
            target == word_walk(a, b, i as int, j as int, words_view(result@)),
        decreases n - i + m - j,
    {
        proof {
            assert(a[i as int] == old_words@[i as int]@);
            assert(b[j as int] == new_words@[j as int]@);
        }
        if chars_equal(&old_words[i], &new_words[j]) {
            let w = WordDiff::Context(string_from_chars(&old_words[i]));
            proof { assert(words_view(result@.push(w)) =~= words_view(result@).push(w@)); }
            result.push(w);
            i += 1;
            j += 1;
        } else {
            proof {
                assert(t@[n - (i + 1)]@[j as int] == lcs(a, b, i + 1, j as int));
                assert(t@[n - i]@[j + 1] == lcs(a, b, i as int, j + 1));
            }
            if t[n - (i + 1)][j] >= t[n - i][j + 1] {
                let w = WordDiff::Removed(string_from_chars(&old_words[i]));
                proof { assert(words_view(result@.push(w)) =~= words_view(result@).push(w@)); }
                result.push(w);
                i += 1;
            } else {
                let w = WordDiff::Added(string_from_chars(&new_words[j]));
                proof { assert(words_view(result@.push(w)) =~= words_view(result@).push(w@)); }
                result.push(w);
                j += 1;
            }
        }
    }
    while i < n
        invariant
            n == a.len(),
            m == b.len(),
            a == seqs_of(old_words@),
            b == seqs_of(new_words@),
            i <= n,
            j <= m,
            i < n ==> j >= m,
            target == word_walk(a, b, i as int, j as int, words_view(result@)),
        decreases n - i,
    {
        proof { assert(a[i as int] == old_words@[i as int]@); }
        let w = WordDiff::Removed(string_from_chars(&old_words[i]));
        proof { assert(words_view(result@.push(w)) =~= words_view(result@).push(w@)); }
        result.push(w);
        i += 1;
    }
    while j < m
        invariant
            n == a.len(),
            m == b.len(),
            b == seqs_of(new_words@),
            i >= n,
            j <= m,
            target == word_walk(a, b, i as int, j as int, words_view(result@)),
        decreases m - j,
    {
        proof { assert(b[j as int] == new_words@[j as int]@); }
        let w = WordDiff::Added(string_from_chars(&new_words[j]));
        proof { assert(words_view(result@.push(w)) =~= words_view(result@).push(w@)); }
        result.push(w);
        j += 1;
    }
    result
}

/// The text of word segments: context words as they are, removed words as
/// `[-w-]`, added words as `{w}`, separated by single spaces (none after an
/// opening `[` or `{` already at the end).
pub open spec fn word_text(segs: Seq<LineView>) -> Seq<char>
    decreases segs.len(),
{
    if segs.len() == 0 {
        Seq::empty()
    } else {
        let out = word_text(segs.drop_last());
        match segs.last() {
            LineView::Context(w) => (if out.len() > 0 { out.push(' ') } else { out }) + w,
            LineView::Removed(w) => (if out.len() > 0 && out.last() != '[' { out.push(' ') } else { out })
                + seq!['[', '-'] + w + seq!['-', ']'],
            LineView::Added(w) => (if out.len() > 0 && out.last() != '{' { out.push(' ') } else { out })
                + seq!['{'] + w + seq!['}'],
        }
    }
}

/// Format word diff segments into a string with `{added}` and `[-removed-]`
/// markers.
pub fn format_word_diff(segments: &[WordDiff]) -> (s: String)
    ensures
        s@ == word_text(words_view(segments@)),
{
    let mut out: Vec<char> = Vec::new();
    let mut k: usize = 0;
    while k < segments.len()
        invariant
            k <= segments@.len(),
            out@ == word_text(words_view(segments@).take(k as int)),
        decreases segments@.len() - k,
    {
        proof {
            assert(words_view(segments@).take(k + 1).drop_last() =~= words_view(segments@).take(k as int));
        }
        let ghost before = out@;
        match &segments[k] {
            WordDiff::Context(w) => {
                if out.len() > 0 {
                    out.push(' ');
                }
                push_str(&mut out, w.as_str());
            },
            WordDiff::Removed(w) => {
                if out.len() > 0 && out[out.len() - 1] != '[' {
                    out.push(' ');
                }
                out.push('[');
                out.push('-');
                push_str(&mut out, w.as_str());
                out.push('-');
                out.push(']');
            },
            WordDiff::Added(w) => {
                if out.len() > 0 && out[out.len() - 1] != '{' {
                    out.push(' ');
                }
                out.push('{');
                push_str(&mut out, w.as_str());
                out.push('}');
            },
        }
        k += 1;
        proof {
            let segs = words_view(segments@).take(k as int);
            assert(out@ =~= word_text(segs));
        }
    }
    assert(words_view(segments@).take(segments@.len() as int) =~= words_view(segments@));
    string_from_chars(&out)
}


/// The words of the old line that segments show: context and removed words.
pub open spec fn old_side(segs: Seq<LineView>) -> Seq<Seq<char>>
    decreases segs.len(),
{
    if segs.len() == 0 {
        Seq::empty()
    } else {
        let p = old_side(segs.drop_last());
        match segs.last() {
            LineView::Added(_) => p,
            LineView::Context(w) => p.push(w),
            LineView::Removed(w) => p.push(w),
        }
    }
}

/// The words of the new line that segments show: context and added words.
pub open spec fn new_side(segs: Seq<LineView>) -> Seq<Seq<char>>
    decreases segs.len(),
{
    if segs.len() == 0 {
        Seq::empty()
    } else {
        let p = new_side(segs.drop_last());
        match segs.last() {
            LineView::Removed(_) => p,
            LineView::Context(w) => p.push(w),
            LineView::Added(w) => p.push(w),
        }
    }
}

/// Number of context segments.
pub open spec fn count_context(segs: Seq<LineView>) -> int
    decreases segs.len(),
{
    if segs.len() == 0 {
        0
    } else {
        count_context(segs.drop_last()) + if segs.last() is Context { 1int } else { 0int }
    }
}

proof fn lemma_word_walk_sides(a: Seq<Seq<char>>, b: Seq<Seq<char>>, i: int, j: int, acc: Seq<LineView>)
    requires
        0 <= i <= a.len(),
        0 <= j <= b.len(),
    ensures
        old_side(word_walk(a, b, i, j, acc)) == old_side(acc) + a.skip(i),
        new_side(word_walk(a, b, i, j, acc)) == new_side(acc) + b.skip(j),
        count_context(word_walk(a, b, i, j, acc)) == count_context(acc) + lcs(a, b, i, j),
    decreases a.len() - i + b.len() - j,
{
    if i < a.len() && j < b.len() {
        if a[i] == b[j] {
            let acc2 = acc.push(LineView::Context(a[i]));
            assert(acc2.drop_last() =~= acc);
            lemma_word_walk_sides(a, b, i + 1, j + 1, acc2);
            assert(old_side(acc2) + a.skip(i + 1) =~= old_side(acc) + a.skip(i));
            assert(new_side(acc2) + b.skip(j + 1) =~= new_side(acc) + b.skip(j));
        } else if lcs(a, b, i + 1, j) >= lcs(a, b, i, j + 1) {
            let acc2 = acc.push(LineView::Removed(a[i]));
            assert(acc2.drop_last() =~= acc);
            lemma_word_walk_sides(a, b, i + 1, j, acc2);
            assert(old_side(acc2) + a.skip(i + 1) =~= old_side(acc) + a.skip(i));
        } else {
            let acc2 = acc.push(LineView::Added(b[j]));
            assert(acc2.drop_last() =~= acc);
            lemma_word_walk_sides(a, b, i, j + 1, acc2);
            assert(new_side(acc2) + b.skip(j + 1) =~= new_side(acc) + b.skip(j));
        }
    } else if i < a.len() {
        let acc2 = acc.push(LineView::Removed(a[i]));
        assert(acc2.drop_last() =~= acc);
        lemma_word_walk_sides(a, b, i + 1, j, acc2);
        assert(old_side(acc2) + a.skip(i + 1) =~= old_side(acc) + a.skip(i));
        assert(b.skip(j) =~= Seq::<Seq<char>>::empty());
    } else if j < b.len() {
        let acc2 = acc.push(LineView::Added(b[j]));
        assert(acc2.drop_last() =~= acc);
        lemma_word_walk_sides(a, b, i, j + 1, acc2);
        assert(new_side(acc2) + b.skip(j + 1) =~= new_side(acc) + b.skip(j));
        assert(a.skip(i) =~= Seq::<Seq<char>>::empty());
    } else {
        assert(a.skip(i) =~= Seq::<Seq<char>>::empty());
        assert(b.skip(j) =~= Seq::<Seq<char>>::empty());
    }
}

/// The word diff loses nothing and is minimal: its context and removed
/// segments spell out the old line's words, its context and added segments
/// spell out the new line's words, and it keeps as many words in context as
/// the longest common subsequence of the two word sequences.
pub proof fn law_word_diff_sides(old_line: Seq<char>, new_line: Seq<char>)
    ensures
        old_side(word_diff(old_line, new_line)) == words(old_line),
        new_side(word_diff(old_line, new_line)) == words(new_line),
        count_context(word_diff(old_line, new_line)) == lcs(words(old_line), words(new_line), 0, 0),
{
    let a = words(old_line);
    let b = words(new_line);
    lemma_word_walk_sides(a, b, 0, 0, Seq::empty());
    assert(a.skip(0) =~= a);
    assert(b.skip(0) =~= b);
    assert(old_side(Seq::<LineView>::empty()) + a =~= a);
    assert(new_side(Seq::<LineView>::empty()) + b =~= b);
}


// ---------------------------------------------------------------------------
// Function-aware hunk context.
// ---------------------------------------------------------------------------

/// `l` begins with `p`.
pub open spec fn sw(l: Seq<char>, p: Seq<char>) -> bool {
    p.is_prefix_of(l)
}

/// `l` ends with `p`.
pub open spec fn ew(l: Seq<char>, p: Seq<char>) -> bool {
    p.is_suffix_of(l)
}

/// A Rust item definition.
pub open spec fn rust_definition(l: Seq<char>) -> bool {
    sw(l, "fn "@) || sw(l, "pub fn "@) || sw(l, "pub(crate) fn "@) || sw(l, "pub(super) fn "@)
        || sw(l, "async fn "@) || sw(l, "pub async fn "@) || sw(l, "struct "@) || sw(l, "enum "@)
        || sw(l, "impl "@) || sw(l, "trait "@) || sw(l, "type "@) || sw(l, "const "@)
        || sw(l, "pub const "@) || sw(l, "static "@) || sw(l, "pub static "@) || sw(l, "mod "@)
        || sw(l, "pub mod "@) || sw(l, "pub struct "@) || sw(l, "pub enum "@) || sw(l, "pub trait "@)
        || sw(l, "impl<"@)
}

/// A Python, JavaScript/TypeScript or Go definition.
pub open spec fn script_definition(l: Seq<char>) -> bool {
    sw(l, "def "@) || sw(l, "class "@) || sw(l, "async def "@) || sw(l, "function "@)
        || sw(l, "export function "@) || sw(l, "export default function "@)
        || sw(l, "export class "@) || sw(l, "func "@) || sw(l, "func ("@)
}

/// The C/C++ heuristic: a line with parentheses that is not a control
/// statement and ends in `{`, `) {` or `);`.
pub open spec fn c_definition(l: Seq<char>) -> bool {
    l.contains('(') && !sw(l, "if "@) && !sw(l, "for "@) && !sw(l, "while "@) && !sw(l, "match "@)
        && !sw(l, "switch "@) && !sw(l, "return "@) && !sw(l, "else"@) && (ew(l, "{"@) || ew(l, ") {"@)
        || ew(l, ");"@))
}

/// A (trimmed) line that looks like a function/struct/class/impl
/// definition; empty lines and comments are not.
pub open spec fn is_definition(l: Seq<char>) -> bool {
    if l.len() == 0 || sw(l, "//"@) || sw(l, "#"@) || sw(l, "/*"@) {
        false
    } else {
        rust_definition(l) || script_definition(l) || c_definition(l)
    }
}

/// Check if a line looks like a function/struct/class/impl definition.
fn is_definition_line(line: &Vec<char>) -> (r: bool)
    ensures
        r == is_definition(line@),
{
    if line.len() == 0 || starts_with_str(line, "//") || starts_with_str(line, "#") || starts_with_str(line, "/*") {
        return false;
    }
    // Rust
    if starts_with_str(line, "fn ") || starts_with_str(line, "pub fn ") || starts_with_str(line, "pub(crate) fn ")
        || starts_with_str(line, "pub(super) fn ") || starts_with_str(line, "async fn ")
        || starts_with_str(line, "pub async fn ") || starts_with_str(line, "struct ")
        || starts_with_str(line, "enum ") || starts_with_str(line, "impl ") || starts_with_str(line, "trait ")
        || starts_with_str(line, "type ") || starts_with_str(line, "const ")
        || starts_with_str(line, "pub const ") || starts_with_str(line, "static ")
        || starts_with_str(line, "pub static ") || starts_with_str(line, "mod ")
        || starts_with_str(line, "pub mod ") || starts_with_str(line, "pub struct ")
        || starts_with_str(line, "pub enum ") || starts_with_str(line, "pub trait ")
        || starts_with_str(line, "impl<") {
        return true;
    }
    // Python
    if starts_with_str(line, "def ") || starts_with_str(line, "class ") || starts_with_str(line, "async def ") {
        return true;
    }
    // JavaScript/TypeScript
    if starts_with_str(line, "function ") || starts_with_str(line, "export function ")
        || starts_with_str(line, "export default function ") || starts_with_str(line, "class ")
        || starts_with_str(line, "export class ") {
        return true;
    }
    // Go
    if starts_with_str(line, "func ") || starts_with_str(line, "func (") {
        return true;
    }
    // C/C++ heuristic: line with parens ending in `{`
    contains_char(line, '(') && !starts_with_str(line, "if ") && !starts_with_str(line, "for ")
        && !starts_with_str(line, "while ") && !starts_with_str(line, "match ")
        && !starts_with_str(line, "switch ") && !starts_with_str(line, "return ")
        && !starts_with_str(line, "else") && (ends_with_str(line, "{") || ends_with_str(line, ") {")
        || ends_with_str(line, ");"))
}

/// The number of leading characters of `t` whose UTF-8 encoding fits in
/// `limit` bytes.
pub open spec fn fit(t: Seq<char>, limit: int) -> int
    decreases t.len(),
{
    if t.len() == 0 || byte_len(t) <= limit {
        t.len() as int
    } else {
        fit(t.drop_last(), limit)
    }
}

/// Cutting the first 57 bytes of `t` lands on a character boundary, or `t`
/// is short enough not to be cut.
pub open spec fn display_ok(t: Seq<char>) -> bool {
    byte_len(t) <= 60 || byte_len(t.take(fit(t, 57))) == 57
}

/// A definition line as shown in a hunk header: lines over 60 bytes are cut
/// to their first 57 bytes followed by `...`.
pub open spec fn display(t: Seq<char>) -> Seq<char> {
    if byte_len(t) > 60 {
        t.take(fit(t, 57)) + "..."@
    } else {
        t
    }
}

/// Scanning down from line `k - 1` to line `lo`, the first line whose
/// trimmed text is a definition.
pub open spec fn find_definition(lines: Seq<Seq<char>>, lo: int, k: int) -> Option<int>
    decreases k - lo,
{
    if k > lo {
        if 0 <= k - 1 < lines.len() && is_definition(trim(lines[k - 1])) {
            Some(k - 1)
        } else {
            find_definition(lines, lo, k - 1)
        }
    } else {
        None
    }
}

/// The containing definition of line index `start`: the nearest definition
/// among the 100 lines before it, trimmed and shortened for display.
pub open spec fn context_function(lines: Seq<Seq<char>>, start: int) -> Option<Seq<char>> {
    match find_definition(lines, sat_sub(start, 100), start) {
        Some(i) => Some(display(trim(lines[i]))),
        None => None,
    }
}

/// Showing the containing definition of line index `start` does not cut a
/// character in two.
pub open spec fn context_displayable(lines: Seq<Seq<char>>, start: int) -> bool {
    match find_definition(lines, sat_sub(start, 100), start) {
        Some(i) => display_ok(trim(lines[i])),
        None => true,
    }
}

proof fn lemma_fit_at(t: Seq<char>, limit: int, k: int)
    requires
        0 <= k <= t.len(),
        byte_len(t.take(k)) <= limit,
        forall|j: int| k < j <= t.len() ==> byte_len(#[trigger] t.take(j)) > limit,
    ensures
        fit(t, limit) == k,
    decreases t.len(),
{
    assert(t.take(t.len() as int) =~= t);
    if t.len() == 0 || byte_len(t) <= limit {
        if k < t.len() {
            assert(byte_len(t.take(t.len() as int)) > limit);
        }
    } else {
        let u = t.drop_last();
        assert forall|j: int| k < j <= u.len() implies byte_len(#[trigger] u.take(j)) > limit by {
            assert(u.take(j) =~= t.take(j));
        }
        assert(u.take(k) =~= t.take(k));
        lemma_fit_at(u, limit, k);
    }
}

/// The display form of a trimmed definition line.
fn display_text(t: &Vec<char>) -> (r: Vec<char>)
    requires
        display_ok(t@),
    ensures
        r@ == display(t@),
{
    let mut k: usize = 0;
    let mut bytes: usize = 0;
    let mut cut: usize = 0;
    assert(t@.take(0) =~= Seq::<char>::empty());
    while k < t.len() && bytes <= 60
        invariant
            k <= t@.len(),
            cut <= k,
            bytes as int == byte_len(t@.take(k as int)),
            bytes <= 64,
            byte_len(t@.take(cut as int)) <= 57,
            forall|j: int| cut < j <= k ==> byte_len(#[trigger] t@.take(j)) > 57,
        decreases t@.len() - k,
    {
        let cl = char_len_exec(t[k]);
        proof {
            assert(t@.take(k + 1).drop_last() =~= t@.take(k as int));
        }
        bytes = bytes + cl;
        k += 1;
        if bytes <= 57 {
            cut = k;
        }
    }
    if bytes > 60 {
        proof {
            lemma_byte_len_monotone(t@, k as int, t@.len() as int);
            assert(t@.take(t@.len() as int) =~= t@);
            assert forall|j: int| cut < j <= t@.len() implies byte_len(#[trigger] t@.take(j)) > 57 by {
                if j > k {
                    lemma_byte_len_monotone(t@, k as int, j);
                }
            }
            lemma_fit_at(t@, 57, cut as int);
        }
        let mut r: Vec<char> = Vec::new();
        let mut j: usize = 0;
        while j < cut
            invariant
                cut <= t@.len(),
                j <= cut,
                r@ == t@.take(j as int),
            decreases cut - j,
        {
            r.push(t[j]);
            j += 1;
            assert(r@ =~= t@.take(j as int));
        }
        push_str(&mut r, "...");
        r
    } else {
        proof {
            assert(t@.take(t@.len() as int) =~= t@);
        }
        let mut r: Vec<char> = Vec::new();
        push_chars(&mut r, t);
        assert(r@ =~= t@);
        r
    }
}

/// Whether showing a trimmed definition line cuts no character in two.
fn display_fits(t: &Vec<char>) -> (r: bool)
    ensures
        r == display_ok(t@),
{
    let mut k: usize = 0;
    let mut bytes: usize = 0;
    let mut cut: usize = 0;
    let mut cut_bytes: usize = 0;
    assert(t@.take(0) =~= Seq::<char>::empty());
    while k < t.len() && bytes <= 60
        invariant
            k <= t@.len(),
            cut <= k,
            bytes as int == byte_len(t@.take(k as int)),
            bytes <= 64,
            cut_bytes as int == byte_len(t@.take(cut as int)),
            cut_bytes <= 57,
            forall|j: int| cut < j <= k ==> byte_len(#[trigger] t@.take(j)) > 57,
        decreases t@.len() - k,
    {
        let cl = char_len_exec(t[k]);
        proof {
            assert(t@.take(k + 1).drop_last() =~= t@.take(k as int));
        }
        bytes = bytes + cl;
        k += 1;
        if bytes <= 57 {
            cut = k;
            cut_bytes = bytes;
        }
    }
    proof {
        assert(t@.take(t@.len() as int) =~= t@);
    }
    if bytes > 60 {
        proof {
            lemma_byte_len_monotone(t@, k as int, t@.len() as int);
            assert forall|j: int| cut < j <= t@.len() implies byte_len(#[trigger] t@.take(j)) > 57 by {
                if j > k {
                    lemma_byte_len_monotone(t@, k as int, j);
                }
            }
            lemma_fit_at(t@, 57, cut as int);
        }
        cut_bytes == 57
    } else {
        true
    }
}

/// Whether the containing definition of line index `start` can be shown
/// without cutting a character in two (see [`context_displayable`]).
pub fn context_is_displayable(lines: &[String], start: usize) -> (r: bool)
    ensures
        r == context_displayable(text_lines(lines@), start as int),
{
    let ghost ls = text_lines(lines@);
    let search_start = start.saturating_sub(100);
    let mut i = start;
    while i > search_start
        invariant
            ls == text_lines(lines@),
            search_start <= i <= start,
            search_start as int == sat_sub(start as int, 100),
            find_definition(ls, search_start as int, start as int) == find_definition(ls, search_start as int, i as int),
        decreases i,
    {
        i -= 1;
        if i < lines.len() {
            let t = trim_chars(&chars_of(lines[i].as_str()));
            proof {
                assert(ls[i as int] == lines@[i as int]@);
            }
            if is_definition_line(&t) {
                proof {
                    assert(find_definition(ls, search_start as int, i + 1) == Some(i as int));
                }
                return display_fits(&t);
            }
        }
    }
    true
}

/// Detect the containing function/struct/class name by scanning backward
/// from a given position in the file lines.
pub fn detect_context_function(lines: &[String], start_idx: usize) -> (r: Option<String>)
    requires
        context_displayable(text_lines(lines@), start_idx as int),
    ensures
        r matches Some(s) ==> context_function(text_lines(lines@), start_idx as int) == Some(s@),
        r is None ==> context_function(text_lines(lines@), start_idx as int) is None,
{
    let ghost ls = text_lines(lines@);
    let search_start = start_idx.saturating_sub(100);
    let mut i = start_idx;
    while i > search_start
        invariant
            ls == text_lines(lines@),
            search_start <= i <= start_idx,
            search_start as int == sat_sub(start_idx as int, 100),
            context_displayable(ls, start_idx as int),
            find_definition(ls, search_start as int, start_idx as int) == find_definition(ls, search_start as int, i as int),
        decreases i,
    {
        i -= 1;
        if i < lines.len() {
            let t = trim_chars(&chars_of(lines[i].as_str()));
            proof {
                assert(ls[i as int] == lines@[i as int]@);
            }
            if is_definition_line(&t) {
                proof {
                    assert(find_definition(ls, search_start as int, i + 1) == Some(i as int));
                }
                let d = display_text(&t);
                return Some(string_from_chars(&d));
            }
        }
    }
    None
}


// ---------------------------------------------------------------------------
// Unified output.
// ---------------------------------------------------------------------------

/// A hunk range in GNU style: `0` for an empty range, the start alone for a
/// single line, `start,count` otherwise.
pub open spec fn range_text(start: int, count: int) -> Seq<char> {
    if count == 0 {
        "0"@
    } else if count == 1 {
        decimal(start as nat)
    } else {
        decimal(start as nat) + ","@ + decimal(count as nat)
    }
}

/// The hunk header `@@ -a,b +c,d @@`, followed by ` ctx` when a context
/// string is given.
pub open spec fn header_text(h: HunkView, ctx: Option<Seq<char>>) -> Seq<char> {
    let base = "@@ -"@ + range_text(h.old_start, h.old_count) + " +"@ + range_text(h.new_start, h.new_count) + " @@"@;
    match ctx {
        Some(c) => base + " "@ + c,
        None => base,
    }
}

/// One diff line with its marker (` `, `-` or `+`) and a newline.
pub open spec fn line_text(l: LineView) -> Seq<char> {
    match l {
        LineView::Context(s) => seq![' '] + s + seq!['\n'],
        LineView::Removed(s) => seq!['-'] + s + seq!['\n'],
        LineView::Added(s) => seq!['+'] + s + seq!['\n'],
    }
}

/// All lines of a hunk with their markers.
pub open spec fn plain_lines_text(lines: Seq<LineView>) -> Seq<char>
    decreases lines.len(),
{
    if lines.len() == 0 {
        Seq::empty()
    } else {
        plain_lines_text(lines.drop_last()) + line_text(lines.last())
    }
}

/// A whole hunk: its header and its lines.
pub open spec fn hunk_text(h: HunkView) -> Seq<char> {
    header_text(h, None) + seq!['\n'] + plain_lines_text(h.lines)
}

/// Whether line `i` is a removed line directly followed by an added line.
pub open spec fn pairs_with_next(lines: Seq<LineView>, i: int) -> bool {
    0 <= i && i + 1 < lines.len() && lines[i] is Removed && lines[i + 1] is Added
}

/// How many lines the word-diff rendering consumes at index `i`.
pub open spec fn word_step(lines: Seq<LineView>, i: int) -> int {
    if pairs_with_next(lines, i) { 2 } else { 1 }
}

/// The word-diff rendering of the line(s) at index `i`: a removed line
/// directly followed by an added line is shown as `-[-old-]`, `+{new}` and a
/// context line holding their word diff; any other line as usual.
pub open spec fn word_piece(lines: Seq<LineView>, i: int) -> Seq<char> {
    if pairs_with_next(lines, i) {
        let o = lines[i]->Removed_0;
        let nw = lines[i + 1]->Added_0;
        "-[-"@ + o + "-]\n"@ + "+{"@ + nw + "}\n"@ + seq![' '] + word_text(word_diff(o, nw)) + seq!['\n']
    } else {
        line_text(lines[i])
    }
}

/// The lines of a hunk from index `i` on with word-level markers.
pub open spec fn word_lines_text(lines: Seq<LineView>, i: int) -> Seq<char>
    decreases lines.len() - i,
{
    if 0 <= i < lines.len() {
        word_piece(lines, i) + word_lines_text(lines, i + word_step(lines, i))
    } else {
        Seq::empty()
    }
}

/// A hunk formatted with the options: the header carries the containing
/// definition when context lines are shown, and the lines carry word-level
/// markers when word diff is on.
pub open spec fn hunk_text_with(h: HunkView, opts: DiffOptions, old_lines: Seq<Seq<char>>) -> Seq<char> {
    let ctx = if opts.context > 0 { context_function(old_lines, sat_sub(h.old_start, 1)) } else { None };
    header_text(h, ctx) + seq!['\n'] + if opts.word_diff { word_lines_text(h.lines, 0) } else { plain_lines_text(h.lines) }
}

fn push_range(out: &mut Vec<char>, start: usize, count: usize)
    ensures
        final(out)@ == old(out)@ + range_text(start as int, count as int),
{
    if count == 0 {
        push_str(out, "0");
    } else if count == 1 {
        push_decimal(out, start);
    } else {
        push_decimal(out, start);
        push_str(out, ",");
        push_decimal(out, count);
    }
    assert(final(out)@ =~= old(out)@ + range_text(start as int, count as int));
}

fn push_header(out: &mut Vec<char>, h: &Hunk, context: Option<&str>)
    ensures
        final(out)@ == old(out)@ + header_text(h@, match context { Some(c) => Some(c@), None => None }),
{
    let ghost start = out@;
    push_str(out, "@@ -");
    push_range(out, h.old_start, h.old_count);
    push_str(out, " +");
    push_range(out, h.new_start, h.new_count);
    push_str(out, " @@");
    match context {
        Some(c) => {
            push_str(out, " ");
            push_str(out, c);
        },
        None => {},
    }
    assert(out@ =~= start + header_text(h@, match context { Some(c) => Some(c@), None => None }));
}

/// Format a hunk header in GNU style: `@@ -a,b +c,d @@`.
///
/// When a count is 1, GNU omits it. When a count is 0, the start is 0
/// and the count is omitted. An optional context string (e.g. function
/// name) is appended after `@@`.
pub fn format_hunk_header(h: &Hunk, context: Option<&str>) -> (s: String)
    ensures
        s@ == header_text(h@, match context { Some(c) => Some(c@), None => None }),
{
    let mut out: Vec<char> = Vec::new();
    push_header(&mut out, h, context);
    assert(out@ =~= header_text(h@, match context { Some(c) => Some(c@), None => None }));
    string_from_chars(&out)
}

fn push_line(out: &mut Vec<char>, l: &DiffLine)
    ensures
        final(out)@ == old(out)@ + line_text(l@),
{
    let ghost start = out@;
    match l {
        DiffLine::Context(s) => {
            out.push(' ');
            push_str(out, s.as_str());
        },
        DiffLine::Removed(s) => {
            out.push('-');
            push_str(out, s.as_str());
        },
        DiffLine::Added(s) => {
            out.push('+');
            push_str(out, s.as_str());
        },
    }
    out.push('\n');
    assert(out@ =~= start + line_text(l@));
}

/// Format hunk lines with plain markers (no word diff).
fn format_hunk_lines_plain(h: &Hunk, out: &mut Vec<char>)
    ensures
        final(out)@ == old(out)@ + plain_lines_text(h@.lines),
{
    let ghost start = out@;
    let ghost lv = h@.lines;
    let mut k: usize = 0;
    while k < h.lines.len()
        invariant
            lv == lines_view(h.lines@),
            k <= h.lines@.len(),
            out@ == start + plain_lines_text(lv.take(k as int)),
        decreases h.lines@.len() - k,
    {
        proof {
            assert(lv.take(k + 1).drop_last() =~= lv.take(k as int));
        }
        push_line(out, &h.lines[k]);
        k += 1;
        assert(out@ =~= start + plain_lines_text(lv.take(k as int)));
    }
    assert(lv.take(h.lines@.len() as int) =~= lv);
}

/// Renders the line(s) at index `i` with word-level markers and returns how
/// many lines were consumed.
fn push_word_piece(h: &Hunk, i: usize, out: &mut Vec<char>) -> (step: usize)
    requires
        i < h.lines.len(),
    ensures
        final(out)@ == old(out)@ + word_piece(h@.lines, i as int),
        step as int == word_step(h@.lines, i as int),
{
    let ghost start = out@;
    let ghost lv = h@.lines;
    let len = h.lines.len();
    match &h.lines[i] {
        DiffLine::Removed(old_line) => {
            let pair = if i < len - 1 {
                match &h.lines[i + 1] {
                    DiffLine::Added(new_line) => Some(new_line),
                    _ => None,
                }
            } else {
                None
            };
            match pair {
                Some(new_line) => {
                    let segments = compute_word_diff(old_line.as_str(), new_line.as_str());
                    let formatted = format_word_diff(&segments);
                    push_str(out, "-[-");
                    push_str(out, old_line.as_str());
                    push_str(out, "-]\n");
                    push_str(out, "+{");
                    push_str(out, new_line.as_str());
                    push_str(out, "}\n");
                    out.push(' ');
                    push_str(out, formatted.as_str());
                    out.push('\n');
                    assert(pairs_with_next(lv, i as int));
                    assert(out@ =~= start + word_piece(lv, i as int));
                    2
                },
                None => {
                    push_line(out, &h.lines[i]);
                    1
                },
            }
        },
        _ => {
            push_line(out, &h.lines[i]);
            1
        },
    }
}

/// Format hunk lines with word-level diff markers for changed line pairs.
fn format_hunk_lines_word_diff(h: &Hunk, out: &mut Vec<char>)
    ensures
        final(out)@ == old(out)@ + word_lines_text(h@.lines, 0),
{
    let ghost start = out@;
    let ghost lv = h@.lines;
    let mut i: usize = 0;
    while i < h.lines.len()
        invariant
            lv == lines_view(h.lines@),
            i <= h.lines@.len(),
            start + word_lines_text(lv, 0) == out@ + word_lines_text(lv, i as int),
        decreases h.lines@.len() - i,
    {
        let ghost before = out@;
        let ghost i0 = i as int;
        let step = push_word_piece(h, i, out);
        i += step;
        assert(before + word_lines_text(lv, i0) =~= out@ + word_lines_text(lv, i as int));
    }
    assert(word_lines_text(lv, i as int) =~= Seq::<char>::empty());
    assert(out@ =~= start + word_lines_text(lv, 0));
}

/// Format an entire hunk with options (word-diff, context headers).
pub fn format_hunk_with_options(h: &Hunk, opts: &DiffOptions, old_lines: &[String]) -> (s: String)
    requires
        opts.context > 0 ==> context_displayable(text_lines(old_lines@), sat_sub(h.old_start as int, 1)),
    ensures
        s@ == hunk_text_with(h@, *opts, text_lines(old_lines@)),
{
    let mut out: Vec<char> = Vec::new();
    let ctx = if opts.context > 0 {
        detect_context_function(old_lines, h.old_start.saturating_sub(1))
    } else {
        None
    };
    match &ctx {
        Some(c) => push_header(&mut out, h, Some(c.as_str())),
        None => push_header(&mut out, h, None),
    }
    out.push('\n');
    if opts.word_diff {
        format_hunk_lines_word_diff(h, &mut out);
    } else {
        format_hunk_lines_plain(h, &mut out);
    }
    assert(out@ =~= hunk_text_with(h@, *opts, text_lines(old_lines@)));
    string_from_chars(&out)
}

/// Format an entire hunk (header plus lines) as a string.
pub fn format_hunk(h: &Hunk) -> (s: String)
    ensures
        s@ == hunk_text(h@),
{
    let mut out: Vec<char> = Vec::new();
    push_header(&mut out, h, None);
    out.push('\n');
    format_hunk_lines_plain(h, &mut out);
    assert(out@ =~= hunk_text(h@));
    string_from_chars(&out)
}


// ---------------------------------------------------------------------------
// JSON output.
// ---------------------------------------------------------------------------

/// A control character (Unicode general category `Cc`).
pub open spec fn is_control(c: char) -> bool {
    (c as u32) <= 0x1F || (0x7F <= (c as u32) && (c as u32) <= 0x9F)
}

/// The lowercase hexadecimal digit for `d < 16`.
pub open spec fn hex_char(d: int) -> char {
    if d < 10 { (d + 48) as char } else { (d + 87) as char }
}

/// Four lowercase hexadecimal digits of `v < 0x10000`.
pub open spec fn hex4(v: int) -> Seq<char> {
    seq![hex_char((v / 4096) % 16), hex_char((v / 256) % 16), hex_char((v / 16) % 16), hex_char(v % 16)]
}

/// The JSON escape of one character.
pub open spec fn escape_char(c: char) -> Seq<char> {
    if c == '"' {
        "\\\""@
    } else if c == '\\' {
        "\\\\"@
    } else if c == '\n' {
        "\\n"@
    } else if c == '\r' {
        "\\r"@
    } else if c == '\t' {
        "\\t"@
    } else if is_control(c) {
        "\\u"@ + hex4(c as u32 as int)
    } else {
        seq![c]
    }
}

/// `s` escaped for a JSON string literal.
pub open spec fn json_escaped(s: Seq<char>) -> Seq<char>
    decreases s.len(),
{
    if s.len() == 0 {
        Seq::empty()
    } else {
        json_escaped(s.drop_last()) + escape_char(s.last())
    }
}

fn hex_digit(d: u32) -> (c: char)
    requires
        d < 16,
    ensures
        c == hex_char(d as int),
{
    let b: u8 = d as u8;
    if b < 10 {
        (b + 48) as char
    } else {
        (b + 87) as char
    }
}

fn push_escaped_char(out: &mut Vec<char>, ch: char)
    ensures
        final(out)@ == old(out)@ + escape_char(ch),
{
    let ghost start = out@;
    if ch == '"' {
        push_str(out, "\\\"");
    } else if ch == '\\' {
        push_str(out, "\\\\");
    } else if ch == '\n' {
        push_str(out, "\\n");
    } else if ch == '\r' {
        push_str(out, "\\r");
    } else if ch == '\t' {
        push_str(out, "\\t");
    } else {
        let v = ch as u32;
        if v <= 0x1F || (0x7F <= v && v <= 0x9F) {
            push_str(out, "\\u");
            out.push(hex_digit((v / 4096) % 16));
            out.push(hex_digit((v / 256) % 16));
            out.push(hex_digit((v / 16) % 16));
            out.push(hex_digit(v % 16));
        } else {
            out.push(ch);
        }
    }
    assert(out@ =~= start + escape_char(ch));
}

fn push_escaped(out: &mut Vec<char>, s: &str)
    ensures
        final(out)@ == old(out)@ + json_escaped(s@),
{
    let ghost start = out@;
    let chars = chars_of(s);
    let mut k: usize = 0;
    while k < chars.len()
        invariant
            chars@ == s@,
            k <= chars@.len(),
            out@ == start + json_escaped(chars@.take(k as int)),
        decreases chars@.len() - k,
    {
        proof {
            assert(chars@.take(k + 1).drop_last() =~= chars@.take(k as int));
        }
        push_escaped_char(out, chars[k]);
        k += 1;
        assert(out@ =~= start + json_escaped(chars@.take(k as int)));
    }
    assert(chars@.take(chars@.len() as int) =~= chars@);
}

/// Escape a string for JSON output.
pub fn json_escape(s: &str) -> (r: String)
    ensures
        r@ == json_escaped(s@),
{
    let mut out: Vec<char> = Vec::new();
    push_escaped(&mut out, s);
    assert(out@ =~= json_escaped(s@));
    string_from_chars(&out)
}


/// `","` unless `k` is the last of `n` items.
pub open spec fn sep(k: int, n: int) -> Seq<char> {
    if k + 1 < n { ","@ } else { ""@ }
}

/// Writes one hunk line as a JSON object after `o`, with its old line
/// number `oi + 1` and/or new line number `ni + 1`, followed by `comma`.
pub open spec fn json_line(o: Seq<char>, l: LineView, oi: int, ni: int, comma: Seq<char>) -> Seq<char> {
    match l {
        LineView::Context(s) => o + "        { \"type\": \"context\", \"content\": \""@ + json_escaped(s)
            + "\", \"old_line\": "@ + decimal((oi + 1) as nat) + ", \"new_line\": "@ + decimal((ni + 1) as nat)
            + " }"@ + comma + "\n"@,
        LineView::Removed(s) => o + "        { \"type\": \"removed\", \"content\": \""@ + json_escaped(s)
            + "\", \"old_line\": "@ + decimal((oi + 1) as nat) + " }"@ + comma + "\n"@,
        LineView::Added(s) => o + "        { \"type\": \"added\", \"content\": \""@ + json_escaped(s)
            + "\", \"new_line\": "@ + decimal((ni + 1) as nat) + " }"@ + comma + "\n"@,
    }
}

/// Writes the JSON objects of a hunk's lines from index `k` on after `o`,
/// numbering old lines from `oi` and new lines from `ni`.
pub open spec fn json_lines(o: Seq<char>, lines: Seq<LineView>, k: int, oi: int, ni: int) -> Seq<char>
    decreases lines.len() - k,
{
    if 0 <= k < lines.len() {
        let l = lines[k];
        json_lines(json_line(o, l, oi, ni, sep(k, lines.len() as int)), lines, k + 1,
            if l is Added { oi } else { oi + 1 }, if l is Removed { ni } else { ni + 1 })
    } else {
        o
    }
}

/// Writes the `"context"` member of a hunk's JSON object after `o`, when
/// the hunk has a containing definition.
pub open spec fn json_context(o: Seq<char>, h: HunkView, old_lines: Seq<Seq<char>>) -> Seq<char> {
    match context_function(old_lines, sat_sub(h.old_start, 1)) {
        Some(c) => o + "      \"context\": \""@ + json_escaped(c) + "\",\n"@,
        None => o,
    }
}

/// Writes one hunk as a JSON object after `o`; `comma` follows its closing
/// brace.
pub open spec fn json_hunk(o: Seq<char>, h: HunkView, comma: Seq<char>, old_lines: Seq<Seq<char>>) -> Seq<char> {
    let o1 = o + "    {\n"@ + "      \"old_start\": "@ + decimal(h.old_start as nat) + ",\n"@
        + "      \"old_count\": "@ + decimal(h.old_count as nat) + ",\n"@ + "      \"new_start\": "@
        + decimal(h.new_start as nat) + ",\n"@ + "      \"new_count\": "@ + decimal(h.new_count as nat)
        + ",\n"@;
    let o2 = json_context(o1, h, old_lines) + "      \"lines\": [\n"@;
    let o3 = json_lines(o2, h.lines, 0, sat_sub(h.old_start, 1), sat_sub(h.new_start, 1));
    o3 + "      ]\n"@ + "    }"@ + comma + "\n"@
}

/// Writes the JSON objects of the hunks from index `k` on after `o`.
pub open spec fn json_hunks(o: Seq<char>, hs: Seq<HunkView>, k: int, old_lines: Seq<Seq<char>>) -> Seq<char>
    decreases hs.len() - k,
{
    if 0 <= k < hs.len() {
        json_hunks(json_hunk(o, hs[k], sep(k, hs.len() as int), old_lines), hs, k + 1, old_lines)
    } else {
        o
    }
}

/// Number of lines of the given kind.
pub open spec fn count_kind(lines: Seq<LineView>, added: bool) -> int
    decreases lines.len(),
{
    if lines.len() == 0 {
        0
    } else {
        count_kind(lines.drop_last(), added) + if (added && lines.last() is Added) || (!added
            && lines.last() is Removed) {
            1int
        } else {
            0int
        }
    }
}

/// Number of added (or removed) lines over all hunks.
pub open spec fn total_kind(hs: Seq<HunkView>, added: bool) -> int
    decreases hs.len(),
{
    if hs.len() == 0 {
        0
    } else {
        total_kind(hs.drop_last(), added) + count_kind(hs.last().lines, added)
    }
}

pub open spec fn bool_text(b: bool) -> Seq<char> {
    if b { "true"@ } else { "false"@ }
}

/// The JSON report: file metadata, per-hunk details with line numbers, and
/// a summary with insertion and deletion counts.
pub open spec fn json_text(
    old_file: Seq<char>,
    new_file: Seq<char>,
    identical: bool,
    hs: Seq<HunkView>,
    old_lines: Seq<Seq<char>>,
) -> Seq<char> {
    let head = "{\n"@ + "  \"meta\": {\n"@ + "    \"old_file\": \""@ + json_escaped(old_file) + "\",\n"@
        + "    \"new_file\": \""@ + json_escaped(new_file) + "\",\n"@ + "    \"identical\": "@
        + bool_text(identical) + "\n"@ + "  },\n"@ + "  \"hunks\": [\n"@;
    json_hunks(head, hs, 0, old_lines) + "  ],\n"@ + "  \"summary\": {\n"@ + "    \"files_changed\": "@
        + (if identical { "0"@ } else { "1"@ }) + ",\n"@ + "    \"insertions\": "@
        + decimal(total_kind(hs, true) as nat) + ",\n"@ + "    \"deletions\": "@
        + decimal(total_kind(hs, false) as nat) + "\n"@ + "  }\n"@ + "}\n"@
}

/// The line numbers printed for a hunk's lines fit in `usize`.
pub open spec fn json_numbers_fit(h: HunkView) -> bool {
    sat_sub(h.old_start, 1) + count_old(h.lines) <= usize::MAX && sat_sub(h.new_start, 1) + count_new(h.lines)
        <= usize::MAX
}

fn push_json_line(out: &mut Vec<char>, l: &DiffLine, oi: usize, ni: usize, last: bool)
    requires
        !(l@ is Added) ==> oi < usize::MAX,
        !(l@ is Removed) ==> ni < usize::MAX,
    ensures
        final(out)@ == json_line(old(out)@, l@, oi as int, ni as int, if last { ""@ } else { ","@ }),
{
    let comma = if last { "" } else { "," };
    match l {
        DiffLine::Context(s) => {
            push_str(out, "        { \"type\": \"context\", \"content\": \"");
            push_escaped(out, s.as_str());
            push_str(out, "\", \"old_line\": ");
            push_decimal(out, oi + 1);
            push_str(out, ", \"new_line\": ");
            push_decimal(out, ni + 1);
            push_str(out, " }");
        },
        DiffLine::Removed(s) => {
            push_str(out, "        { \"type\": \"removed\", \"content\": \"");
            push_escaped(out, s.as_str());
            push_str(out, "\", \"old_line\": ");
            push_decimal(out, oi + 1);
            push_str(out, " }");
        },
        DiffLine::Added(s) => {
            push_str(out, "        { \"type\": \"added\", \"content\": \"");
            push_escaped(out, s.as_str());
            push_str(out, "\", \"new_line\": ");
            push_decimal(out, ni + 1);
            push_str(out, " }");
        },
    }
    push_str(out, comma);
    push_str(out, "\n");
}

fn push_json_hunk(out: &mut Vec<char>, h: &Hunk, last: bool, old_lines: &[String])
    requires
        context_displayable(text_lines(old_lines@), sat_sub(h.old_start as int, 1)),
        json_numbers_fit(h@),
    ensures
        final(out)@ == json_hunk(old(out)@, h@, if last { ""@ } else { ","@ }, text_lines(old_lines@)),
{
    let ghost lv = h@.lines;
    push_str(out, "    {\n");
    push_str(out, "      \"old_start\": ");
    push_decimal(out, h.old_start);
    push_str(out, ",\n");
    push_str(out, "      \"old_count\": ");
    push_decimal(out, h.old_count);
    push_str(out, ",\n");
    push_str(out, "      \"new_start\": ");
    push_decimal(out, h.new_start);
    push_str(out, ",\n");
    push_str(out, "      \"new_count\": ");
    push_decimal(out, h.new_count);
    push_str(out, ",\n");
    let ctx = detect_context_function(old_lines, h.old_start.saturating_sub(1));
    match &ctx {
        Some(c) => {
            push_str(out, "      \"context\": \"");
            push_escaped(out, c.as_str());
            push_str(out, "\",\n");
        },
        None => {},
    }
    push_str(out, "      \"lines\": [\n");
    let base_o = h.old_start.saturating_sub(1);
    let base_n = h.new_start.saturating_sub(1);
    let ghost target = json_lines(out@, lv, 0, base_o as int, base_n as int);
    let mut oi = base_o;
    let mut ni = base_n;
    let mut k: usize = 0;
    assert(lv.take(0) =~= Seq::<LineView>::empty());
    while k < h.lines.len()
        invariant
            lv == lines_view(h.lines@),
            k <= h.lines@.len(),
            base_o + count_old(lv) <= usize::MAX,
            base_n + count_new(lv) <= usize::MAX,
            oi == base_o + count_old(lv.take(k as int)),
            ni == base_n + count_new(lv.take(k as int)),
            target == json_lines(out@, lv, k as int, oi as int, ni as int),
        decreases h.lines@.len() - k,
    {
        proof {
            lemma_count_prefix(lv, k + 1);
            assert(lv.take(k + 1).drop_last() =~= lv.take(k as int));
        }
        let last_line = k + 1 >= h.lines.len();
        push_json_line(out, &h.lines[k], oi, ni, last_line);
        match &h.lines[k] {
            DiffLine::Context(_) => {
                oi += 1;
                ni += 1;
            },
            DiffLine::Removed(_) => {
                oi += 1;
            },
            DiffLine::Added(_) => {
                ni += 1;
            },
        }
        k += 1;
    }
    push_str(out, "      ]\n");
    push_str(out, "    }");
    let comma = if last { "" } else { "," };
    push_str(out, comma);
    push_str(out, "\n");
}


proof fn lemma_count_kind_prefix(lines: Seq<LineView>, added: bool, k: int)
    requires
        0 <= k <= lines.len(),
    ensures
        0 <= count_kind(lines.take(k), added) <= count_kind(lines, added),
    decreases lines.len() - k,
{
    if k < lines.len() {
        lemma_count_kind_prefix(lines, added, k + 1);
        assert(lines.take(k + 1).drop_last() =~= lines.take(k));
    } else {
        assert(lines.take(k) =~= lines);
    }
    lemma_count_kind_nonneg(lines.take(k), added);
}

proof fn lemma_count_kind_nonneg(lines: Seq<LineView>, added: bool)
    ensures
        0 <= count_kind(lines, added),
    decreases lines.len(),
{
    if lines.len() > 0 {
        lemma_count_kind_nonneg(lines.drop_last(), added);
    }
}

proof fn lemma_total_kind_prefix(hs: Seq<HunkView>, added: bool, k: int)
    requires
        0 <= k <= hs.len(),
    ensures
        0 <= total_kind(hs.take(k), added) <= total_kind(hs, added),
    decreases hs.len() - k,
{
    if k < hs.len() {
        lemma_total_kind_prefix(hs, added, k + 1);
        assert(hs.take(k + 1).drop_last() =~= hs.take(k));
        lemma_count_kind_nonneg(hs.take(k + 1).last().lines, added);
    } else {
        assert(hs.take(k) =~= hs);
    }
    lemma_total_kind_nonneg(hs.take(k), added);
}

proof fn lemma_total_kind_nonneg(hs: Seq<HunkView>, added: bool)
    ensures
        0 <= total_kind(hs, added),
    decreases hs.len(),
{
    if hs.len() > 0 {
        lemma_total_kind_nonneg(hs.drop_last(), added);
        lemma_count_kind_nonneg(hs.last().lines, added);
    }
}

/// Counts the added (or removed) lines over all hunks.
fn count_all(hunks: &[Hunk], added: bool) -> (c: usize)
    requires
        total_kind(hunks_view(hunks@), added) <= usize::MAX,
    ensures
        c as int == total_kind(hunks_view(hunks@), added),
{
    let ghost hs = hunks_view(hunks@);
    let mut c: usize = 0;
    let mut k: usize = 0;
    while k < hunks.len()
        invariant
            hs == hunks_view(hunks@),
            k <= hunks@.len(),
            total_kind(hs, added) <= usize::MAX,
            c as int == total_kind(hs.take(k as int), added),
        decreases hunks@.len() - k,
    {
        let ghost lv = hunks@[k as int]@.lines;
        proof {
            lemma_total_kind_prefix(hs, added, k + 1);
            assert(hs.take(k + 1).drop_last() =~= hs.take(k as int));
            assert(hs.take(k + 1).last() == hunks@[k as int]@);
            lemma_count_kind_prefix(lv, added, lv.len() as int);
        }
        let h = &hunks[k];
        let mut j: usize = 0;
        let c0 = c;
        while j < h.lines.len()
            invariant
                lv == lines_view(h.lines@),
                j <= h.lines@.len(),
                c0 + count_kind(lv, added) <= usize::MAX,
                c as int == c0 + count_kind(lv.take(j as int), added),
            decreases h.lines@.len() - j,
        {
            proof {
                lemma_count_kind_prefix(lv, added, j + 1);
                assert(lv.take(j + 1).drop_last() =~= lv.take(j as int));
            }
            let hit = match &h.lines[j] {
                DiffLine::Added(_) => added,
                DiffLine::Removed(_) => !added,
                DiffLine::Context(_) => false,
            };
            if hit {
                c += 1;
            }
            j += 1;
        }
        assert(lv.take(lv.len() as int) =~= lv);
        k += 1;
    }
    assert(hs.take(hs.len() as int) =~= hs);
    c
}

/// Format a list of hunks as a JSON string.
pub fn format_json(old_file: &str, new_file: &str, identical: bool, hunks: &[Hunk], old_lines: &[String]) -> (s: String)
    requires
        forall|k: int| 0 <= k < hunks@.len() ==> context_displayable(text_lines(old_lines@),
            sat_sub(#[trigger] hunks@[k].old_start as int, 1)),
        forall|k: int| 0 <= k < hunks@.len() ==> json_numbers_fit(#[trigger] hunks@[k]@),
        total_kind(hunks_view(hunks@), true) <= usize::MAX,
        total_kind(hunks_view(hunks@), false) <= usize::MAX,
    ensures
        s@ == json_text(old_file@, new_file@, identical, hunks_view(hunks@), text_lines(old_lines@)),
{
    let ghost hs = hunks_view(hunks@);
    let ghost ol = text_lines(old_lines@);
    let mut out: Vec<char> = Vec::new();
    push_str(&mut out, "{\n");
    push_str(&mut out, "  \"meta\": {\n");
    push_str(&mut out, "    \"old_file\": \"");
    push_escaped(&mut out, old_file);
    push_str(&mut out, "\",\n");
    push_str(&mut out, "    \"new_file\": \"");
    push_escaped(&mut out, new_file);
    push_str(&mut out, "\",\n");
    push_str(&mut out, "    \"identical\": ");
    if identical {
        push_str(&mut out, "true");
    } else {
        push_str(&mut out, "false");
    }
    push_str(&mut out, "\n");
    push_str(&mut out, "  },\n");
    push_str(&mut out, "  \"hunks\": [\n");
    assert(out@ == Seq::<char>::empty() + "{\n"@ + "  \"meta\": {\n"@ + "    \"old_file\": \""@ + json_escaped(old_file@) + "\",\n"@
        + "    \"new_file\": \""@ + json_escaped(new_file@) + "\",\n"@ + "    \"identical\": "@
        + bool_text(identical) + "\n"@ + "  },\n"@ + "  \"hunks\": [\n"@);
    let ghost target = json_hunks(out@, hs, 0, ol);
    let mut k: usize = 0;
    while k < hunks.len()
        invariant
            hs == hunks_view(hunks@),
            ol == text_lines(old_lines@),
            k <= hunks@.len(),
            forall|t: int| 0 <= t < hunks@.len() ==> context_displayable(ol,
                sat_sub(#[trigger] hunks@[t].old_start as int, 1)),
            forall|t: int| 0 <= t < hunks@.len() ==> json_numbers_fit(#[trigger] hunks@[t]@),
            target == json_hunks(out@, hs, k as int, ol),
        decreases hunks@.len() - k,
    {
        let last = k + 1 >= hunks.len();
        proof {
            assert(hs[k as int] == hunks@[k as int]@);
        }
        push_json_hunk(&mut out, &hunks[k], last, old_lines);
        k += 1;
    }
    let insertions = count_all(hunks, true);
    let deletions = count_all(hunks, false);
    push_str(&mut out, "  ],\n");
    push_str(&mut out, "  \"summary\": {\n");
    push_str(&mut out, "    \"files_changed\": ");
    if identical {
        push_str(&mut out, "0");
    } else {
        push_str(&mut out, "1");
    }
    push_str(&mut out, ",\n");
    push_str(&mut out, "    \"insertions\": ");
    push_decimal(&mut out, insertions);
    push_str(&mut out, ",\n");
    push_str(&mut out, "    \"deletions\": ");
    push_decimal(&mut out, deletions);
    push_str(&mut out, "\n");
    push_str(&mut out, "  }\n");
    push_str(&mut out, "}\n");
    string_from_chars(&out)
}


/// Collapse all whitespace runs to a single space, for whitespace-ignoring
/// comparison.
pub fn collapse_whitespace(s: &str) -> (r: String)
    ensures
        r@ == collapse(s@),
{
    let chars = chars_of(s);
    let out = collapse_chars(&chars);
    string_from_chars(&out)
}


proof fn lemma_escape_char_no_control(c: char)
    ensures
        forall|i: int| 0 <= i < escape_char(c).len() ==> !is_control(#[trigger] escape_char(c)[i]),
{
    reveal_strlit("\\\"");
    reveal_strlit("\\\\");
    reveal_strlit("\\n");
    reveal_strlit("\\r");
    reveal_strlit("\\t");
    reveal_strlit("\\u");
    if is_control(c) && c != '"' && c != '\\' && c != '\n' && c != '\r' && c != '\t' {
        let v = c as u32 as int;
        let e = "\\u"@ + hex4(v);
        assert forall|i: int| 0 <= i < e.len() implies !is_control(#[trigger] e[i]) by {
            if i >= 2 {
                let d = if i == 2 { (v / 4096) % 16 } else if i == 3 { (v / 256) % 16 } else if i == 4 { (v / 16) % 16 } else { v % 16 };
                assert(e[i] == hex_char(d));
            }
        }
    }
}

/// JSON escaping leaves no control character in its output.
pub proof fn law_json_escape_no_control(s: Seq<char>)
    ensures
        forall|i: int| 0 <= i < json_escaped(s).len() ==> !is_control(#[trigger] json_escaped(s)[i]),
    decreases s.len(),
{
    if s.len() > 0 {
        law_json_escape_no_control(s.drop_last());
        lemma_escape_char_no_control(s.last());
        let a = json_escaped(s.drop_last());
        let b = escape_char(s.last());
        assert forall|i: int| 0 <= i < json_escaped(s).len() implies !is_control(#[trigger] json_escaped(s)[i]) by {
            if i < a.len() {
                assert(json_escaped(s)[i] == a[i]);
            } else {
                assert(json_escaped(s)[i] == b[i - a.len()]);
            }
        }
    }
}

/// The value of a lowercase hexadecimal digit.
pub open spec fn hex_value(c: char) -> int {
    if c as u32 <= 57 { c as u32 as int - 48 } else { c as u32 as int - 87 }
}

/// The code points that a JSON string body (without quotes) stands for:
/// `\n`, `\r`, `\t` and `\uXXXX` decoded, any other escaped character
/// standing for itself.
pub open spec fn json_unescaped(t: Seq<char>) -> Seq<int>
    decreases t.len(),
{
    if t.len() == 0 {
        Seq::empty()
    } else if t[0] == '\\' && t.len() >= 2 {
        if t[1] == 'u' && t.len() >= 6 {
            seq![4096 * hex_value(t[2]) + 256 * hex_value(t[3]) + 16 * hex_value(t[4]) + hex_value(t[5])]
                + json_unescaped(t.skip(6))
        } else {
            let code = if t[1] == 'n' {
                10
            } else if t[1] == 'r' {
                13
            } else if t[1] == 't' {
                9
            } else {
                t[1] as u32 as int
            };
            seq![code] + json_unescaped(t.skip(2))
        }
    } else {
        seq![t[0] as u32 as int] + json_unescaped(t.skip(1))
    }
}

/// The code points of a text.
pub open spec fn code_points(s: Seq<char>) -> Seq<int> {
    s.map_values(|c: char| c as u32 as int)
}

proof fn lemma_hex_digit(d: int)
    requires
        0 <= d < 16,
    ensures
        hex_value(hex_char(d)) == d,
{
}

proof fn lemma_unescape_char(c: char, rest: Seq<char>)
    ensures
        json_unescaped(escape_char(c) + rest) == seq![c as u32 as int] + json_unescaped(rest),
{
    reveal_strlit("\\\"");
    reveal_strlit("\\\\");
    reveal_strlit("\\n");
    reveal_strlit("\\r");
    reveal_strlit("\\t");
    reveal_strlit("\\u");
    let t = escape_char(c) + rest;
    if c == '"' || c == '\\' || c == '\n' || c == '\r' || c == '\t' {
        assert(t.skip(2) =~= rest);
    } else if is_control(c) {
        let v = c as u32;
        assert(t.skip(6) =~= rest);
        let d3 = ((v / 4096) % 16) as int;
        let d2 = ((v / 256) % 16) as int;
        let d1 = ((v / 16) % 16) as int;
        let d0 = (v % 16) as int;
        lemma_hex_digit(d3);
        lemma_hex_digit(d2);
        lemma_hex_digit(d1);
        lemma_hex_digit(d0);
        assert(t[2] == hex_char(d3));
        assert(t[3] == hex_char(d2));
        assert(t[4] == hex_char(d1));
        assert(t[5] == hex_char(d0));
        assert(v <= 0x9F);
        assert(((v / 4096) % 16) * 4096 + ((v / 256) % 16) * 256 + ((v / 16) % 16) * 16 + v % 16 == v) by (bit_vector)
            requires
                v <= 0x9F,
        ;
    } else {
        assert(t.skip(1) =~= rest);
    }
}

proof fn lemma_escaped_front(s: Seq<char>)
    requires
        s.len() > 0,
    ensures
        json_escaped(s) == escape_char(s[0]) + json_escaped(s.skip(1)),
    decreases s.len(),
{
    if s.len() == 1 {
        assert(s.drop_last() =~= Seq::<char>::empty());
        assert(s.skip(1) =~= Seq::<char>::empty());
        assert(escape_char(s[0]) + Seq::<char>::empty() =~= escape_char(s[0]));
        assert(Seq::<char>::empty() + escape_char(s[0]) =~= escape_char(s[0]));
    } else {
        lemma_escaped_front(s.drop_last());
        assert(s.drop_last().skip(1) =~= s.skip(1).drop_last());
        assert(s.skip(1).last() == s.last());
        assert(s.drop_last()[0] == s[0]);
        assert(escape_char(s[0]) + json_escaped(s.skip(1).drop_last()) + escape_char(s.last())
            =~= escape_char(s[0]) + (json_escaped(s.skip(1).drop_last()) + escape_char(s.last())));
    }
}

/// JSON escaping loses nothing: decoding the escaped text gives back the
/// code points of the text.
pub proof fn law_json_escape_round_trip(s: Seq<char>)
    ensures
        json_unescaped(json_escaped(s)) == code_points(s),
    decreases s.len(),
{
    if s.len() == 0 {
        assert(code_points(s) =~= Seq::<int>::empty());
    } else {
        lemma_escaped_front(s);
        law_json_escape_round_trip(s.skip(1));
        lemma_unescape_char(s[0], json_escaped(s.skip(1)));
        assert(code_points(s) =~= seq![s[0] as u32 as int] + code_points(s.skip(1)));
    }
}

/// A line that starts with a prefix starts with the prefix's first character.
proof fn lemma_sw_first(l: Seq<char>, p: Seq<char>)
    ensures
        sw(l, p) && p.len() > 0 ==> l.len() > 0 && l[0] == p[0],
{
    if sw(l, p) && p.len() > 0 {
        assert(l.subrange(0, p.len() as int)[0] == l[0]);
    }
}

/// Which trimmed lines count as definitions for hunk headers: every line
/// that opens with one of the Rust, Python, JavaScript/TypeScript or Go
/// definition keywords; every line with parentheses that ends in `{`,
/// `) {` or `);` and is no control statement or comment; and no other.
/// Empty lines and comments never count.
pub proof fn law_definition_lines(l: Seq<char>)
    ensures
        sw(l, "fn "@) ==> is_definition(l),
        sw(l, "pub fn "@) ==> is_definition(l),
        sw(l, "pub(crate) fn "@) ==> is_definition(l),
        sw(l, "pub(super) fn "@) ==> is_definition(l),
        sw(l, "async fn "@) ==> is_definition(l),
        sw(l, "pub async fn "@) ==> is_definition(l),
        sw(l, "struct "@) ==> is_definition(l),
        sw(l, "enum "@) ==> is_definition(l),
        sw(l, "impl "@) ==> is_definition(l),
        sw(l, "trait "@) ==> is_definition(l),
        sw(l, "type "@) ==> is_definition(l),
        sw(l, "const "@) ==> is_definition(l),
        sw(l, "pub const "@) ==> is_definition(l),
        sw(l, "static "@) ==> is_definition(l),
        sw(l, "pub static "@) ==> is_definition(l),
        sw(l, "mod "@) ==> is_definition(l),
        sw(l, "pub mod "@) ==> is_definition(l),
        sw(l, "pub struct "@) ==> is_definition(l),
        sw(l, "pub enum "@) ==> is_definition(l),
        sw(l, "pub trait "@) ==> is_definition(l),
        sw(l, "impl<"@) ==> is_definition(l),
        sw(l, "def "@) ==> is_definition(l),
        sw(l, "class "@) ==> is_definition(l),
        sw(l, "async def "@) ==> is_definition(l),
        sw(l, "function "@) ==> is_definition(l),
        sw(l, "export function "@) ==> is_definition(l),
        sw(l, "export default function "@) ==> is_definition(l),
        sw(l, "export class "@) ==> is_definition(l),
        sw(l, "func "@) ==> is_definition(l),
        sw(l, "func ("@) ==> is_definition(l),
        l.contains('(') && (ew(l, "{"@) || ew(l, ");"@)) && !sw(l, "if "@) && !sw(l, "for "@) && !sw(l, "while "@)
            && !sw(l, "match "@) && !sw(l, "switch "@) && !sw(l, "return "@) && !sw(l, "else"@) && !sw(l, "//"@)
            && !sw(l, "#"@) && !sw(l, "/*"@) ==> is_definition(l),
        l.len() == 0 || sw(l, "//"@) || sw(l, "#"@) || sw(l, "/*"@) ==> !is_definition(l),
        is_definition(l) ==> sw(l, "fn "@) || sw(l, "pub fn "@) || sw(l, "pub(crate) fn "@) || sw(l, "pub(super) fn "@)
            || sw(l, "async fn "@) || sw(l, "pub async fn "@) || sw(l, "struct "@) || sw(l, "enum "@)
            || sw(l, "impl "@) || sw(l, "trait "@) || sw(l, "type "@) || sw(l, "const "@) || sw(l, "pub const "@)
            || sw(l, "static "@) || sw(l, "pub static "@) || sw(l, "mod "@) || sw(l, "pub mod "@)
            || sw(l, "pub struct "@) || sw(l, "pub enum "@) || sw(l, "pub trait "@) || sw(l, "impl<"@)
            || sw(l, "def "@) || sw(l, "class "@) || sw(l, "async def "@) || sw(l, "function "@)
            || sw(l, "export function "@) || sw(l, "export default function "@) || sw(l, "export class "@)
            || sw(l, "func "@) || sw(l, "func ("@)
            || (l.contains('(') && (ew(l, "{"@) || ew(l, ");"@))),
{
    reveal_strlit("fn ");
    reveal_strlit("pub fn ");
    reveal_strlit("pub(crate) fn ");
    reveal_strlit("pub(super) fn ");
    reveal_strlit("async fn ");
    reveal_strlit("pub async fn ");
    reveal_strlit("struct ");
    reveal_strlit("enum ");
    reveal_strlit("impl ");
    reveal_strlit("trait ");
    reveal_strlit("type ");
    reveal_strlit("const ");
    reveal_strlit("pub const ");
    reveal_strlit("static ");
    reveal_strlit("pub static ");
    reveal_strlit("mod ");
    reveal_strlit("pub mod ");
    reveal_strlit("pub struct ");
    reveal_strlit("pub enum ");
    reveal_strlit("pub trait ");
    reveal_strlit("impl<");
    reveal_strlit("def ");
    reveal_strlit("class ");
    reveal_strlit("async def ");
    reveal_strlit("function ");
    reveal_strlit("export function ");
    reveal_strlit("export default function ");
    reveal_strlit("export class ");
    reveal_strlit("func ");
    reveal_strlit("func (");
    reveal_strlit("//");
    reveal_strlit("#");
    reveal_strlit("/*");
    lemma_sw_first(l, "fn "@);
    lemma_sw_first(l, "pub fn "@);
    lemma_sw_first(l, "pub(crate) fn "@);
    lemma_sw_first(l, "pub(super) fn "@);
    lemma_sw_first(l, "async fn "@);
    lemma_sw_first(l, "pub async fn "@);
    lemma_sw_first(l, "struct "@);
    lemma_sw_first(l, "enum "@);
    lemma_sw_first(l, "impl "@);
    lemma_sw_first(l, "trait "@);
    lemma_sw_first(l, "type "@);
    lemma_sw_first(l, "const "@);
    lemma_sw_first(l, "pub const "@);
    lemma_sw_first(l, "static "@);
    lemma_sw_first(l, "pub static "@);
    lemma_sw_first(l, "mod "@);
    lemma_sw_first(l, "pub mod "@);
    lemma_sw_first(l, "pub struct "@);
    lemma_sw_first(l, "pub enum "@);
    lemma_sw_first(l, "pub trait "@);
    lemma_sw_first(l, "impl<"@);
    lemma_sw_first(l, "def "@);
    lemma_sw_first(l, "class "@);
    lemma_sw_first(l, "async def "@);
    lemma_sw_first(l, "function "@);
    lemma_sw_first(l, "export function "@);
    lemma_sw_first(l, "export default function "@);
    lemma_sw_first(l, "export class "@);
    lemma_sw_first(l, "func "@);
    lemma_sw_first(l, "func ("@);
    lemma_sw_first(l, "//"@);
    lemma_sw_first(l, "#"@);
    lemma_sw_first(l, "/*"@);
    reveal_strlit("{");
    reveal_strlit(");");
    reveal_strlit(") {");
    if ew(l, ") {"@) {
        assert(l[l.len() - 1] == "{"@[0]) by {
            assert(l.subrange(l.len() - 3, l.len() as int)[2] == l[l.len() - 1]);
        }
        assert(ew(l, "{"@)) by {
            assert(l.subrange(l.len() - 1, l.len() as int) =~= "{"@);
        }
    }
}

/// What comparison looks at under each pair of options: the line itself
/// when nothing is ignored; its whitespace-collapsed form, case kept, under
/// `-w` alone; its ASCII-lowercased form, whitespace kept, under `-i`
/// alone; and both under both. So under `-w` alone two lines match exactly
/// when their collapsed forms are equal, and under `-i` alone exactly when
/// they are equal up to ASCII case.
pub proof fn law_line_key(l: Seq<char>, a: Seq<char>, b: Seq<char>, context: usize, word_diff: bool)
    ensures
        line_key(l, false, false) == l,
        line_key(l, false, true) == collapse(l),
        line_key(l, true, false) == lower_all(l),
        line_key(l, true, true) == lower_all(collapse(l)),
        lines_match(a, b, DiffOptions { context, ignore_case: false, ignore_all_space: false, word_diff }) <==> a == b,
        lines_match(a, b, DiffOptions { context, ignore_case: false, ignore_all_space: true, word_diff }) <==> collapse(a)
            == collapse(b),
        lines_match(a, b, DiffOptions { context, ignore_case: true, ignore_all_space: false, word_diff }) <==> lower_all(a)
            == lower_all(b),
{
}

/// The JSON report opens with the file names (escaped) and whether the
/// files are identical, and closes with a summary whose `insertions` is the
/// number of added lines over all hunks and whose `deletions` is the number
/// of removed lines.
pub proof fn law_json_frame(
    old_file: Seq<char>,
    new_file: Seq<char>,
    identical: bool,
    hs: Seq<HunkView>,
    old_lines: Seq<Seq<char>>,
)
    ensures
        ("{\n"@ + "  \"meta\": {\n"@ + "    \"old_file\": \""@ + json_escaped(old_file) + "\",\n"@
            + "    \"new_file\": \""@ + json_escaped(new_file) + "\",\n"@ + "    \"identical\": "@
            + (if identical { "true"@ } else { "false"@ }) + "\n"@).is_prefix_of(
            json_text(old_file, new_file, identical, hs, old_lines)),
        ("  \"summary\": {\n"@ + "    \"files_changed\": "@ + (if identical { "0"@ } else { "1"@ }) + ",\n"@
            + "    \"insertions\": "@ + decimal(total_kind(hs, true) as nat) + ",\n"@ + "    \"deletions\": "@
            + decimal(total_kind(hs, false) as nat) + "\n"@ + "  }\n"@ + "}\n"@).is_suffix_of(
            json_text(old_file, new_file, identical, hs, old_lines)),
{
    let head = "{\n"@ + "  \"meta\": {\n"@ + "    \"old_file\": \""@ + json_escaped(old_file) + "\",\n"@
        + "    \"new_file\": \""@ + json_escaped(new_file) + "\",\n"@ + "    \"identical\": "@
        + bool_text(identical) + "\n"@;
    let h2 = head + "  },\n"@ + "  \"hunks\": [\n"@;
    let body = json_hunks(h2, hs, 0, old_lines);
    let tail = "  \"summary\": {\n"@ + "    \"files_changed\": "@ + (if identical { "0"@ } else { "1"@ }) + ",\n"@
        + "    \"insertions\": "@ + decimal(total_kind(hs, true) as nat) + ",\n"@ + "    \"deletions\": "@
        + decimal(total_kind(hs, false) as nat) + "\n"@ + "  }\n"@ + "}\n"@;
    let t = json_text(old_file, new_file, identical, hs, old_lines);
    lemma_json_hunks_prefix(h2, hs, 0, old_lines);
    assert(t =~= (body + "  ],\n"@) + tail);
    assert(t.subrange(t.len() - tail.len(), t.len() as int) =~= tail);
    assert(bool_text(identical) == if identical { "true"@ } else { "false"@ });
    lemma_extends(head, "  },\n"@ + "  \"hunks\": [\n"@);
    assert(h2 =~= head + ("  },\n"@ + "  \"hunks\": [\n"@));
    lemma_extends(body, "  ],\n"@ + tail);
    assert(t =~= body + ("  ],\n"@ + tail));
    lemma_prefix_trans(head, h2, body);
    lemma_prefix_trans(head, body, t);
}

/// The writer-style JSON hunks text extends the text it starts from.
proof fn lemma_json_hunks_prefix(o: Seq<char>, hs: Seq<HunkView>, k: int, old_lines: Seq<Seq<char>>)
    ensures
        o.is_prefix_of(json_hunks(o, hs, k, old_lines)),
    decreases hs.len() - k,
{
    if 0 <= k < hs.len() {
        let o2 = json_hunk(o, hs[k], sep(k, hs.len() as int), old_lines);
        lemma_json_hunk_prefix(o, hs[k], sep(k, hs.len() as int), old_lines);
        lemma_json_hunks_prefix(o2, hs, k + 1, old_lines);
        lemma_prefix_trans(o, o2, json_hunks(o2, hs, k + 1, old_lines));
    } else {
        assert(o.subrange(0, o.len() as int) =~= o);
    }
}

/// Appending to a text keeps it as a prefix.
proof fn lemma_extends(o: Seq<char>, x: Seq<char>)
    ensures
        o.is_prefix_of(o + x),
{
    assert((o + x).subrange(0, o.len() as int) =~= o);
}

proof fn lemma_prefix_trans(a: Seq<char>, b: Seq<char>, c: Seq<char>)
    requires
        a.is_prefix_of(b),
        b.is_prefix_of(c),
    ensures
        a.is_prefix_of(c),
{
    assert(c.subrange(0, a.len() as int) =~= c.subrange(0, b.len() as int).subrange(0, a.len() as int));
}

proof fn lemma_json_lines_prefix(o: Seq<char>, lines: Seq<LineView>, k: int, oi: int, ni: int)
    ensures
        o.is_prefix_of(json_lines(o, lines, k, oi, ni)),
    decreases lines.len() - k,
{
    if 0 <= k < lines.len() {
        let l = lines[k];
        let o2 = json_line(o, l, oi, ni, sep(k, lines.len() as int));
        match l {
            LineView::Context(t) => {
                lemma_extends(o, "        { \"type\": \"context\", \"content\": \""@ + json_escaped(t)
                    + "\", \"old_line\": "@ + decimal((oi + 1) as nat) + ", \"new_line\": "@ + decimal((ni + 1) as nat)
                    + " }"@ + sep(k, lines.len() as int) + "\n"@);
                assert(o2 =~= o + ("        { \"type\": \"context\", \"content\": \""@ + json_escaped(t)
                    + "\", \"old_line\": "@ + decimal((oi + 1) as nat) + ", \"new_line\": "@ + decimal((ni + 1) as nat)
                    + " }"@ + sep(k, lines.len() as int) + "\n"@));
            },
            LineView::Removed(t) => {
                lemma_extends(o, "        { \"type\": \"removed\", \"content\": \""@ + json_escaped(t)
                    + "\", \"old_line\": "@ + decimal((oi + 1) as nat) + " }"@ + sep(k, lines.len() as int) + "\n"@);
                assert(o2 =~= o + ("        { \"type\": \"removed\", \"content\": \""@ + json_escaped(t)
                    + "\", \"old_line\": "@ + decimal((oi + 1) as nat) + " }"@ + sep(k, lines.len() as int) + "\n"@));
            },
            LineView::Added(t) => {
                lemma_extends(o, "        { \"type\": \"added\", \"content\": \""@ + json_escaped(t)
                    + "\", \"new_line\": "@ + decimal((ni + 1) as nat) + " }"@ + sep(k, lines.len() as int) + "\n"@);
                assert(o2 =~= o + ("        { \"type\": \"added\", \"content\": \""@ + json_escaped(t)
                    + "\", \"new_line\": "@ + decimal((ni + 1) as nat) + " }"@ + sep(k, lines.len() as int) + "\n"@));
            },
        }
        lemma_json_lines_prefix(o2, lines, k + 1, if l is Added { oi } else { oi + 1 }, if l is Removed { ni } else { ni + 1 });
        lemma_prefix_trans(o, o2, json_lines(o, lines, k, oi, ni));
    } else {
        lemma_extends(o, Seq::empty());
        assert(o + Seq::<char>::empty() =~= o);
    }
}

proof fn lemma_json_hunk_prefix(o: Seq<char>, h: HunkView, comma: Seq<char>, old_lines: Seq<Seq<char>>)
    ensures
        o.is_prefix_of(json_hunk(o, h, comma, old_lines)),
{
    let x = "    {\n"@ + "      \"old_start\": "@ + decimal(h.old_start as nat) + ",\n"@
        + "      \"old_count\": "@ + decimal(h.old_count as nat) + ",\n"@ + "      \"new_start\": "@
        + decimal(h.new_start as nat) + ",\n"@ + "      \"new_count\": "@ + decimal(h.new_count as nat)
        + ",\n"@;
    let o1 = o + "    {\n"@ + "      \"old_start\": "@ + decimal(h.old_start as nat) + ",\n"@
        + "      \"old_count\": "@ + decimal(h.old_count as nat) + ",\n"@ + "      \"new_start\": "@
        + decimal(h.new_start as nat) + ",\n"@ + "      \"new_count\": "@ + decimal(h.new_count as nat)
        + ",\n"@;
    assert(o1 =~= o + x);
    lemma_extends(o, x);
    let c1 = json_context(o1, h, old_lines);
    match context_function(old_lines, sat_sub(h.old_start, 1)) {
        Some(c) => {
            lemma_extends(o1, "      \"context\": \""@ + json_escaped(c) + "\",\n"@);
            assert(c1 =~= o1 + ("      \"context\": \""@ + json_escaped(c) + "\",\n"@));
        },
        None => {
            lemma_extends(o1, Seq::empty());
            assert(o1 + Seq::<char>::empty() =~= o1);
        },
    }
    let o2 = c1 + "      \"lines\": [\n"@;
    lemma_extends(c1, "      \"lines\": [\n"@);
    let o3 = json_lines(o2, h.lines, 0, sat_sub(h.old_start, 1), sat_sub(h.new_start, 1));
    lemma_json_lines_prefix(o2, h.lines, 0, sat_sub(h.old_start, 1), sat_sub(h.new_start, 1));
    let r = json_hunk(o, h, comma, old_lines);
    lemma_extends(o3, "      ]\n"@ + "    }"@ + comma + "\n"@);
    assert(r =~= o3 + ("      ]\n"@ + "    }"@ + comma + "\n"@));
    lemma_prefix_trans(o, o1, c1);
    lemma_prefix_trans(o, c1, o2);
    lemma_prefix_trans(o, o2, o3);
    lemma_prefix_trans(o, o3, r);
}

} // verus!

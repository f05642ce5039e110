//! The edit script between two files: every line of both files in order,
//! each marked as kept (context), removed or added, along a longest common
//! subsequence of their comparison keys. Within each run of changes all
//! removed lines come before the added ones, as `diff -u` prints them.
use vstd::prelude::*;
use crate::diff::{DiffLine, LineView, DiffOptions, lines_view, text_lines, keys_of, line_key, old_side, new_side, count_context, count_kind, count_old, count_new};
use crate::lcs::{lcs, seqs_of, lcs_table, lcs_table_ok};
use crate::diff::line_keys;
use crate::text::chars_equal;

verus! {

/// The script of the greedy walk from `(i, j)` over the lines of `old` and
/// `new`, appended to `out`: equal keys are kept as context; otherwise the
/// old line is removed where that keeps the longest common subsequence, else
/// the new line is added. Added lines wait in `pend` until the next context
/// line or the end, so that each run of changes lists its removals first.
pub open spec fn script_walk(
    old: Seq<Seq<char>>,
    new: Seq<Seq<char>>,
    opts: DiffOptions,
    i: int,
    j: int,
    out: Seq<LineView>,
    pend: Seq<LineView>,
) -> Seq<LineView>
    decreases old.len() - i + new.len() - j,
{
    let ok = keys_of(old, opts);
    let nk = keys_of(new, opts);
    if i < 0 || j < 0 || i > old.len() || j > new.len() {
        out + pend
    } else if i < old.len() && j < new.len() {
        if ok[i] == nk[j] {
            script_walk(old, new, opts, i + 1, j + 1, out + pend + seq![LineView::Context(old[i])], Seq::empty())
        } else if lcs(ok, nk, i + 1, j) >= lcs(ok, nk, i, j + 1) {
            script_walk(old, new, opts, i + 1, j, out.push(LineView::Removed(old[i])), pend)
        } else {
            script_walk(old, new, opts, i, j + 1, out, pend.push(LineView::Added(new[j])))
        }
    } else if i < old.len() {
        script_walk(old, new, opts, i + 1, j, out.push(LineView::Removed(old[i])), pend)
    } else if j < new.len() {
        script_walk(old, new, opts, i, j + 1, out, pend.push(LineView::Added(new[j])))
    } else {
        out + pend
    }
}

/// The edit script of `old` into `new` under the options.
pub open spec fn diff_script(old: Seq<Seq<char>>, new: Seq<Seq<char>>, opts: DiffOptions) -> Seq<LineView> {
    script_walk(old, new, opts, 0, 0, Seq::empty(), Seq::empty())
}

/// No added line is directly followed by a removed one.
pub open spec fn removals_first(s: Seq<LineView>) -> bool {
    forall|k: int| 0 <= k < s.len() - 1 ==> !(#[trigger] s[k] is Added && s[k + 1] is Removed)
}

/// Every line is an added one.
pub open spec fn all_added(s: Seq<LineView>) -> bool {
    forall|k: int| 0 <= k < s.len() ==> #[trigger] s[k] is Added
}

/// Every line is a context line.
pub open spec fn all_context(s: Seq<LineView>) -> bool {
    forall|k: int| 0 <= k < s.len() ==> #[trigger] s[k] is Context
}

/// The old side, new side and counts of a concatenation are those of its
/// parts.
pub proof fn lemma_concat(a: Seq<LineView>, b: Seq<LineView>)
    ensures
        old_side(a + b) == old_side(a) + old_side(b),
        new_side(a + b) == new_side(a) + new_side(b),
        count_context(a + b) == count_context(a) + count_context(b),
        count_kind(a + b, true) == count_kind(a, true) + count_kind(b, true),
        count_kind(a + b, false) == count_kind(a, false) + count_kind(b, false),
        count_old(a + b) == count_old(a) + count_old(b),
        count_new(a + b) == count_new(a) + count_new(b),
    decreases b.len(),
{
    if b.len() == 0 {
        assert(a + b =~= a);
        assert(old_side(a) + old_side(b) =~= old_side(a));
        assert(new_side(a) + new_side(b) =~= new_side(a));
    } else {
        lemma_concat(a, b.drop_last());
        assert((a + b).drop_last() =~= a + b.drop_last());
        assert((a + b).last() == b.last());
        assert(old_side(a) + old_side(b.drop_last()).push(b.last()->Context_0) =~= (old_side(a) + old_side(b.drop_last())).push(b.last()->Context_0));
        assert(old_side(a) + old_side(b.drop_last()).push(b.last()->Removed_0) =~= (old_side(a) + old_side(b.drop_last())).push(b.last()->Removed_0));
        assert(new_side(a) + new_side(b.drop_last()).push(b.last()->Context_0) =~= (new_side(a) + new_side(b.drop_last())).push(b.last()->Context_0));
        assert(new_side(a) + new_side(b.drop_last()).push(b.last()->Added_0) =~= (new_side(a) + new_side(b.drop_last())).push(b.last()->Added_0));
    }
}

/// The sides' lengths in terms of the line counts.
pub proof fn lemma_side_lengths(s: Seq<LineView>)
    ensures
        old_side(s).len() == count_old(s),
        new_side(s).len() == count_new(s),
        count_old(s) == count_context(s) + count_kind(s, false),
        count_new(s) == count_context(s) + count_kind(s, true),
        count_context(s) >= 0,
        count_kind(s, false) >= 0,
        count_kind(s, true) >= 0,
    decreases s.len(),
{
    if s.len() > 0 {
        lemma_side_lengths(s.drop_last());
    }
}

/// A script of context lines only reads the same on both sides and holds no
/// change.
pub proof fn lemma_all_context(s: Seq<LineView>)
    requires
        all_context(s),
    ensures
        old_side(s) == new_side(s),
        count_kind(s, true) == 0,
        count_kind(s, false) == 0,
        count_context(s) == s.len(),
    decreases s.len(),
{
    if s.len() > 0 {
        assert(all_context(s.drop_last())) by {
            assert forall|k: int| 0 <= k < s.drop_last().len() implies #[trigger] s.drop_last()[k] is Context by {
                assert(s[k] is Context);
            }
        }
        lemma_all_context(s.drop_last());
        assert(s[s.len() - 1] is Context);
    }
}

/// A script of added lines only has an empty old side.
proof fn lemma_all_added(s: Seq<LineView>)
    requires
        all_added(s),
    ensures
        old_side(s) == Seq::<Seq<char>>::empty(),
        count_context(s) == 0,
    decreases s.len(),
{
    if s.len() > 0 {
        assert(all_added(s.drop_last())) by {
            assert forall|k: int| 0 <= k < s.drop_last().len() implies #[trigger] s.drop_last()[k] is Added by {
                assert(s[k] is Added);
            }
        }
        lemma_all_added(s.drop_last());
        assert(s[s.len() - 1] is Added);
    }
}

/// The comparison keys of a concatenation and of a slice.
pub proof fn lemma_keys_of(a: Seq<Seq<char>>, b: Seq<Seq<char>>, opts: DiffOptions)
    ensures
        keys_of(a + b, opts) == keys_of(a, opts) + keys_of(b, opts),
        keys_of(a, opts).len() == a.len(),
        forall|x: int, y: int| 0 <= x <= y <= a.len() ==> #[trigger] keys_of(a.subrange(x, y), opts) == keys_of(a, opts).subrange(x, y),
        !opts.ignore_case && !opts.ignore_all_space ==> keys_of(a, opts) == a,
{
    assert(keys_of(a + b, opts) =~= keys_of(a, opts) + keys_of(b, opts));
    assert forall|x: int, y: int| 0 <= x <= y <= a.len() implies #[trigger] keys_of(a.subrange(x, y), opts) == keys_of(a, opts).subrange(x, y) by {
        assert(keys_of(a.subrange(x, y), opts) =~= keys_of(a, opts).subrange(x, y));
    }
    if !opts.ignore_case && !opts.ignore_all_space {
        assert(keys_of(a, opts) =~= a);
    }
}

/// A script whose removals come first stays so when the added lines that
/// wait, and then possibly one context line, are appended.
proof fn lemma_flush_keeps_order(out: Seq<LineView>, pend: Seq<LineView>, tail: Seq<LineView>)
    requires
        removals_first(out),
        out.len() == 0 || !(out.last() is Added),
        all_added(pend),
        tail.len() == 0 || (tail.len() == 1 && tail[0] is Context),
    ensures
        removals_first(out + pend + tail),
{
    let s = out + pend + tail;
    assert forall|k: int| 0 <= k < s.len() - 1 implies !(#[trigger] s[k] is Added && s[k + 1] is Removed) by {
        if k + 1 < out.len() {
            assert(s[k] == out[k]);
            assert(s[k + 1] == out[k + 1]);
        } else if k + 1 < out.len() + pend.len() {
            assert(s[k + 1] == pend[k + 1 - out.len()]);
        } else {
            assert(s[k + 1] == tail[k + 1 - out.len() - pend.len()]);
        }
    }
}

/// What a walk from `(i, j)` with `out` and `pend` gives as `r`: the old
/// side is what `out` shows and then the rest of `old`; the new side,
/// compared by keys, is what `out` and `pend` show and then the rest of
/// `new`; the kept lines add up to the longest common subsequence of the
/// rests; removals stay first.
pub open spec fn walk_post(
    old: Seq<Seq<char>>,
    new: Seq<Seq<char>>,
    opts: DiffOptions,
    i: int,
    j: int,
    out: Seq<LineView>,
    pend: Seq<LineView>,
    r: Seq<LineView>,
) -> bool {
    &&& old_side(r) == old_side(out) + old.subrange(i, old.len() as int)
    &&& keys_of(new_side(r), opts) == keys_of(new_side(out) + new_side(pend), opts) + keys_of(new, opts).subrange(j, new.len() as int)
    &&& count_context(r) == count_context(out) + lcs(keys_of(old, opts), keys_of(new, opts), i, j)
    &&& removals_first(r)
}

/// The walk's precondition on what it has gathered.
pub open spec fn walk_pre(out: Seq<LineView>, pend: Seq<LineView>) -> bool {
    &&& all_added(pend)
    &&& removals_first(out)
    &&& out.len() == 0 || !(out.last() is Added)
}

proof fn lemma_single_context(x: Seq<char>)
    ensures
        old_side(seq![LineView::Context(x)]) == seq![x],
        new_side(seq![LineView::Context(x)]) == seq![x],
        count_context(seq![LineView::Context(x)]) == 1,
{
    let c = seq![LineView::Context(x)];
    assert(c.drop_last() =~= Seq::<LineView>::empty());
    assert(c.last() == LineView::Context(x));
    assert(old_side(Seq::<LineView>::empty()) =~= Seq::<Seq<char>>::empty());
    assert(new_side(Seq::<LineView>::empty()) =~= Seq::<Seq<char>>::empty());
    assert(old_side(c) =~= seq![x]);
    assert(new_side(c) =~= seq![x]);
    assert(count_context(Seq::<LineView>::empty()) == 0);
    assert(count_context(c) == count_context(c.drop_last()) + 1);
}

proof fn lemma_step_keep(old: Seq<Seq<char>>, new: Seq<Seq<char>>, opts: DiffOptions, i: int, j: int, out: Seq<LineView>, pend: Seq<LineView>, r: Seq<LineView>)
    requires
        0 <= i < old.len(),
        0 <= j < new.len(),
        keys_of(old, opts)[i] == keys_of(new, opts)[j],
        walk_pre(out, pend),
    ensures
        walk_pre(out + pend + seq![LineView::Context(old[i])], Seq::empty()),
        walk_post(old, new, opts, i + 1, j + 1, out + pend + seq![LineView::Context(old[i])], Seq::empty(), r) ==> walk_post(old, new, opts, i, j, out, pend, r),
{
    let ok = keys_of(old, opts);
    let nk = keys_of(new, opts);
    let c = seq![LineView::Context(old[i])];
    let out2 = out + pend + c;
    lemma_flush_keeps_order(out, pend, c);
    lemma_concat(out, pend);
    lemma_all_added(pend);
    lemma_concat(out + pend, c);
    lemma_single_context(old[i]);
    let ns = new_side(out) + new_side(pend);
    assert(new_side(out2) =~= ns + seq![old[i]]);
    assert(new_side(out2) + new_side(Seq::<LineView>::empty()) =~= new_side(out2));
    lemma_keys_of(ns, seq![old[i]], opts);
    assert(keys_of(seq![old[i]], opts) =~= seq![nk[j]]);
    assert(old_side(out2) =~= old_side(out) + seq![old[i]]);
    assert(nk.subrange(j, new.len() as int) =~= seq![nk[j]] + nk.subrange(j + 1, new.len() as int));
    assert(keys_of(ns, opts) + seq![nk[j]] + nk.subrange(j + 1, new.len() as int)
        =~= keys_of(ns, opts) + nk.subrange(j, new.len() as int));
    assert(old_side(out) + seq![old[i]] + old.subrange(i + 1, old.len() as int) =~= old_side(out) + old.subrange(i, old.len() as int));
    assert(lcs(ok, nk, i, j) == 1 + lcs(ok, nk, i + 1, j + 1));
}

proof fn lemma_step_remove(old: Seq<Seq<char>>, new: Seq<Seq<char>>, opts: DiffOptions, i: int, j: int, out: Seq<LineView>, pend: Seq<LineView>, r: Seq<LineView>)
    requires
        0 <= i < old.len(),
        0 <= j <= new.len(),
        lcs(keys_of(old, opts), keys_of(new, opts), i, j) == lcs(keys_of(old, opts), keys_of(new, opts), i + 1, j),
        walk_pre(out, pend),
    ensures
        walk_pre(out.push(LineView::Removed(old[i])), pend),
        walk_post(old, new, opts, i + 1, j, out.push(LineView::Removed(old[i])), pend, r) ==> walk_post(old, new, opts, i, j, out, pend, r),
{
    let out2 = out.push(LineView::Removed(old[i]));
    assert forall|k: int| 0 <= k < out2.len() - 1 implies !(#[trigger] out2[k] is Added && out2[k + 1] is Removed) by {
        if k + 1 < out.len() {
            assert(out2[k] == out[k]);
            assert(out2[k + 1] == out[k + 1]);
        } else {
            assert(out2[k] == out.last());
        }
    }
    assert(out2.drop_last() =~= out);
    assert(old_side(out) + old.subrange(i, old.len() as int) =~= old_side(out).push(old[i]) + old.subrange(i + 1, old.len() as int));
}

proof fn lemma_step_add(old: Seq<Seq<char>>, new: Seq<Seq<char>>, opts: DiffOptions, i: int, j: int, out: Seq<LineView>, pend: Seq<LineView>, r: Seq<LineView>)
    requires
        0 <= i <= old.len(),
        0 <= j < new.len(),
        lcs(keys_of(old, opts), keys_of(new, opts), i, j) == lcs(keys_of(old, opts), keys_of(new, opts), i, j + 1),
        walk_pre(out, pend),
    ensures
        walk_pre(out, pend.push(LineView::Added(new[j]))),
        walk_post(old, new, opts, i, j + 1, out, pend.push(LineView::Added(new[j])), r) ==> walk_post(old, new, opts, i, j, out, pend, r),
{
    let nk = keys_of(new, opts);
    let pend2 = pend.push(LineView::Added(new[j]));
    assert forall|k: int| 0 <= k < pend2.len() implies #[trigger] pend2[k] is Added by {
        if k < pend.len() {
            assert(pend2[k] == pend[k]);
        }
    }
    lemma_keys_of(new, seq![], opts);
    lemma_concat(out, pend2);
    lemma_concat(out, pend);
    assert(pend2.drop_last() =~= pend);
    assert(new_side(out) + new_side(pend2) =~= (new_side(out) + new_side(pend)).push(new[j]));
    lemma_keys_of(new_side(out) + new_side(pend), seq![new[j]], opts);
    assert((new_side(out) + new_side(pend)).push(new[j]) =~= (new_side(out) + new_side(pend)) + seq![new[j]]);
    assert(keys_of(seq![new[j]], opts) =~= seq![nk[j]]);
    assert(nk.subrange(j, new.len() as int) =~= seq![nk[j]] + nk.subrange(j + 1, new.len() as int));
    assert(keys_of(new_side(out) + new_side(pend), opts) + seq![nk[j]] + nk.subrange(j + 1, new.len() as int)
        =~= keys_of(new_side(out) + new_side(pend), opts) + nk.subrange(j, new.len() as int));
}

proof fn lemma_step_end(old: Seq<Seq<char>>, new: Seq<Seq<char>>, opts: DiffOptions, out: Seq<LineView>, pend: Seq<LineView>)
    requires
        walk_pre(out, pend),
    ensures
        walk_post(old, new, opts, old.len() as int, new.len() as int, out, pend, out + pend),
{
    let nk = keys_of(new, opts);
    lemma_keys_of(new, seq![], opts);
    lemma_concat(out, pend);
    lemma_all_added(pend);
    lemma_flush_keeps_order(out, pend, Seq::empty());
    assert(out + pend + Seq::<LineView>::empty() =~= out + pend);
    assert(old_side(out) + old_side(pend) =~= old_side(out));
    assert(old.subrange(old.len() as int, old.len() as int) =~= Seq::<Seq<char>>::empty());
    assert(nk.subrange(new.len() as int, new.len() as int) =~= Seq::<Seq<char>>::empty());
    assert(keys_of(new_side(out) + new_side(pend), opts) + Seq::<Seq<char>>::empty() =~= keys_of(new_side(out) + new_side(pend), opts));
    assert(old_side(out) + Seq::<Seq<char>>::empty() =~= old_side(out));
}

/// The walk from `(i, j)` meets [`walk_post`].
pub proof fn lemma_script_walk(
    old: Seq<Seq<char>>,
    new: Seq<Seq<char>>,
    opts: DiffOptions,
    i: int,
    j: int,
    out: Seq<LineView>,
    pend: Seq<LineView>,
)
    requires
        0 <= i <= old.len(),
        0 <= j <= new.len(),
        walk_pre(out, pend),
    ensures
        walk_post(old, new, opts, i, j, out, pend, script_walk(old, new, opts, i, j, out, pend)),
    decreases old.len() - i + new.len() - j,
{
    let ok = keys_of(old, opts);
    let nk = keys_of(new, opts);
    let r = script_walk(old, new, opts, i, j, out, pend);
    lemma_keys_of(new, seq![], opts);
    lemma_keys_of(old, seq![], opts);
    if i < old.len() && j < new.len() && ok[i] == nk[j] {
        let out2 = out + pend + seq![LineView::Context(old[i])];
        lemma_step_keep(old, new, opts, i, j, out, pend, script_walk(old, new, opts, i + 1, j + 1, out2, Seq::empty()));
        lemma_script_walk(old, new, opts, i + 1, j + 1, out2, Seq::empty());
    } else if i < old.len() && (j >= new.len() || lcs(ok, nk, i + 1, j) >= lcs(ok, nk, i, j + 1)) {
        let out2 = out.push(LineView::Removed(old[i]));
        lemma_step_remove(old, new, opts, i, j, out, pend, script_walk(old, new, opts, i + 1, j, out2, pend));
        lemma_script_walk(old, new, opts, i + 1, j, out2, pend);
    } else if j < new.len() {
        let pend2 = pend.push(LineView::Added(new[j]));
        lemma_step_add(old, new, opts, i, j, out, pend, script_walk(old, new, opts, i, j + 1, out, pend2));
        lemma_script_walk(old, new, opts, i, j + 1, out, pend2);
    } else {
        lemma_step_end(old, new, opts, out, pend);
    }
}

/// The edit script shows `old` on its old side and, compared by keys,
/// `new` on its new side; it keeps as many lines as the longest common
/// subsequence of the keys, and each run of changes lists its removals first.
pub proof fn law_diff_script(old: Seq<Seq<char>>, new: Seq<Seq<char>>, opts: DiffOptions)
    ensures
        old_side(diff_script(old, new, opts)) == old,
        keys_of(new_side(diff_script(old, new, opts)), opts) == keys_of(new, opts),
        count_context(diff_script(old, new, opts)) == lcs(keys_of(old, opts), keys_of(new, opts), 0, 0),
        count_kind(diff_script(old, new, opts), false) == old.len() - lcs(keys_of(old, opts), keys_of(new, opts), 0, 0),
        count_kind(diff_script(old, new, opts), true) == new.len() - lcs(keys_of(old, opts), keys_of(new, opts), 0, 0),
        removals_first(diff_script(old, new, opts)),
{
    let e = Seq::<LineView>::empty();
    let d = diff_script(old, new, opts);
    lemma_script_walk(old, new, opts, 0, 0, e, e);
    lemma_keys_of(old, seq![], opts);
    assert(old_side(e) + old.subrange(0, old.len() as int) =~= old);
    lemma_keys_of(new, seq![], opts);
    assert(new_side(e) + new_side(e) =~= e.map_values(|l: LineView| Seq::<char>::empty()).take(0));
    assert(keys_of(new_side(e) + new_side(e), opts) =~= Seq::<Seq<char>>::empty());
    assert(keys_of(new, opts).subrange(0, new.len() as int) =~= keys_of(new, opts));
    assert(Seq::<Seq<char>>::empty() + keys_of(new, opts) =~= keys_of(new, opts));
    lemma_side_lengths(d);
    lemma_keys_of(new_side(d), seq![], opts);
}

/// The views of a concatenation of diff lines.
proof fn lemma_lines_view_concat(a: Seq<DiffLine>, b: Seq<DiffLine>)
    ensures
        lines_view(a + b) == lines_view(a) + lines_view(b),
        lines_view(Seq::<DiffLine>::empty()) == Seq::<LineView>::empty(),
{
    assert(lines_view(a + b) =~= lines_view(a) + lines_view(b));
    assert(lines_view(Seq::<DiffLine>::empty()) =~= Seq::<LineView>::empty());
}

/// Builds the edit script of `old` into `new` under the options.
pub fn edit_script(old: &[String], new: &[String], opts: &DiffOptions) -> (d: Vec<DiffLine>)
    requires
        old@.len() < usize::MAX,
        new@.len() < usize::MAX,
    ensures
        lines_view(d@) == diff_script(text_lines(old@), text_lines(new@), *opts),
{
    let ghost ol = text_lines(old@);
    let ghost nl = text_lines(new@);
    let ghost target = diff_script(ol, nl, *opts);
    let ok = line_keys(old, opts);
    let nk = line_keys(new, opts);
    let t = lcs_table(&ok, &nk);
    let n = old.len();
    let m = new.len();
    let mut out: Vec<DiffLine> = Vec::new();
    let mut pend: Vec<DiffLine> = Vec::new();
    let mut i: usize = 0;
    let mut j: usize = 0;
    proof {
        lemma_lines_view_concat(out@, pend@);
    }
    while i < n || j < m
        invariant
            n == old@.len(),
            m == new@.len(),
            ol == text_lines(old@),
            nl == text_lines(new@),
            i <= n,
            j <= m,
            seqs_of(ok@) == keys_of(ol, *opts),
            seqs_of(nk@) == keys_of(nl, *opts),
            lcs_table_ok(t@, seqs_of(ok@), seqs_of(nk@)),
            script_walk(ol, nl, *opts, i as int, j as int, lines_view(out@), lines_view(pend@)) == target,
        decreases n - i + m - j,
    {
        let ghost ov = lines_view(out@);
        let ghost pv = lines_view(pend@);
        proof {
            lemma_lines_view_concat(out@, pend@);
            assert(ok@.len() == n && nk@.len() == m) by {
                assert(seqs_of(ok@).len() == ok@.len());
                assert(seqs_of(nk@).len() == nk@.len());
            }
        }
        if i < n && j < m {
            proof {
                assert(seqs_of(ok@)[i as int] == ok@[i as int]@);
                assert(seqs_of(nk@)[j as int] == nk@[j as int]@);
                assert(t@[n - i]@.len() == m + 1);
                assert(t@[n - i - 1]@.len() == m + 1);
            }
            if chars_equal(&ok[i], &nk[j]) {
                let l = DiffLine::Context(old[i].clone());
                let ghost o0 = out@;
                let ghost p0 = pend@;
                out.append(&mut pend);
                proof {
                    lemma_lines_view_concat(out@, seq![l]);
                    lemma_lines_view_concat(Seq::<DiffLine>::empty(), Seq::<DiffLine>::empty());
                    assert(lines_view(seq![l]) =~= seq![LineView::Context(ol[i as int])]);
                }
                out.push(l);
                proof {
                    assert(out@ =~= o0 + p0 + seq![l]);
                    lemma_lines_view_concat(o0, p0);
                    lemma_lines_view_concat(o0 + p0, seq![l]);
                }
                i += 1;
                j += 1;
            } else if t[n - i - 1][j] >= t[n - i][j + 1] {
                let l = DiffLine::Removed(old[i].clone());
                out.push(l);
                proof {
                    assert(lines_view(out@) =~= ov.push(LineView::Removed(ol[i as int])));
                }
                i += 1;
            } else {
                let l = DiffLine::Added(new[j].clone());
                pend.push(l);
                proof {
                    assert(lines_view(pend@) =~= pv.push(LineView::Added(nl[j as int])));
                }
                j += 1;
            }
        } else if i < n {
            let l = DiffLine::Removed(old[i].clone());
            out.push(l);
            proof {
                assert(lines_view(out@) =~= ov.push(LineView::Removed(ol[i as int])));
            }
            i += 1;
        } else {
            let l = DiffLine::Added(new[j].clone());
            pend.push(l);
            proof {
                assert(lines_view(pend@) =~= pv.push(LineView::Added(nl[j as int])));
            }
            j += 1;
        }
    }
    let ghost o0 = out@;
    let ghost p0 = pend@;
    out.append(&mut pend);
    proof {
        lemma_lines_view_concat(o0, p0);
    }
    out
}

} // verus!

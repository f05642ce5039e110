//! Cutting an edit script into unified hunks: every change is shown with up
//! to `context` kept lines on each side, and changes whose shown regions
//! overlap or touch share one hunk, as `diff -u` prints them.
use vstd::prelude::*;
use crate::script::{lemma_concat, lemma_side_lengths, lemma_all_context, all_context, removals_first};
use crate::diff::{DiffLine, LineView, Hunk, HunkView, lines_view, hunks_view, count_old, count_new, lemma_count_nonneg, old_side, new_side, count_kind, total_kind};

verus! {

/// Whether position `q` of the script holds a change.
pub open spec fn is_change(d: Seq<LineView>, q: int) -> bool {
    0 <= q < d.len() && !(d[q] is Context)
}

/// Whether position `p` lies within `ctx` positions of a change.
pub open spec fn near_change(d: Seq<LineView>, ctx: int, p: int) -> bool {
    exists|q: int| #[trigger] is_change(d, q) && p - ctx <= q <= p + ctx
}

/// For each position of the script, whether a hunk shows it.
pub open spec fn shown_marks(d: Seq<LineView>, ctx: int) -> Seq<bool> {
    Seq::new(d.len(), |p: int| near_change(d, ctx, p))
}

/// `sp` lists, in order, the maximal runs of `true` in `m`, each as the
/// half-open range of its positions.
pub open spec fn runs_ok(m: Seq<bool>, sp: Seq<(int, int)>) -> bool {
    &&& forall|k: int| 0 <= k < sp.len() ==> 0 <= (#[trigger] sp[k]).0 < sp[k].1 <= m.len()
    &&& forall|j: int, k: int| 0 <= j < k < sp.len() ==> (#[trigger] sp[j]).1 < (#[trigger] sp[k]).0
    &&& forall|k: int, p: int| 0 <= k < sp.len() && sp[k].0 <= p < sp[k].1 ==> #[trigger] m[p] && #[trigger] sp[k] == sp[k]
    &&& forall|k: int| 0 <= k < sp.len() ==> ((#[trigger] sp[k]).0 == 0 || !m[sp[k].0 - 1]) && (sp[k].1 == m.len() || !m[sp[k].1])
    &&& forall|p: int| 0 <= p < m.len() && #[trigger] m[p] ==> exists|k: int| 0 <= k < sp.len() && (#[trigger] sp[k]).0 <= p < sp[k].1
}

/// The hunk that shows positions `s.0 .. s.1` of the script. A side with
/// no line in the hunk starts at the line after which it stands, as
/// `diff -u` writes it (0 before the first line).
pub open spec fn span_hunk(d: Seq<LineView>, s: (int, int)) -> HunkView {
    let a = count_old(d.take(s.0));
    let b = count_new(d.take(s.0));
    let lines = d.subrange(s.0, s.1);
    let oc = count_old(lines);
    let nc = count_new(lines);
    HunkView {
        old_start: if oc > 0 { a + 1 } else { a },
        old_count: oc,
        new_start: if nc > 0 { b + 1 } else { b },
        new_count: nc,
        lines,
    }
}

/// The hunks that show the given ranges of the script.
pub open spec fn hunks_of(d: Seq<LineView>, sp: Seq<(int, int)>) -> Seq<HunkView> {
    Seq::new(sp.len(), |k: int| span_hunk(d, sp[k]))
}

/// The ranges as integers.
pub open spec fn spans_view(v: Seq<(usize, usize)>) -> Seq<(int, int)> {
    Seq::new(v.len(), |k: int| (v[k].0 as int, v[k].1 as int))
}

fn line_is_change(l: &DiffLine) -> (r: bool)
    ensures
        r == !(l@ is Context),
{
    match l {
        DiffLine::Context(_) => false,
        _ => true,
    }
}

/// For each position of the script, the first change at or after it, or
/// the script's length where none follows.
fn next_changes(d: &Vec<DiffLine>) -> (nx: Vec<usize>)
    ensures
        nx@.len() == d@.len(),
        forall|p: int| 0 <= p < d@.len() ==> {
            let q = #[trigger] nx@[p] as int;
            &&& p <= q <= d@.len()
            &&& (q == d@.len() || is_change(lines_view(d@), q))
            &&& forall|r: int| p <= r < q ==> !is_change(lines_view(d@), r)
        },
{
    let t = d.len();
    let ghost dv = lines_view(d@);
    let mut nx: Vec<usize> = Vec::new();
    while nx.len() < t
        invariant
            nx@.len() <= t,
            t == d@.len(),
        decreases t - nx@.len(),
    {
        nx.push(t);
    }
    let mut p = t;
    let mut next = t;
    while p > 0
        invariant
            t == d@.len(),
            dv == lines_view(d@),
            nx@.len() == t,
            p <= next <= t,
            next == t || is_change(dv, next as int),
            forall|r: int| p <= r < next ==> !is_change(dv, r),
            forall|x: int| p <= x < t ==> {
                let q = #[trigger] nx@[x] as int;
                &&& x <= q <= t
                &&& (q == t || is_change(dv, q))
                &&& forall|r: int| x <= r < q ==> !is_change(dv, r)
            },
        decreases p,
    {
        p -= 1;
        if line_is_change(&d[p]) {
            next = p;
        }
        nx.set(p, next);
    }
    nx
}

/// For each position of the script, whether it lies within `ctx`
/// positions of a change.
fn shown_positions(d: &Vec<DiffLine>, ctx: usize) -> (sh: Vec<bool>)
    ensures
        sh@ == shown_marks(lines_view(d@), ctx as int),
{
    let ghost dv = lines_view(d@);
    let t = d.len();
    let nx = next_changes(d);
    let mut sh: Vec<bool> = Vec::new();
    let mut has_last = false;
    let mut last: usize = 0;
    let mut p: usize = 0;
    while p < t
        invariant
            t == d@.len(),
            dv == lines_view(d@),
            p <= t,
            sh@.len() == p,
            nx@.len() == t,
            forall|x: int| 0 <= x < t ==> {
                let q = #[trigger] nx@[x] as int;
                &&& x <= q <= t
                &&& (q == t || is_change(dv, q))
                &&& forall|r: int| x <= r < q ==> !is_change(dv, r)
            },
            has_last ==> last < p && is_change(dv, last as int),
            forall|r: int| (if has_last { last + 1 } else { 0 }) <= r < p ==> !is_change(dv, r),
            forall|x: int| 0 <= x < p ==> sh@[x] == near_change(dv, ctx as int, x),
        decreases t - p,
    {
        if line_is_change(&d[p]) {
            has_last = true;
            last = p;
        }
        let q = nx[p];
        let v = (has_last && p - last <= ctx) || (q < t && q - p <= ctx);
        proof {
            let pi = p as int;
            if v {
                if has_last && p - last <= ctx {
                    assert(is_change(dv, last as int));
                } else {
                    assert(is_change(dv, q as int));
                }
            } else {
                assert forall|w: int| is_change(dv, w) implies !(pi - ctx <= w <= pi + ctx) by {
                    if w <= pi {
                        if has_last {
                            assert(w <= last);
                        }
                    } else {
                        assert(w >= q);
                    }
                }
            }
            assert(v == near_change(dv, ctx as int, pi));
        }
        sh.push(v);
        p += 1;
    }
    assert(sh@ =~= shown_marks(dv, ctx as int));
    sh
}

/// Groups the shown positions into maximal runs, one per hunk: changes
/// whose shown regions overlap or touch end up in one run.
fn merge_adjacent_hunks(sh: &Vec<bool>) -> (sp: Vec<(usize, usize)>)
    ensures
        runs_ok(sh@, spans_view(sp@)),
{
    let t = sh.len();
    let mut sp: Vec<(usize, usize)> = Vec::new();
    let mut in_run = false;
    let mut start: usize = 0;
    let mut p: usize = 0;
    while p < t
        invariant
            t == sh@.len(),
            p <= t,
            in_run ==> start < p && (start == 0 || !sh@[start - 1]) && forall|x: int| start <= x < p ==> sh@[x],
            !in_run ==> p == 0 || !sh@[p - 1],
            forall|k: int| 0 <= k < sp@.len() ==> 0 <= (#[trigger] sp@[k]).0 < sp@[k].1 < p
                && (in_run ==> sp@[k].1 < start),
            forall|j: int, k: int| 0 <= j < k < sp@.len() ==> (#[trigger] sp@[j]).1 < (#[trigger] sp@[k]).0,
            forall|k: int, x: int| 0 <= k < sp@.len() && sp@[k].0 <= x < sp@[k].1 ==> #[trigger] sh@[x] && #[trigger] sp@[k] == sp@[k],
            forall|k: int| 0 <= k < sp@.len() ==> ((#[trigger] sp@[k]).0 == 0 || !sh@[sp@[k].0 - 1]) && !sh@[sp@[k].1 as int],
            forall|x: int| 0 <= x < p && #[trigger] sh@[x] ==> (in_run && start <= x) || exists|k: int| 0 <= k < sp@.len() && (#[trigger] sp@[k]).0 <= x < sp@[k].1,
        decreases t - p,
    {
        if sh[p] {
            if !in_run {
                in_run = true;
                start = p;
            }
        } else if in_run {
            let ghost before = sp@;
            sp.push((start, p));
            in_run = false;
            proof {
                assert(sp@[sp@.len() - 1] == (start, p));
                assert forall|x: int| 0 <= x < p && #[trigger] sh@[x] implies exists|k: int| 0 <= k < sp@.len() && (#[trigger] sp@[k]).0 <= x < sp@[k].1 by {
                    if start <= x {
                        assert(sp@[sp@.len() - 1].0 <= x < sp@[sp@.len() - 1].1);
                    } else {
                        let k = choose|k: int| 0 <= k < before.len() && (#[trigger] before[k]).0 <= x < before[k].1;
                        assert(sp@[k] == before[k]);
                    }
                }
            }
        }
        p += 1;
    }
    if in_run {
        let ghost before = sp@;
        sp.push((start, t));
        proof {
            assert(sp@[sp@.len() - 1] == (start, t));
            assert forall|x: int| 0 <= x < t && #[trigger] sh@[x] implies exists|k: int| 0 <= k < sp@.len() && (#[trigger] sp@[k]).0 <= x < sp@[k].1 by {
                if start <= x {
                    assert(sp@[sp@.len() - 1].0 <= x < sp@[sp@.len() - 1].1);
                } else {
                    let k = choose|k: int| 0 <= k < before.len() && (#[trigger] before[k]).0 <= x < before[k].1;
                    assert(sp@[k] == before[k]);
                }
            }
        }
    }
    let ghost v = spans_view(sp@);
    assert forall|p: int| 0 <= p < t && #[trigger] sh@[p] implies exists|k: int| 0 <= k < v.len() && (#[trigger] v[k]).0 <= p < v[k].1 by {
        let k = choose|k: int| 0 <= k < sp@.len() && (#[trigger] sp@[k]).0 <= p < sp@[k].1;
        assert(v[k].0 <= p < v[k].1);
    }
    assert forall|k: int, x: int| 0 <= k < v.len() && v[k].0 <= x < v[k].1 implies #[trigger] sh@[x] && #[trigger] v[k] == v[k] by {
        assert(sp@[k] == sp@[k]);
    }
    assert forall|j: int, k: int| 0 <= j < k < v.len() implies (#[trigger] v[j]).1 < (#[trigger] v[k]).0 by {
        assert(sp@[j].1 < sp@[k].0);
    }
    sp
}

/// The ranges lie inside a script of length `t`, in order and apart.
pub open spec fn spans_sorted(sp: Seq<(int, int)>, t: int) -> bool {
    &&& forall|k: int| 0 <= k < sp.len() ==> 0 <= (#[trigger] sp[k]).0 < sp[k].1 <= t
    &&& forall|j: int, k: int| 0 <= j < k < sp.len() ==> (#[trigger] sp[j]).1 < (#[trigger] sp[k]).0
}

fn copy_line(l: &DiffLine) -> (r: DiffLine)
    ensures
        r@ == l@,
{
    match l {
        DiffLine::Context(s) => DiffLine::Context(s.clone()),
        DiffLine::Removed(s) => DiffLine::Removed(s.clone()),
        DiffLine::Added(s) => DiffLine::Added(s.clone()),
    }
}

/// The old and new line counts of the script's first `to` positions, from
/// those of its first `pos`.
fn advance(d: &Vec<DiffLine>, pos: usize, to: usize, co: usize, cn: usize) -> (r: (usize, usize))
    requires
        pos <= to <= d@.len(),
        co == count_old(lines_view(d@).take(pos as int)),
        cn == count_new(lines_view(d@).take(pos as int)),
    ensures
        r.0 == count_old(lines_view(d@).take(to as int)),
        r.1 == count_new(lines_view(d@).take(to as int)),
{
    let ghost dv = lines_view(d@);
    let mut q = pos;
    let mut a = co;
    let mut b = cn;
    while q < to
        invariant
            pos <= q <= to <= d@.len(),
            dv == lines_view(d@),
            a == count_old(dv.take(q as int)),
            b == count_new(dv.take(q as int)),
        decreases to - q,
    {
        proof {
            assert(dv.take(q + 1).drop_last() =~= dv.take(q as int));
            lemma_count_nonneg(dv.take(q as int));
        }
        match &d[q] {
            DiffLine::Context(_) => {
                a += 1;
                b += 1;
            },
            DiffLine::Removed(_) => {
                a += 1;
            },
            DiffLine::Added(_) => {
                b += 1;
            },
        }
        q += 1;
    }
    (a, b)
}

/// The lines at positions `a .. b` of the script.
fn copy_lines(d: &Vec<DiffLine>, a: usize, b: usize) -> (lines: Vec<DiffLine>)
    requires
        a <= b <= d@.len(),
    ensures
        lines_view(lines@) == lines_view(d@).subrange(a as int, b as int),
{
    let mut lines: Vec<DiffLine> = Vec::new();
    let mut q = a;
    while q < b
        invariant
            a <= q <= b <= d@.len(),
            lines_view(lines@) == lines_view(d@).subrange(a as int, q as int),
        decreases b - q,
    {
        let l = copy_line(&d[q]);
        let ghost before = lines@;
        lines.push(l);
        proof {
            assert(lines@ =~= before.push(l));
            assert(lines_view(lines@) =~= lines_view(before).push(l@));
            assert(lines_view(lines@) =~= lines_view(d@).subrange(a as int, q + 1));
        }
        q += 1;
    }
    lines
}

/// The hunks that show the given ranges of the script.
fn build_hunks(d: &Vec<DiffLine>, sp: &Vec<(usize, usize)>) -> (hs: Vec<Hunk>)
    requires
        spans_sorted(spans_view(sp@), d@.len() as int),
    ensures
        hunks_view(hs@) == hunks_of(lines_view(d@), spans_view(sp@)),
{
    let ghost dv = lines_view(d@);
    let ghost sv = spans_view(sp@);
    let mut hs: Vec<Hunk> = Vec::new();
    let mut pos: usize = 0;
    let mut co: usize = 0;
    let mut cn: usize = 0;
    let mut k: usize = 0;
    proof {
        assert(dv.take(0) =~= Seq::<LineView>::empty());
    }
    while k < sp.len()
        invariant
            dv == lines_view(d@),
            sv == spans_view(sp@),
            spans_sorted(sv, d@.len() as int),
            k <= sp@.len(),
            pos <= d@.len(),
            k == 0 ==> pos == 0,
            k > 0 ==> pos == sv[k - 1].1,
            co == count_old(dv.take(pos as int)),
            cn == count_new(dv.take(pos as int)),
            hs@.len() == k,
            forall|x: int| 0 <= x < k ==> #[trigger] hs@[x]@ == span_hunk(dv, sv[x]),
        decreases sp@.len() - k,
    {
        let (a, b) = sp[k];
        proof {
            assert(sv[k as int] == (a as int, b as int));
            if k > 0 {
                assert(sv[k - 1].1 < sv[k as int].0);
            }
        }
        let (co1, cn1) = advance(d, pos, a, co, cn);
        let (co2, cn2) = advance(d, a, b, co1, cn1);
        let lines = copy_lines(d, a, b);
        proof {
            let x = dv.take(a as int);
            let y = dv.subrange(a as int, b as int);
            assert(dv.take(b as int) =~= x + y);
            lemma_concat(x, y);
            lemma_count_nonneg(y);
            lemma_count_nonneg(dv.take(b as int));
            lemma_count_nonneg(x);
        }
        let oc = co2 - co1;
        let nc = cn2 - cn1;
        let h = Hunk {
            old_start: if oc > 0 { co1 + 1 } else { co1 },
            old_count: oc,
            new_start: if nc > 0 { cn1 + 1 } else { cn1 },
            new_count: nc,
            lines,
        };
        proof {
            assert(h@ == span_hunk(dv, sv[k as int]));
        }
        hs.push(h);
        pos = b;
        co = co2;
        cn = cn2;
        k += 1;
    }
    assert(hunks_view(hs@) =~= hunks_of(dv, sv));
    hs
}

/// The position in the old file where a hunk's old lines begin (0-based).
pub open spec fn old_begin(h: HunkView) -> int {
    if h.old_count > 0 { h.old_start - 1 } else { h.old_start }
}

/// The position in the new file where a hunk's new lines begin (0-based).
pub open spec fn new_begin(h: HunkView) -> int {
    if h.new_count > 0 { h.new_start - 1 } else { h.new_start }
}

/// Whether some line of a hunk is a removal or an addition.
pub open spec fn has_change(lines: Seq<LineView>) -> bool {
    exists|t: int| 0 <= t < lines.len() && !(#[trigger] lines[t] is Context)
}

/// The lines that applying hunks `k..` to `old` gives, from old line `pos`
/// on: each hunk's old lines are replaced by its context and added lines,
/// and every line outside the hunks is kept.
pub open spec fn patch_from(old: Seq<Seq<char>>, hs: Seq<HunkView>, k: int, pos: int) -> Seq<Seq<char>>
    decreases hs.len() - k,
{
    if 0 <= k < hs.len() {
        old.subrange(pos, old_begin(hs[k])) + new_side(hs[k].lines) + patch_from(old, hs, k + 1, old_begin(hs[k]) + hs[k].old_count)
    } else {
        old.subrange(pos, old.len() as int)
    }
}

/// The lines that applying the hunks to `old` gives.
pub open spec fn patch(old: Seq<Seq<char>>, hs: Seq<HunkView>) -> Seq<Seq<char>> {
    patch_from(old, hs, 0, 0)
}

/// Where the kept stretch before range `k` begins.
pub open spec fn gap_start(sp: Seq<(int, int)>, k: int) -> int {
    if k == 0 { 0 } else { sp[k - 1].1 }
}

/// Where the kept stretch before range `k` ends (the script's end after
/// the last range).
pub open spec fn gap_end(sp: Seq<(int, int)>, k: int, t: int) -> int {
    if k < sp.len() { sp[k].0 } else { t }
}

/// A slice of the script shows the matching slices of its two sides.
pub proof fn lemma_side_slice(d: Seq<LineView>, x: int, y: int)
    requires
        0 <= x <= y <= d.len(),
    ensures
        count_old(d.take(y)) == count_old(d.take(x)) + count_old(d.subrange(x, y)),
        count_new(d.take(y)) == count_new(d.take(x)) + count_new(d.subrange(x, y)),
        count_kind(d.take(y), true) == count_kind(d.take(x), true) + count_kind(d.subrange(x, y), true),
        count_kind(d.take(y), false) == count_kind(d.take(x), false) + count_kind(d.subrange(x, y), false),
        0 <= count_old(d.take(x)) <= count_old(d.take(y)) <= old_side(d).len(),
        0 <= count_new(d.take(x)) <= count_new(d.take(y)) <= new_side(d).len(),
        old_side(d).subrange(count_old(d.take(x)), count_old(d.take(y))) == old_side(d.subrange(x, y)),
        new_side(d).subrange(count_new(d.take(x)), count_new(d.take(y))) == new_side(d.subrange(x, y)),
{
    let a = d.take(x);
    let b = d.subrange(x, y);
    let c = d.subrange(y, d.len() as int);
    assert(d.take(y) =~= a + b);
    assert(d =~= (a + b) + c);
    lemma_concat(a, b);
    lemma_concat(a + b, c);
    lemma_side_lengths(a);
    lemma_side_lengths(b);
    lemma_side_lengths(c);
    assert(old_side(d).subrange(count_old(a), count_old(a + b)) =~= old_side(b));
    assert(new_side(d).subrange(count_new(a), count_new(a + b)) =~= new_side(b));
}

/// Between the ranges, before the first and after the last, the script
/// holds kept lines only.
pub proof fn lemma_gap_context(d: Seq<LineView>, ctx: int, sp: Seq<(int, int)>, k: int)
    requires
        ctx >= 0,
        runs_ok(shown_marks(d, ctx), sp),
        0 <= k <= sp.len(),
    ensures
        0 <= gap_start(sp, k) <= gap_end(sp, k, d.len() as int) <= d.len(),
        all_context(d.subrange(gap_start(sp, k), gap_end(sp, k, d.len() as int))),
{
    let m = shown_marks(d, ctx);
    let lo = gap_start(sp, k);
    let hi = gap_end(sp, k, d.len() as int);
    if k > 0 {
        assert(sp[k - 1] == sp[k - 1]);
    }
    if k < sp.len() {
        assert(sp[k] == sp[k]);
        if k > 0 {
            assert(sp[k - 1].1 < sp[k].0);
        }
    }
    let g = d.subrange(lo, hi);
    assert forall|t: int| 0 <= t < g.len() implies #[trigger] g[t] is Context by {
        let p = lo + t;
        if !(d[p] is Context) {
            assert(is_change(d, p));
            assert(near_change(d, ctx, p));
            assert(m[p]);
            let j = choose|j: int| 0 <= j < sp.len() && (#[trigger] sp[j]).0 <= p < sp[j].1;
            if j < k {
                if j < k - 1 {
                    assert(sp[j].1 < sp[k - 1].0);
                }
            } else {
                if j > k {
                    assert(sp[k].1 < sp[j].0);
                }
            }
        }
    }
}

/// Every range holds a change.
pub proof fn lemma_span_has_change(d: Seq<LineView>, ctx: int, sp: Seq<(int, int)>, k: int)
    requires
        ctx >= 0,
        runs_ok(shown_marks(d, ctx), sp),
        0 <= k < sp.len(),
    ensures
        has_change(d.subrange(sp[k].0, sp[k].1)),
{
    let m = shown_marks(d, ctx);
    let lo = sp[k].0;
    let hi = sp[k].1;
    assert(sp[k] == sp[k]);
    assert(m[lo]);
    let q = choose|q: int| #[trigger] is_change(d, q) && lo - ctx <= q <= lo + ctx;
    if q < lo {
        assert(near_change(d, ctx, lo - 1));
        assert(m[lo - 1]);
    } else if q >= hi {
        assert(near_change(d, ctx, hi));
        assert(m[hi]);
    }
    assert(!(d.subrange(lo, hi)[q - lo] is Context));
}

/// Applying the hunks from range `k` on, starting where the kept stretch
/// before it begins, gives the new side of the rest of the script.
pub proof fn lemma_patch(d: Seq<LineView>, ctx: int, sp: Seq<(int, int)>, k: int)
    requires
        ctx >= 0,
        runs_ok(shown_marks(d, ctx), sp),
        0 <= k <= sp.len(),
    ensures
        patch_from(old_side(d), hunks_of(d, sp), k, count_old(d.take(gap_start(sp, k))))
            == new_side(d.subrange(gap_start(sp, k), d.len() as int)),
    decreases sp.len() - k,
{
    let hs = hunks_of(d, sp);
    let e = gap_start(sp, k);
    let g = gap_end(sp, k, d.len() as int);
    lemma_gap_context(d, ctx, sp, k);
    lemma_all_context(d.subrange(e, g));
    lemma_side_slice(d, e, g);
    if k < sp.len() {
        let lo = sp[k].0;
        let hi = sp[k].1;
        assert(sp[k] == sp[k]);
        lemma_patch(d, ctx, sp, k + 1);
        lemma_side_slice(d, lo, hi);
        assert(gap_start(sp, k + 1) == hi);
        assert(hs[k] == span_hunk(d, sp[k]));
        assert(old_begin(hs[k]) == count_old(d.take(lo)));
        let x = d.subrange(e, lo);
        let y = d.subrange(lo, hi);
        let z = d.subrange(hi, d.len() as int);
        assert(d.subrange(e, d.len() as int) =~= x + y + z);
        lemma_concat(x, y);
        lemma_concat(x + y, z);
        let old = old_side(d);
        let ce = count_old(d.take(e));
        assert(old.subrange(ce, old_begin(hs[k])) == new_side(x));
        assert(new_side(hs[k].lines) == new_side(y));
        assert(old_begin(hs[k]) + hs[k].old_count == count_old(d.take(hi)));
        assert(patch_from(old, hs, k + 1, count_old(d.take(hi))) == new_side(z));
        assert(patch_from(old, hs, k, ce) == old.subrange(ce, old_begin(hs[k])) + new_side(hs[k].lines)
            + patch_from(old, hs, k + 1, old_begin(hs[k]) + hs[k].old_count));
    } else {
        lemma_side_slice(d, e, d.len() as int);
        assert(d.take(d.len() as int) =~= d);
        lemma_side_lengths(d);
    }
}

/// The removed (or added) lines of hunks `..k` are those of the script up
/// to the end of range `k - 1`.
pub proof fn lemma_totals(d: Seq<LineView>, ctx: int, sp: Seq<(int, int)>, k: int, added: bool)
    requires
        ctx >= 0,
        runs_ok(shown_marks(d, ctx), sp),
        0 <= k <= sp.len(),
    ensures
        total_kind(hunks_of(d, sp).take(k), added) == count_kind(d.take(gap_start(sp, k)), added),
    decreases k,
{
    let hs = hunks_of(d, sp);
    if k == 0 {
        assert(hs.take(0) =~= Seq::<HunkView>::empty());
        assert(d.take(0) =~= Seq::<LineView>::empty());
    } else {
        lemma_totals(d, ctx, sp, k - 1, added);
        assert(hs.take(k).drop_last() =~= hs.take(k - 1));
        let e = gap_start(sp, k - 1);
        let lo = sp[k - 1].0;
        let hi = sp[k - 1].1;
        assert(sp[k - 1] == sp[k - 1]);
        lemma_gap_context(d, ctx, sp, k - 1);
        lemma_all_context(d.subrange(e, lo));
        lemma_side_slice(d, e, lo);
        lemma_side_slice(d, lo, hi);
        assert(hs.take(k).last() == span_hunk(d, sp[k - 1]));
    }
}

/// What holds of the hunk of range `k`.
pub proof fn lemma_hunk_k(d: Seq<LineView>, ctx: int, sp: Seq<(int, int)>, k: int)
    requires
        ctx >= 0,
        runs_ok(shown_marks(d, ctx), sp),
        0 <= k < sp.len(),
    ensures
        ({
            let h = hunks_of(d, sp)[k];
            &&& h.old_count == count_old(h.lines)
            &&& h.new_count == count_new(h.lines)
            &&& 0 <= old_begin(h) <= old_begin(h) + h.old_count <= old_side(d).len()
            &&& 0 <= new_begin(h) <= new_begin(h) + h.new_count <= new_side(d).len()
            &&& old_side(h.lines) == old_side(d).subrange(old_begin(h), old_begin(h) + h.old_count)
            &&& new_side(h.lines) == new_side(d).subrange(new_begin(h), new_begin(h) + h.new_count)
            &&& has_change(h.lines)
            &&& (removals_first(d) ==> removals_first(h.lines))
            &&& (ctx == 0 ==> forall|t: int| 0 <= t < h.lines.len() ==> !(#[trigger] h.lines[t] is Context))
            &&& (k + 1 < sp.len() ==> old_begin(h) + h.old_count < old_begin(hunks_of(d, sp)[k + 1])
                && new_begin(h) + h.new_count < new_begin(hunks_of(d, sp)[k + 1]))
        }),
{
    let m = shown_marks(d, ctx);
    let hs = hunks_of(d, sp);
    let h = hs[k];
    let lo = sp[k].0;
    let hi = sp[k].1;
    assert(sp[k] == sp[k]);
    assert(h == span_hunk(d, sp[k]));
    lemma_side_slice(d, lo, hi);
    lemma_side_slice(d, 0, lo);
    assert(d.take(0) =~= Seq::<LineView>::empty());
    lemma_span_has_change(d, ctx, sp, k);
    let y = d.subrange(lo, hi);
    if removals_first(d) {
        assert forall|t: int| 0 <= t < y.len() - 1 implies !(#[trigger] y[t] is Added && y[t + 1] is Removed) by {
            assert(y[t] == d[lo + t]);
            assert(y[t + 1] == d[lo + t + 1]);
        }
    }
    if ctx == 0 {
        assert forall|t: int| 0 <= t < y.len() implies !(#[trigger] y[t] is Context) by {
            let p = lo + t;
            assert(m[p]);
            let q = choose|q: int| #[trigger] is_change(d, q) && p - ctx <= q <= p + ctx;
            assert(q == p);
        }
    }
    if k + 1 < sp.len() {
        let lo2 = sp[k + 1].0;
        assert(sp[k + 1] == sp[k + 1]);
        assert(hi < lo2);
        assert(hs[k + 1] == span_hunk(d, sp[k + 1]));
        lemma_gap_context(d, ctx, sp, k + 1);
        let g = d.subrange(hi, lo2);
        lemma_all_context(g);
        lemma_side_lengths(g);
        lemma_side_slice(d, hi, lo2);
        lemma_side_slice(d, lo2, sp[k + 1].1);
    }
}

/// Whether the script holds no change.
pub open spec fn no_change(d: Seq<LineView>) -> bool {
    forall|q: int| !#[trigger] is_change(d, q)
}

/// A script with a change counts a removal or an addition.
pub proof fn lemma_change_counts(d: Seq<LineView>)
    ensures
        no_change(d) <==> count_kind(d, true) + count_kind(d, false) == 0,
    decreases d.len(),
{
    lemma_side_lengths(d);
    if d.len() > 0 {
        let e = d.drop_last();
        lemma_change_counts(e);
        lemma_side_lengths(e);
        if no_change(d) {
            assert forall|q: int| !#[trigger] is_change(e, q) by {
                if is_change(e, q) {
                    assert(is_change(d, q));
                }
            }
            assert(!is_change(d, d.len() - 1));
        }
        if count_kind(d, true) + count_kind(d, false) == 0 {
            assert forall|q: int| !#[trigger] is_change(d, q) by {
                if q < d.len() - 1 && is_change(d, q) {
                    assert(is_change(e, q));
                }
            }
        }
    }
}

/// The laws of the hunks cut from a script: each hunk's counts are those
/// of its lines, and its lines show, on each side, the slice of that side
/// that its header names; each hunk holds a change; without context no hunk
/// holds a kept line; removals stay first where the script has them first;
/// consecutive hunks leave at least one line between them on each side;
/// applying the hunks to the old side gives the new side; the hunks hold
/// every change of the script; and there is no hunk exactly when the
/// script holds no change.
pub proof fn law_hunk_layout(d: Seq<LineView>, ctx: int, sp: Seq<(int, int)>)
    requires
        ctx >= 0,
        runs_ok(shown_marks(d, ctx), sp),
    ensures
        forall|k: int| 0 <= k < sp.len() ==> {
            let h = #[trigger] hunks_of(d, sp)[k];
            &&& h.old_count == count_old(h.lines)
            &&& h.new_count == count_new(h.lines)
            &&& 0 <= old_begin(h) <= old_begin(h) + h.old_count <= old_side(d).len()
            &&& 0 <= new_begin(h) <= new_begin(h) + h.new_count <= new_side(d).len()
            &&& old_side(h.lines) == old_side(d).subrange(old_begin(h), old_begin(h) + h.old_count)
            &&& new_side(h.lines) == new_side(d).subrange(new_begin(h), new_begin(h) + h.new_count)
            &&& has_change(h.lines)
            &&& (removals_first(d) ==> removals_first(h.lines))
            &&& (ctx == 0 ==> forall|t: int| 0 <= t < h.lines.len() ==> !(#[trigger] h.lines[t] is Context))
            &&& (k + 1 < sp.len() ==> old_begin(h) + h.old_count < old_begin(hunks_of(d, sp)[k + 1])
                && new_begin(h) + h.new_count < new_begin(hunks_of(d, sp)[k + 1]))
        },
        patch(old_side(d), hunks_of(d, sp)) == new_side(d),
        total_kind(hunks_of(d, sp), true) == count_kind(d, true),
        total_kind(hunks_of(d, sp), false) == count_kind(d, false),
        hunks_of(d, sp).len() == 0 <==> no_change(d),
{
    let hs = hunks_of(d, sp);
    assert forall|k: int| 0 <= k < sp.len() implies {
            let h = #[trigger] hunks_of(d, sp)[k];
            &&& h.old_count == count_old(h.lines)
            &&& h.new_count == count_new(h.lines)
            &&& 0 <= old_begin(h) <= old_begin(h) + h.old_count <= old_side(d).len()
            &&& 0 <= new_begin(h) <= new_begin(h) + h.new_count <= new_side(d).len()
            &&& old_side(h.lines) == old_side(d).subrange(old_begin(h), old_begin(h) + h.old_count)
            &&& new_side(h.lines) == new_side(d).subrange(new_begin(h), new_begin(h) + h.new_count)
            &&& has_change(h.lines)
            &&& (removals_first(d) ==> removals_first(h.lines))
            &&& (ctx == 0 ==> forall|t: int| 0 <= t < h.lines.len() ==> !(#[trigger] h.lines[t] is Context))
            &&& (k + 1 < sp.len() ==> old_begin(h) + h.old_count < old_begin(hunks_of(d, sp)[k + 1])
                && new_begin(h) + h.new_count < new_begin(hunks_of(d, sp)[k + 1]))
        } by {
        lemma_hunk_k(d, ctx, sp, k);
    }
    lemma_patch(d, ctx, sp, 0);
    assert(d.take(0) =~= Seq::<LineView>::empty());
    assert(d.subrange(0, d.len() as int) =~= d);
    let n = sp.len() as int;
    lemma_totals(d, ctx, sp, n, true);
    lemma_totals(d, ctx, sp, n, false);
    assert(hs.take(n) =~= hs);
    let e = gap_start(sp, n);
    lemma_gap_context(d, ctx, sp, n);
    lemma_all_context(d.subrange(e, d.len() as int));
    lemma_side_slice(d, e, d.len() as int);
    assert(d.take(d.len() as int) =~= d);
    lemma_change_counts(d);
    if n > 0 {
        lemma_span_has_change(d, ctx, sp, 0);
        assert(sp[0] == sp[0]);
        let y = d.subrange(sp[0].0, sp[0].1);
        let t = choose|t: int| 0 <= t < y.len() && !(#[trigger] y[t] is Context);
        assert(is_change(d, sp[0].0 + t));
    } else {
        assert forall|q: int| !#[trigger] is_change(d, q) by {
            if is_change(d, q) {
                assert(near_change(d, ctx, q));
                assert(shown_marks(d, ctx)[q]);
            }
        }
    }
}

/// A run of one listing is a run of any other listing of the same marks.
proof fn lemma_run_match(m: Seq<bool>, a: Seq<(int, int)>, b: Seq<(int, int)>, k: int)
    requires
        runs_ok(m, a),
        runs_ok(m, b),
        0 <= k < a.len(),
    ensures
        exists|j: int| 0 <= j < b.len() && b[j] == a[k],
{
    let lo = a[k].0;
    let hi = a[k].1;
    assert(a[k] == a[k]);
    assert(m[lo]);
    let j = choose|j: int| 0 <= j < b.len() && (#[trigger] b[j]).0 <= lo < b[j].1;
    assert(b[j] == b[j]);
    if b[j].0 < lo {
        assert(m[lo - 1]);
    }
    if hi < b[j].1 {
        assert(m[hi]);
    }
    if b[j].1 < hi {
        assert(m[b[j].1]);
    }
    assert(b[j] == a[k]);
}

proof fn lemma_runs_prefix(m: Seq<bool>, a: Seq<(int, int)>, b: Seq<(int, int)>, k: int)
    requires
        runs_ok(m, a),
        runs_ok(m, b),
        0 <= k < a.len(),
        k < b.len(),
    ensures
        forall|i: int| 0 <= i <= k ==> a[i] == b[i],
    decreases k,
{
    if k > 0 {
        lemma_runs_prefix(m, a, b, k - 1);
    }
    lemma_run_match(m, a, b, k);
    let j = choose|j: int| 0 <= j < b.len() && b[j] == a[k];
    if j < k {
        assert(a[j] == b[j]);
        assert(a[j].1 < a[k].0);
    } else if j > k {
        lemma_run_match(m, b, a, k);
        let i = choose|i: int| 0 <= i < a.len() && a[i] == b[k];
        assert(b[k].1 < b[j].0);
        if i < k {
            assert(a[i] == b[i]);
            assert(b[i].1 < b[k].0);
        } else if i > k {
            assert(a[k].1 < a[i].0);
        }
    }
    assert forall|i: int| 0 <= i <= k implies a[i] == b[i] by {
        if i < k {
        }
    }
}

/// The maximal runs of a sequence of marks are determined by the marks.
pub proof fn lemma_runs_unique(m: Seq<bool>, a: Seq<(int, int)>, b: Seq<(int, int)>)
    requires
        runs_ok(m, a),
        runs_ok(m, b),
    ensures
        a == b,
{
    if a.len() > 0 && b.len() > 0 {
        let n = if a.len() < b.len() { a.len() as int } else { b.len() as int };
        lemma_runs_prefix(m, a, b, n - 1);
    }
    if a.len() > b.len() {
        lemma_run_match(m, a, b, b.len() as int);
        let j = choose|j: int| 0 <= j < b.len() && b[j] == a[b.len() as int];
        assert(a[j] == b[j]);
        assert(a[j].1 < a[b.len() as int].0);
    }
    if b.len() > a.len() {
        lemma_run_match(m, b, a, a.len() as int);
        let j = choose|j: int| 0 <= j < a.len() && a[j] == b[a.len() as int];
        assert(a[j] == b[j]);
        assert(b[j].1 < b[a.len() as int].0);
    }
    assert(a =~= b);
}

/// The maximal runs of the marks.
pub open spec fn runs_of(m: Seq<bool>) -> Seq<(int, int)> {
    choose|sp: Seq<(int, int)>| runs_ok(m, sp)
}

/// The hunks of a script: one per maximal run of shown positions.
pub open spec fn layout(d: Seq<LineView>, ctx: int) -> Seq<HunkView> {
    hunks_of(d, runs_of(shown_marks(d, ctx)))
}

/// Cuts the script into hunks with `ctx` lines of context.
pub fn cut_hunks(d: &Vec<DiffLine>, ctx: usize) -> (hs: Vec<Hunk>)
    ensures
        hunks_view(hs@) == layout(lines_view(d@), ctx as int),
        runs_ok(shown_marks(lines_view(d@), ctx as int), runs_of(shown_marks(lines_view(d@), ctx as int))),
{
    let sh = shown_positions(d, ctx);
    let sp = merge_adjacent_hunks(&sh);
    let hs = build_hunks(d, &sp);
    proof {
        let m = shown_marks(lines_view(d@), ctx as int);
        let v = spans_view(sp@);
        assert(runs_ok(m, runs_of(m)));
        lemma_runs_unique(m, v, runs_of(m));
    }
    hs
}

/// Every kept line of a hunk lies within `ctx` lines of a change of the
/// same hunk.
pub open spec fn context_near_change(lines: Seq<LineView>, ctx: int) -> bool {
    forall|t: int| 0 <= t < lines.len() && #[trigger] lines[t] is Context ==> exists|u: int|
        0 <= u < lines.len() && !(#[trigger] lines[u] is Context) && t - ctx <= u <= t + ctx
}

/// The change that makes a position of a range shown lies in that range.
pub proof fn lemma_span_context_near(d: Seq<LineView>, ctx: int, sp: Seq<(int, int)>, k: int)
    requires
        ctx >= 0,
        runs_ok(shown_marks(d, ctx), sp),
        0 <= k < sp.len(),
    ensures
        context_near_change(d.subrange(sp[k].0, sp[k].1), ctx),
{
    let m = shown_marks(d, ctx);
    let lo = sp[k].0;
    let hi = sp[k].1;
    assert(sp[k] == sp[k]);
    let y = d.subrange(lo, hi);
    assert forall|t: int| 0 <= t < y.len() && #[trigger] y[t] is Context implies exists|u: int|
        0 <= u < y.len() && !(#[trigger] y[u] is Context) && t - ctx <= u <= t + ctx by {
        let p = lo + t;
        assert(m[p]);
        let q = choose|q: int| #[trigger] is_change(d, q) && p - ctx <= q <= p + ctx;
        if q < lo {
            assert(near_change(d, ctx, lo - 1));
            assert(m[lo - 1]);
        } else if q >= hi {
            assert(near_change(d, ctx, hi));
            assert(m[hi]);
        }
        assert(!(y[q - lo] is Context));
    }
}

/// A hunk shows all the context that the files have around its changes: a
/// change among its first `ctx` lines means that it starts at the top of
/// both files, and one among its last `ctx` lines that it reaches the end
/// of both (files of `n_old` and `n_new` lines).
pub open spec fn context_full(h: HunkView, ctx: int, n_old: int, n_new: int) -> bool {
    forall|u: int| 0 <= u < h.lines.len() && !(#[trigger] h.lines[u] is Context) ==> {
        &&& (u < ctx ==> old_begin(h) == 0 && new_begin(h) == 0)
        &&& (h.lines.len() - 1 - u < ctx ==> old_begin(h) + h.old_count == n_old && new_begin(h) + h.new_count == n_new)
    }
}

/// Each hunk shows all the context around its changes.
pub proof fn lemma_span_context_full(d: Seq<LineView>, ctx: int, sp: Seq<(int, int)>, k: int)
    requires
        ctx >= 0,
        runs_ok(shown_marks(d, ctx), sp),
        0 <= k < sp.len(),
    ensures
        context_full(hunks_of(d, sp)[k], ctx, old_side(d).len() as int, new_side(d).len() as int),
{
    let m = shown_marks(d, ctx);
    let lo = sp[k].0;
    let hi = sp[k].1;
    assert(sp[k] == sp[k]);
    let h = hunks_of(d, sp)[k];
    assert(h == span_hunk(d, sp[k]));
    lemma_side_slice(d, lo, hi);
    lemma_side_slice(d, 0, lo);
    lemma_side_lengths(d);
    assert(d.take(0) =~= Seq::<LineView>::empty());
    assert(d.take(d.len() as int) =~= d);
    assert forall|u: int| 0 <= u < h.lines.len() && !(#[trigger] h.lines[u] is Context) implies {
        &&& (u < ctx ==> old_begin(h) == 0 && new_begin(h) == 0)
        &&& (h.lines.len() - 1 - u < ctx ==> old_begin(h) + h.old_count == old_side(d).len() && new_begin(h) + h.new_count
            == new_side(d).len())
    } by {
        let q = lo + u;
        assert(is_change(d, q));
        if u < ctx && lo > 0 {
            assert(near_change(d, ctx, lo - 1));
            assert(m[lo - 1]);
        }
        if h.lines.len() - 1 - u < ctx && hi < d.len() {
            assert(near_change(d, ctx, hi));
            assert(m[hi]);
        }
    }
}

} // verus!

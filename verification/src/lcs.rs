//! Longest-common-subsequence lengths and the table of them for all pairs
//! of suffixes.
use vstd::prelude::*;
use crate::text::chars_equal;

verus! {

/// Length of the longest common subsequence of `a[i..]` and `b[j..]`.
pub open spec fn lcs(a: Seq<Seq<char>>, b: Seq<Seq<char>>, i: int, j: int) -> nat
    decreases a.len() - i + b.len() - j,
{
    if 0 <= i < a.len() && 0 <= j < b.len() {
        if a[i] == b[j] {
            1 + lcs(a, b, i + 1, j + 1)
        } else {
            let x = lcs(a, b, i + 1, j);
            let y = lcs(a, b, i, j + 1);
            if x >= y { x } else { y }
        }
    } else {
        0
    }
}

/// The LCS of suffixes is bounded by the length of either suffix.
pub proof fn lemma_lcs_bound(a: Seq<Seq<char>>, b: Seq<Seq<char>>, i: int, j: int)
    requires
        0 <= i <= a.len(),
        0 <= j <= b.len(),
    ensures
        lcs(a, b, i, j) <= a.len() - i,
        lcs(a, b, i, j) <= b.len() - j,
    decreases a.len() - i + b.len() - j,
{
    if i < a.len() && j < b.len() {
        lemma_lcs_bound(a, b, i + 1, j + 1);
        lemma_lcs_bound(a, b, i + 1, j);
        lemma_lcs_bound(a, b, i, j + 1);
    }
}

/// The table of suffix LCS lengths: `t[n - i][j] == lcs(a, b, i, j)`.
pub open spec fn lcs_table_ok(t: Seq<Vec<usize>>, a: Seq<Seq<char>>, b: Seq<Seq<char>>) -> bool {
    &&& t.len() == a.len() + 1
    &&& forall|k: int| 0 <= k < t.len() ==> #[trigger] t[k]@.len() == b.len() + 1
    &&& forall|k: int, j: int|
        0 <= k < t.len() && 0 <= j <= b.len() ==> #[trigger] t[k]@[j] == lcs(a, b, a.len() - k, j)
}

fn zero_row(len: usize) -> (v: Vec<usize>)
    ensures
        v@.len() == len,
        forall|j: int| 0 <= j < len ==> v@[j] == 0,
{
    let mut v: Vec<usize> = Vec::new();
    while v.len() < len
        invariant
            v@.len() <= len,
            forall|j: int| 0 <= j < v@.len() ==> v@[j] == 0,
        decreases len - v@.len(),
    {
        v.push(0);
    }
    v
}

/// A sequence shares all of its rest with itself.
pub proof fn lemma_lcs_self(a: Seq<Seq<char>>, i: int)
    requires
        0 <= i <= a.len(),
    ensures
        lcs(a, a, i, i) == a.len() - i,
    decreases a.len() - i,
{
    if i < a.len() {
        lemma_lcs_self(a, i + 1);
    }
}

/// Builds the table of LCS lengths of all suffix pairs of `a` and `b`.
pub fn lcs_table(a: &Vec<Vec<char>>, b: &Vec<Vec<char>>) -> (t: Vec<Vec<usize>>)
    requires
        a@.len() < usize::MAX,
        b@.len() < usize::MAX,
    ensures
        lcs_table_ok(t@, seqs_of(a@), seqs_of(b@)),
{
    let ghost sa = seqs_of(a@);
    let ghost sb = seqs_of(b@);
    let n = a.len();
    let m = b.len();
    let mut t: Vec<Vec<usize>> = Vec::new();
    t.push(zero_row(m + 1));
    let mut i = n;
    while i > 0
        invariant
            n == a@.len(),
            m == b@.len(),
            n < usize::MAX,
            m < usize::MAX,
            sa == seqs_of(a@),
            sb == seqs_of(b@),
            i <= n,
            t@.len() == n - i + 1,
            forall|k: int| 0 <= k < t@.len() ==> #[trigger] t@[k]@.len() == m + 1,
            forall|k: int, j: int|
                0 <= k < t@.len() && 0 <= j <= m ==> #[trigger] t@[k]@[j] == lcs(sa, sb, n - k, j),
        decreases i,
    {
        i -= 1;
        let mut row = zero_row(m + 1);
        let mut j = m;
        proof {
            assert(t@[n - i - 1]@.len() == m + 1);
        }
        while j > 0
            invariant
                n == a@.len(),
                m == b@.len(),
                n < usize::MAX,
                m < usize::MAX,
                sa == seqs_of(a@),
                sb == seqs_of(b@),
                i < n,
                j <= m,
                t@.len() == n - i,
                forall|k: int| 0 <= k < t@.len() ==> #[trigger] t@[k]@.len() == m + 1,
                forall|k: int, jj: int|
                    0 <= k < t@.len() && 0 <= jj <= m ==> #[trigger] t@[k]@[jj] == lcs(sa, sb, n - k, jj),
                row@.len() == m + 1,
                forall|jj: int| j <= jj <= m ==> #[trigger] row@[jj] == lcs(sa, sb, i as int, jj),
            decreases j,
        {
            j -= 1;
            let prev = &t[n - i - 1];
            proof {
                lemma_lcs_bound(sa, sb, i + 1, j + 1);
                assert(prev@[j + 1] == lcs(sa, sb, i + 1, j + 1));
                assert(prev@[j as int] == lcs(sa, sb, i + 1, j as int));
                assert(sa[i as int] == a@[i as int]@);
                assert(sb[j as int] == b@[j as int]@);
            }
            let v = if chars_equal(&a[i], &b[j]) {
                prev[j + 1] + 1
            } else {
                let x = prev[j];
                let y = row[j + 1];
                if x >= y { x } else { y }
            };
            row.set(j, v);
        }
        t.push(row);
    }
    t
}

/// The character sequences held by a vector of character vectors.
pub open spec fn seqs_of(v: Seq<Vec<char>>) -> Seq<Seq<char>> {
    v.map_values(|x: Vec<char>| x@)
}

} // verus!

//! Character-level helpers shared by the parser and the diff engine.
use vstd::prelude::*;

verus! {

/// Copies the characters of a string slice into a vector.
pub fn chars_of(s: &str) -> (v: Vec<char>)
    ensures
        v@ == s@,
{
    let mut v: Vec<char> = Vec::new();
    for c in it: s.chars()
        invariant
            v@ == it.seq().take(it.index() as int),
            it.seq() == s@,
    {
        v.push(c);
    }
    v
}

/// Builds an owned string from a vector of characters
/// (`String`'s `FromIterator<&char>` implementation).
#[verifier::external_body]
pub(crate) fn string_from_chars(v: &Vec<char>) -> (s: String)
    ensures
        s@ == v@,
{
    String::from_iter(v.iter())
}


/// Compares two character vectors for equality.
pub fn chars_equal(a: &Vec<char>, b: &Vec<char>) -> (r: bool)
    ensures
        r == (a@ == b@),
{
    if a.len() != b.len() {
        return false;
    }
    let mut k: usize = 0;
    while k < a.len()
        invariant
            a.len() == b.len(),
            k <= a.len(),
            forall|t: int| 0 <= t < k ==> a@[t] == b@[t],
        decreases a.len() - k,
    {
        if a[k] != b[k] {
            return false;
        }
        k += 1;
    }
    assert(a@ =~= b@);
    true
}

/// Appends the characters of `s` to `out`.
pub fn push_str(out: &mut Vec<char>, s: &str)
    ensures
        final(out)@ == old(out)@ + s@,
{
    let ghost start = out@;
    for c in it: s.chars()
        invariant
            out@ == start + it.seq().take(it.index() as int),
            it.seq() == s@,
    {
        out.push(c);
    }
    assert(s@.take(s@.len() as int) =~= s@);
}

/// Appends the characters of `src` to `out`.
pub fn push_chars(out: &mut Vec<char>, src: &Vec<char>)
    ensures
        final(out)@ == old(out)@ + src@,
{
    let ghost start = out@;
    let mut k: usize = 0;
    while k < src.len()
        invariant
            k <= src.len(),
            out@ == start + src@.take(k as int),
        decreases src.len() - k,
    {
        out.push(src[k]);
        k += 1;
        assert(src@.take(k as int) =~= src@.take(k - 1).push(src@[k - 1]));
    }
    assert(src@.take(src@.len() as int) =~= src@);
}


/// ASCII whitespace as `char::is_ascii_whitespace` defines it: space,
/// tab, line feed, form feed and carriage return.
pub open spec fn is_ascii_ws(c: char) -> bool {
    c == ' ' || c == '\t' || c == '\n' || c == '\x0C' || c == '\r'
}

/// The ASCII-lowercase form of a character.
pub open spec fn ascii_lower(c: char) -> char {
    if 'A' <= c && c <= 'Z' {
        ((c as u32) + 32) as char
    } else {
        c
    }
}

/// `s` with every ASCII letter lowercased.
pub open spec fn lower_all(s: Seq<char>) -> Seq<char> {
    s.map_values(|c: char| ascii_lower(c))
}

/// Collapsing whitespace over a prefix: the output so far and whether the
/// last character read was whitespace.
pub open spec fn collapse_state(s: Seq<char>) -> (Seq<char>, bool)
    decreases s.len(),
{
    if s.len() == 0 {
        (Seq::empty(), false)
    } else {
        let prev = collapse_state(s.drop_last());
        let c = s.last();
        if is_ascii_ws(c) {
            if prev.1 {
                prev
            } else {
                (prev.0.push(' '), true)
            }
        } else {
            (prev.0.push(c), false)
        }
    }
}

/// `s` with each run of ASCII whitespace replaced by a single space.
pub open spec fn collapse(s: Seq<char>) -> Seq<char> {
    collapse_state(s).0
}

pub fn is_ascii_ws_exec(c: char) -> (r: bool)
    ensures
        r == is_ascii_ws(c),
{
    c == ' ' || c == '\t' || c == '\n' || c == '\x0C' || c == '\r'
}

pub fn ascii_lower_exec(c: char) -> (r: char)
    ensures
        r == ascii_lower(c),
{
    if 'A' <= c && c <= 'Z' {
        let u: u32 = c as u32;
        proof {
            assert(65 <= u <= 90);
        }
        ((u + 32) as u8) as char
    } else {
        c
    }
}

/// The whitespace-collapsed characters of `s`.
pub fn collapse_chars(s: &Vec<char>) -> (r: Vec<char>)
    ensures
        r@ == collapse(s@),
{
    let mut out: Vec<char> = Vec::new();
    let mut in_space = false;
    let mut k: usize = 0;
    while k < s.len()
        invariant
            k <= s.len(),
            (out@, in_space) == collapse_state(s@.take(k as int)),
        decreases s.len() - k,
    {
        let c = s[k];
        proof {
            assert(s@.take(k + 1).drop_last() =~= s@.take(k as int));
        }
        if is_ascii_ws_exec(c) {
            if !in_space {
                out.push(' ');
                in_space = true;
            }
        } else {
            out.push(c);
            in_space = false;
        }
        k += 1;
    }
    assert(s@.take(s@.len() as int) =~= s@);
    out
}

/// The ASCII-lowercased characters of `s`.
pub fn lower_chars(s: &Vec<char>) -> (r: Vec<char>)
    ensures
        r@ == lower_all(s@),
{
    let mut out: Vec<char> = Vec::new();
    let mut k: usize = 0;
    while k < s.len()
        invariant
            k <= s.len(),
            out@ == lower_all(s@.take(k as int)),
        decreases s.len() - k,
    {
        out.push(ascii_lower_exec(s[k]));
        k += 1;
        assert(out@ =~= lower_all(s@.take(k as int)));
    }
    assert(s@.take(s@.len() as int) =~= s@);
    out
}


/// Unicode `White_Space` as `char::is_whitespace` defines it.
pub open spec fn is_unicode_ws(c: char) -> bool {
    ('\t' <= c && c <= '\r') || c == ' ' || c == '\u{85}' || c == '\u{A0}' || c == '\u{1680}'
        || ('\u{2000}' <= c && c <= '\u{200A}') || c == '\u{2028}' || c == '\u{2029}'
        || c == '\u{202F}' || c == '\u{205F}' || c == '\u{3000}'
}

pub fn is_unicode_ws_exec(c: char) -> (r: bool)
    ensures
        r == is_unicode_ws(c),
{
    ('\t' <= c && c <= '\r') || c == ' ' || c == '\u{85}' || c == '\u{A0}' || c == '\u{1680}'
        || ('\u{2000}' <= c && c <= '\u{200A}') || c == '\u{2028}' || c == '\u{2029}'
        || c == '\u{202F}' || c == '\u{205F}' || c == '\u{3000}'
}

/// Splitting a prefix at whitespace: the finished words and the word being
/// read.
pub open spec fn split_state(s: Seq<char>) -> (Seq<Seq<char>>, Seq<char>)
    decreases s.len(),
{
    if s.len() == 0 {
        (Seq::empty(), Seq::empty())
    } else {
        let prev = split_state(s.drop_last());
        let c = s.last();
        if is_unicode_ws(c) {
            if prev.1.len() > 0 {
                (prev.0.push(prev.1), Seq::empty())
            } else {
                prev
            }
        } else {
            (prev.0, prev.1.push(c))
        }
    }
}

/// The non-empty runs of non-whitespace characters of `s`, in order
/// (`str::split_whitespace`).
pub open spec fn words(s: Seq<char>) -> Seq<Seq<char>> {
    let st = split_state(s);
    if st.1.len() > 0 { st.0.push(st.1) } else { st.0 }
}

proof fn lemma_split_state_len(s: Seq<char>)
    ensures
        2 * split_state(s).0.len() + split_state(s).1.len() <= s.len(),
    decreases s.len(),
{
    if s.len() > 0 {
        lemma_split_state_len(s.drop_last());
    }
}

/// The whitespace-separated words of `s`.
pub fn split_words(s: &str) -> (r: Vec<Vec<char>>)
    ensures
        crate::lcs::seqs_of(r@) == words(s@),
        r@.len() < usize::MAX,
{
    let chars = chars_of(s);
    let mut done: Vec<Vec<char>> = Vec::new();
    let mut cur: Vec<char> = Vec::new();
    let mut k: usize = 0;
    while k < chars.len()
        invariant
            k <= chars@.len(),
            chars@ == s@,
            (crate::lcs::seqs_of(done@), cur@) == split_state(chars@.take(k as int)),
        decreases chars@.len() - k,
    {
        let c = chars[k];
        proof {
            assert(chars@.take(k + 1).drop_last() =~= chars@.take(k as int));
        }
        if is_unicode_ws_exec(c) {
            if cur.len() > 0 {
                let w = cur;
                proof {
                    assert(crate::lcs::seqs_of(done@.push(w)) =~= crate::lcs::seqs_of(done@).push(w@));
                }
                done.push(w);
                cur = Vec::new();
            }
        } else {
            cur.push(c);
        }
        k += 1;
    }
    assert(chars@.take(chars@.len() as int) =~= chars@);
    proof {
        lemma_split_state_len(chars@);
    }
    if cur.len() > 0 {
        proof {
            assert(crate::lcs::seqs_of(done@.push(cur)) =~= crate::lcs::seqs_of(done@).push(cur@));
        }
        done.push(cur);
    }
    done
}


/// The character of a decimal digit.
pub open spec fn digit_char(d: int) -> char {
    (d + 48) as char
}

/// The decimal representation of `n`, without leading zeros.
pub open spec fn decimal(n: nat) -> Seq<char>
    decreases n,
{
    if n < 10 {
        seq![digit_char(n as int)]
    } else {
        decimal(n / 10).push(digit_char((n % 10) as int))
    }
}

/// Appends the decimal representation of `n` to `out`.
pub fn push_decimal(out: &mut Vec<char>, n: usize)
    ensures
        final(out)@ == old(out)@ + decimal(n as nat),
    decreases n,
{
    if n >= 10 {
        push_decimal(out, n / 10);
    }
    let d: usize = n % 10;
    assert(d < 10);
    let b: u8 = d as u8;
    assert(b < 10);
    let c: u8 = b + 48;
    out.push(c as char);
    proof {
        if n >= 10 {
            assert(decimal(n as nat) == decimal((n / 10) as nat).push(digit_char((n % 10) as int)));
        }
        assert(final(out)@ =~= old(out)@ + decimal(n as nat));
    }
}

/// Whether `s` begins with the characters of `prefix`.
pub fn starts_with_str(s: &Vec<char>, prefix: &str) -> (r: bool)
    ensures
        r == prefix@.is_prefix_of(s@),
{
    let p = chars_of(prefix);
    if p.len() > s.len() {
        return false;
    }
    let mut k: usize = 0;
    while k < p.len()
        invariant
            p@ == prefix@,
            p@.len() <= s@.len(),
            k <= p@.len(),
            forall|t: int| 0 <= t < k ==> p@[t] == s@[t],
        decreases p@.len() - k,
    {
        if p[k] != s[k] {
            assert(p@[k as int] != s@.subrange(0, p@.len() as int)[k as int]);
            return false;
        }
        k += 1;
    }
    assert(p@ =~= s@.subrange(0, p@.len() as int));
    true
}

/// Whether `s` ends with the characters of `suffix`.
pub fn ends_with_str(s: &Vec<char>, suffix: &str) -> (r: bool)
    ensures
        r == suffix@.is_suffix_of(s@),
{
    let p = chars_of(suffix);
    if p.len() > s.len() {
        return false;
    }
    let off = s.len() - p.len();
    let mut k: usize = 0;
    while k < p.len()
        invariant
            p@ == suffix@,
            off == s@.len() - p@.len(),
            p@.len() <= s@.len(),
            s@.len() == s.len(),
            k <= p@.len(),
            forall|t: int| 0 <= t < k ==> p@[t] == s@[off + t],
        decreases p@.len() - k,
    {
        if p[k] != s[off + k] {
            assert(p@[k as int] != s@.subrange(off as int, s@.len() as int)[k as int]);
            return false;
        }
        k += 1;
    }
    assert(p@ =~= s@.subrange(off as int, s@.len() as int));
    true
}

/// Whether `s` holds the character `c`.
pub fn contains_char(s: &Vec<char>, c: char) -> (r: bool)
    ensures
        r == s@.contains(c),
{
    let mut k: usize = 0;
    while k < s.len()
        invariant
            k <= s@.len(),
            forall|t: int| 0 <= t < k ==> s@[t] != c,
        decreases s@.len() - k,
    {
        if s[k] == c {
            return true;
        }
        k += 1;
    }
    false
}

/// `s` without its leading whitespace (`str::trim_start`).
pub open spec fn trim_start(s: Seq<char>) -> Seq<char>
    decreases s.len(),
{
    if s.len() > 0 && is_unicode_ws(s[0]) {
        trim_start(s.drop_first())
    } else {
        s
    }
}

/// `s` without its trailing whitespace (`str::trim_end`).
pub open spec fn trim_end(s: Seq<char>) -> Seq<char>
    decreases s.len(),
{
    if s.len() > 0 && is_unicode_ws(s.last()) {
        trim_end(s.drop_last())
    } else {
        s
    }
}

/// `s` without leading and trailing whitespace (`str::trim`).
pub open spec fn trim(s: Seq<char>) -> Seq<char> {
    trim_end(trim_start(s))
}

proof fn lemma_trim_start_skip(s: Seq<char>, k: int)
    requires
        0 <= k <= s.len(),
        forall|t: int| 0 <= t < k ==> is_unicode_ws(s[t]),
    ensures
        trim_start(s) == trim_start(s.skip(k)),
    decreases k,
{
    if k > 0 {
        lemma_trim_start_skip(s.drop_first(), k - 1);
        assert(s.drop_first().skip(k - 1) =~= s.skip(k));
    } else {
        assert(s.skip(0) =~= s);
    }
}

proof fn lemma_trim_end_take(s: Seq<char>, k: int)
    requires
        0 <= k <= s.len(),
        forall|t: int| k <= t < s.len() ==> is_unicode_ws(s[t]),
    ensures
        trim_end(s) == trim_end(s.take(k)),
    decreases s.len() - k,
{
    if k < s.len() {
        lemma_trim_end_take(s.drop_last(), k);
        assert(s.drop_last().take(k) =~= s.take(k));
    } else {
        assert(s.take(k) =~= s);
    }
}

/// The characters of `s` without leading and trailing whitespace.
pub fn trim_chars(s: &Vec<char>) -> (r: Vec<char>)
    ensures
        r@ == trim(s@),
{
    let mut lo: usize = 0;
    while lo < s.len() && is_unicode_ws_exec(s[lo])
        invariant
            lo <= s@.len(),
            forall|t: int| 0 <= t < lo ==> is_unicode_ws(s@[t]),
        decreases s@.len() - lo,
    {
        lo += 1;
    }
    proof {
        lemma_trim_start_skip(s@, lo as int);
    }
    let ghost rest = s@.skip(lo as int);
    let mut hi: usize = s.len();
    while hi > lo && is_unicode_ws_exec(s[hi - 1])
        invariant
            lo <= hi <= s@.len(),
            rest == s@.skip(lo as int),
            forall|t: int| hi - lo <= t < rest.len() ==> is_unicode_ws(rest[t]),
        decreases hi,
    {
        hi -= 1;
    }
    proof {
        if lo < s@.len() {
            assert(!is_unicode_ws(rest[0]));
        }
        assert(trim_start(rest) == rest);
        lemma_trim_end_take(rest, hi - lo);
        if hi > lo {
            assert(!is_unicode_ws(rest.take(hi - lo).last()));
        }
    }
    let mut r: Vec<char> = Vec::new();
    let mut k = lo;
    while k < hi
        invariant
            lo <= k <= hi <= s@.len(),
            r@ == s@.subrange(lo as int, k as int),
        decreases hi - k,
    {
        r.push(s[k]);
        k += 1;
        assert(r@ =~= s@.subrange(lo as int, k as int));
    }
    assert(r@ =~= rest.take(hi - lo));
    r
}

/// Bytes in the UTF-8 encoding of `c`.
pub open spec fn char_len(c: char) -> int {
    if (c as u32) < 0x80 {
        1
    } else if (c as u32) < 0x800 {
        2
    } else if (c as u32) < 0x10000 {
        3
    } else {
        4
    }
}

/// Bytes in the UTF-8 encoding of `s`.
pub open spec fn byte_len(s: Seq<char>) -> int
    decreases s.len(),
{
    if s.len() == 0 {
        0
    } else {
        byte_len(s.drop_last()) + char_len(s.last())
    }
}

pub fn char_len_exec(c: char) -> (r: usize)
    ensures
        r as int == char_len(c),
        1 <= r <= 4,
{
    let u = c as u32;
    if u < 0x80 {
        1
    } else if u < 0x800 {
        2
    } else if u < 0x10000 {
        3
    } else {
        4
    }
}

pub proof fn lemma_byte_len_monotone(s: Seq<char>, k: int, j: int)
    requires
        0 <= k <= j <= s.len(),
    ensures
        byte_len(s.take(k)) + (j - k) <= byte_len(s.take(j)),
    decreases j - k,
{
    if k < j {
        lemma_byte_len_monotone(s, k, j - 1);
        assert(s.take(j).drop_last() =~= s.take(j - 1));
    }
}


/// Whether the characters of `v` are exactly those of `s`.
pub fn eq_str(v: &Vec<char>, s: &str) -> (r: bool)
    ensures
        r == (v@ == s@),
{
    let p = chars_of(s);
    chars_equal(v, &p)
}


/// Every whitespace character of `t` is a space and no two are adjacent.
pub open spec fn single_spaced(t: Seq<char>) -> bool {
    forall|i: int|
        0 <= i < t.len() && is_ascii_ws(#[trigger] t[i]) ==> t[i] == ' ' && (i + 1 < t.len() ==> !is_ascii_ws(t[i + 1]))
}

proof fn lemma_collapse_state_shape(s: Seq<char>)
    ensures
        single_spaced(collapse_state(s).0),
        collapse_state(s).1 <==> (collapse_state(s).0.len() > 0 && collapse_state(s).0.last() == ' '),
    decreases s.len(),
{
    if s.len() > 0 {
        lemma_collapse_state_shape(s.drop_last());
        let prev = collapse_state(s.drop_last());
        let out = collapse_state(s).0;
        assert forall|i: int| 0 <= i < out.len() && is_ascii_ws(#[trigger] out[i]) implies out[i] == ' ' && (i + 1
            < out.len() ==> !is_ascii_ws(out[i + 1])) by {
            if i < prev.0.len() {
                assert(out[i] == prev.0[i]);
                if i + 1 < prev.0.len() {
                    assert(out[i + 1] == prev.0[i + 1]);
                }
            }
        }
    }
}

/// Collapsing whitespace leaves only single spaces: every whitespace
/// character of the result is a space, and no two are adjacent.
pub proof fn law_collapse_single_spaced(s: Seq<char>)
    ensures
        single_spaced(collapse(s)),
{
    lemma_collapse_state_shape(s);
}

proof fn lemma_collapse_state_fixed(t: Seq<char>)
    requires
        single_spaced(t),
    ensures
        collapse_state(t) == (t, t.len() > 0 && t.last() == ' '),
    decreases t.len(),
{
    if t.len() > 0 {
        let u = t.drop_last();
        assert forall|i: int| 0 <= i < u.len() && is_ascii_ws(#[trigger] u[i]) implies u[i] == ' ' && (i + 1 < u.len()
            ==> !is_ascii_ws(u[i + 1])) by {
            assert(t[i] == u[i]);
            if i + 1 < u.len() {
                assert(t[i + 1] == u[i + 1]);
            }
        }
        lemma_collapse_state_fixed(u);
        if is_ascii_ws(t.last()) && u.len() > 0 {
            assert(is_ascii_ws(t[u.len() - 1]) ==> !is_ascii_ws(t[u.len() as int]));
            assert(t[u.len() - 1] == u.last());
        }
        assert(u.push(t.last()) =~= t);
    }
}

/// Collapsing whitespace is idempotent.
pub proof fn law_collapse_idempotent(s: Seq<char>)
    ensures
        collapse(collapse(s)) == collapse(s),
{
    lemma_collapse_state_shape(s);
    lemma_collapse_state_fixed(collapse(s));
}

/// The characters of `s` that are not ASCII whitespace, in order.
pub open spec fn non_ws(s: Seq<char>) -> Seq<char>
    decreases s.len(),
{
    if s.len() == 0 {
        Seq::empty()
    } else if is_ascii_ws(s.last()) {
        non_ws(s.drop_last())
    } else {
        non_ws(s.drop_last()).push(s.last())
    }
}

/// Collapsing whitespace keeps every other character as it is, in order:
/// only whitespace changes.
pub proof fn law_collapse_keeps_text(s: Seq<char>)
    ensures
        non_ws(collapse(s)) == non_ws(s),
    decreases s.len(),
{
    if s.len() > 0 {
        law_collapse_keeps_text(s.drop_last());
        let prev = collapse_state(s.drop_last()).0;
        let c = s.last();
        if is_ascii_ws(c) {
            assert(prev.push(' ').drop_last() =~= prev);
            assert(is_ascii_ws(' '));
        } else {
            assert(prev.push(c).drop_last() =~= prev);
        }
    }
}

/// Lowercasing changes only ASCII capitals, each to its small letter.
pub proof fn law_lower_all(s: Seq<char>)
    ensures
        lower_all(s).len() == s.len(),
        forall|i: int| 0 <= i < s.len() ==> {
            let c = #[trigger] s[i];
            &&& (!('A' <= c && c <= 'Z') ==> lower_all(s)[i] == c)
            &&& ('A' <= c && c <= 'Z' ==> lower_all(s)[i] as u32 == c as u32 + 32 && 'a' <= lower_all(s)[i]
                && lower_all(s)[i] <= 'z')
        },
{
    assert forall|i: int| 0 <= i < s.len() implies {
        let c = #[trigger] s[i];
        &&& (!('A' <= c && c <= 'Z') ==> lower_all(s)[i] == c)
        &&& ('A' <= c && c <= 'Z' ==> lower_all(s)[i] as u32 == c as u32 + 32 && 'a' <= lower_all(s)[i]
            && lower_all(s)[i] <= 'z')
    } by {
        assert(lower_all(s)[i] == ascii_lower(s[i]));
    }
}

} // verus!

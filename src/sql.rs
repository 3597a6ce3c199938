//! Statement bodies: finding bind parameters outside quoted text and
//! rewriting them to positional placeholders.
use vstd::prelude::*;
use crate::parsed::Parsed;
use crate::text::{as_int, chars_of, ident_at, lemma_ident_tail, scan_ident, string_of};

verus! {

/// First position at or after `j` that holds `c`.
pub open spec fn next_char(t: Seq<char>, j: int, c: char) -> Option<int>
    decreases t.len() - j,
{
    if j < 0 || j >= t.len() {
        None
    } else if t[j] == c {
        Some(j)
    } else {
        next_char(t, j + 1, c)
    }
}

/// First position at or after `k` where `pat` occurs.
pub open spec fn find_seq(t: Seq<char>, k: int, pat: Seq<char>) -> Option<int>
    decreases t.len() + 1 - k,
{
    if k < 0 || k + pat.len() > t.len() {
        None
    } else if t.subrange(k, k + pat.len()) == pat {
        Some(k)
    } else {
        find_seq(t, k + 1, pat)
    }
}

/// A literal opened by `q` at `i` runs to the next `q`; gives the position after it.
pub open spec fn quoted_end(t: Seq<char>, i: int, q: char) -> Option<int> {
    match next_char(t, i + 1, q) {
        Some(k) => Some(k + 1),
        None => None,
    }
}

/// Inside an escaped string: `\'` and `''` are taken as pairs, any other
/// character but `'` alone.
pub open spec fn escaped_body_end(t: Seq<char>, j: int) -> int
    decreases t.len() - j,
{
    if j < 0 || j >= t.len() {
        j
    } else if j + 1 < t.len() && (t[j] == '\\' || t[j] == '\'') && t[j + 1] == '\'' {
        escaped_body_end(t, j + 2)
    } else if t[j] != '\'' {
        escaped_body_end(t, j + 1)
    } else {
        j
    }
}

/// An escaped string `E'...'` (or `e'...'`) at `i`.
pub open spec fn escaped_end(t: Seq<char>, i: int) -> Option<int> {
    if 0 <= i && i + 1 < t.len() && (t[i] == 'e' || t[i] == 'E') && t[i + 1] == '\'' {
        let k = escaped_body_end(t, i + 2);
        if k < t.len() && t[k] == '\'' {
            Some(k + 1)
        } else {
            None
        }
    } else {
        None
    }
}

/// A dollar-quoted string at `i`: `$tag$`, then anything up to the first
/// repetition of the same `$tag$`.
pub open spec fn dollar_end(t: Seq<char>, i: int) -> Option<int> {
    match next_char(t, i + 1, '$') {
        Some(j) => match find_seq(t, j + 1, t.subrange(i, j + 1)) {
            Some(k) => Some(k + (j + 1 - i)),
            None => None,
        },
        None => None,
    }
}

/// One piece of text that cannot hold a bind parameter, starting at `i`: a quoted
/// literal of one of the four kinds, or one ordinary character. `None` where
/// none of them starts there (a `:`, a literal that is not closed).
pub open spec fn piece_end(t: Seq<char>, i: int) -> Option<int> {
    if i < 0 || i >= t.len() {
        None
    } else if escaped_end(t, i) is Some {
        escaped_end(t, i)
    } else if t[i] == '\'' {
        quoted_end(t, i, '\'')
    } else if t[i] == '"' {
        quoted_end(t, i, '"')
    } else if t[i] == '$' {
        dollar_end(t, i)
    } else if t[i] == 'e' || t[i] == 'E' {
        if i + 1 < t.len() && t[i + 1] != '\'' {
            Some(i + 1)
        } else {
            None
        }
    } else if t[i] != ':' {
        Some(i + 1)
    } else {
        None
    }
}

/// The bind parameters of `t` from `i` on, appended to `acc` as the spans of their
/// names. A bind parameter is `:` and an identifier, outside quoted text and not
/// right after another one. The scan ends at the end of `t`, or where it meets
/// something it cannot read on (a `:` without a name, an unclosed literal).
pub open spec fn binds_from(t: Seq<char>, i: int, after_bind: bool, acc: Seq<(int, int)>) -> Seq<(int, int)>
    decreases t.len() - i via binds_from_decreases
{
    if i < 0 || i >= t.len() {
        acc
    } else if t[i] == ':' {
        if !after_bind && ident_at(t, i + 1) is Some {
            let e = ident_at(t, i + 1)->Some_0;
            binds_from(t, e, true, acc.push((i + 1, e)))
        } else {
            acc
        }
    } else {
        match piece_end(t, i) {
            Some(e) => binds_from(t, e, false, acc),
            None => acc,
        }
    }
}

pub open spec fn bind_spans(t: Seq<char>) -> Seq<(int, int)> {
    binds_from(t, 0, false, Seq::empty())
}

#[via_fn]
proof fn binds_from_decreases(t: Seq<char>, i: int, after_bind: bool, acc: Seq<(int, int)>) {
    if 0 <= i < t.len() {
        if t[i] == ':' {
            if !after_bind && ident_at(t, i + 1) is Some {
                lemma_ident_tail(t, i + 2);
            }
        } else {
            lemma_piece_end(t, i);
        }
    }
}

/// Strict lexicographic order of character sequences.
pub open spec fn seq_lt(a: Seq<char>, b: Seq<char>) -> bool
    decreases a.len(),
{
    if a.len() == 0 {
        b.len() > 0
    } else if b.len() == 0 {
        false
    } else if a[0] != b[0] {
        a[0] < b[0]
    } else {
        seq_lt(a.drop_first(), b.drop_first())
    }
}

/// How many distinct names among `names[0..k]` sort strictly before `n`.
pub open spec fn distinct_below(names: Seq<Seq<char>>, n: Seq<char>, k: int) -> nat
    decreases k,
{
    if k <= 0 || k > names.len() {
        0
    } else {
        distinct_below(names, n, k - 1) + if seq_lt(names[k - 1], n) && !names.subrange(
            0,
            k - 1,
        ).contains(names[k - 1]) {
            1nat
        } else {
            0nat
        }
    }
}

/// The placeholder number of `n`: one more than the number of distinct names that
/// sort before it, i.e. its place in the sorted list of distinct names, from 1.
pub open spec fn placeholder_index(names: Seq<Seq<char>>, n: Seq<char>) -> nat {
    distinct_below(names, n, names.len() as int) + 1
}

pub open spec fn digit(d: nat) -> char {
    ((d + 48) as u8) as char
}

/// Decimal digits of `n`.
pub open spec fn decimal(n: nat) -> Seq<char>
    decreases n,
{
    if n < 10 {
        seq![digit(n)]
    } else {
        decimal(n / 10) + seq![digit(n % 10)]
    }
}

pub open spec fn span_names(t: Seq<char>, spans: Seq<(int, int)>) -> Seq<Seq<char>> {
    spans.map_values(|p: (int, int)| t.subrange(p.0, p.1))
}

/// `t` from `from` on, where each of `spans[k..]` has its `:name` replaced by
/// `$` and the placeholder number of its name.
pub open spec fn rewrite_from(t: Seq<char>, spans: Seq<(int, int)>, k: int, from: int) -> Seq<char>
    decreases spans.len() - k,
{
    if k < 0 || k >= spans.len() {
        t.subrange(from, t.len() as int)
    } else {
        t.subrange(from, spans[k].0 - 1) + seq!['$'] + decimal(
            placeholder_index(span_names(t, spans), t.subrange(spans[k].0, spans[k].1)),
        ) + rewrite_from(t, spans, k + 1, spans[k].1)
    }
}

/// The statement `t` with every bind parameter rewritten to its placeholder.
pub open spec fn canonical_sql(t: Seq<char>) -> Seq<char> {
    rewrite_from(t, bind_spans(t), 0, 0)
}

pub proof fn lemma_next_char(t: Seq<char>, j: int, c: char)
    requires
        0 <= j,
    ensures
        next_char(t, j, c) matches Some(k) ==> j <= k < t.len() && t[k] == c,
    decreases t.len() - j,
{
    if j < t.len() && t[j] != c {
        lemma_next_char(t, j + 1, c);
    }
}

proof fn lemma_find_seq(t: Seq<char>, k: int, pat: Seq<char>)
    requires
        0 <= k,
    ensures
        find_seq(t, k, pat) matches Some(m) ==> k <= m && m + pat.len() <= t.len(),
    decreases t.len() + 1 - k,
{
    if k + pat.len() <= t.len() && t.subrange(k, k + pat.len()) != pat {
        lemma_find_seq(t, k + 1, pat);
    }
}

proof fn lemma_escaped_body_end(t: Seq<char>, j: int)
    requires
        0 <= j <= t.len(),
    ensures
        j <= escaped_body_end(t, j) <= t.len(),
    decreases t.len() - j,
{
    if j < t.len() {
        if j + 1 < t.len() && (t[j] == '\\' || t[j] == '\'') && t[j + 1] == '\'' {
            lemma_escaped_body_end(t, j + 2);
        } else if t[j] != '\'' {
            lemma_escaped_body_end(t, j + 1);
        }
    }
}

proof fn lemma_piece_end(t: Seq<char>, i: int)
    requires
        0 <= i < t.len(),
    ensures
        piece_end(t, i) matches Some(e) ==> i < e <= t.len(),
{
    if 0 <= i && i + 1 < t.len() && (t[i] == 'e' || t[i] == 'E') && t[i + 1] == '\'' {
        lemma_escaped_body_end(t, i + 2);
    }
    lemma_next_char(t, i + 1, '\'');
    lemma_next_char(t, i + 1, '"');
    lemma_next_char(t, i + 1, '$');
    if let Some(j) = next_char(t, i + 1, '$') {
        lemma_find_seq(t, j + 1, t.subrange(i, j + 1));
    }
}

} // verus!

verus! {

pub(crate) fn find_char(t: &Vec<char>, j: usize, c: char) -> (r: Option<usize>)
    requires
        j <= t.len(),
    ensures
        as_int(r) == next_char(t@, j as int, c),
        r matches Some(k) ==> j <= k < t.len(),
{
    let mut k: usize = j;
    while k < t.len()
        invariant
            j <= k <= t.len(),
            next_char(t@, k as int, c) == next_char(t@, j as int, c),
        decreases t.len() - k,
    {
        if t[k] == c {
            return Some(k);
        }
        k = k + 1;
    }
    None
}

/// Whether `t[m..m + n]` equals `t[p..p + n]`.
fn same_at(t: &Vec<char>, m: usize, p: usize, n: usize) -> (r: bool)
    requires
        m + n <= t.len(),
        p + n <= t.len(),
    ensures
        r == (t@.subrange(m as int, m + n) == t@.subrange(p as int, p + n)),
{
    let mut q: usize = 0;
    while q < n
        invariant
            q <= n,
            m + n <= t.len(),
            p + n <= t.len(),
            forall|x: int|
                0 <= x < q ==> #[trigger] t@.subrange(m as int, m + n)[x] == t@.subrange(
                    p as int,
                    p + n,
                )[x],
        decreases n - q,
    {
        if t[m + q] != t[p + q] {
            assert(t@.subrange(m as int, m + n)[q as int] != t@.subrange(p as int, p + n)[q as int]);
            return false;
        }
        q = q + 1;
    }
    assert(t@.subrange(m as int, m + n) =~= t@.subrange(p as int, p + n));
    true
}

/// First occurrence at or after `k` of `t[a..b]`.
fn find_pattern(t: &Vec<char>, k: usize, a: usize, b: usize) -> (r: Option<usize>)
    requires
        k <= t.len(),
        a <= b <= t.len(),
    ensures
        as_int(r) == find_seq(t@, k as int, t@.subrange(a as int, b as int)),
{
    let ghost pat = t@.subrange(a as int, b as int);
    let n = b - a;
    if n == 0 {
        assert(t@.subrange(k as int, k as int) =~= pat);
        return Some(k);
    }
    let mut m: usize = k;
    while m <= t.len() && n <= t.len() - m
        invariant
            k <= m <= t.len(),
            a + n == b <= t.len(),
            pat == t@.subrange(a as int, b as int),
            n == pat.len(),
            n > 0,
            find_seq(t@, m as int, pat) == find_seq(t@, k as int, pat),
        decreases t.len() - m,
    {
        if same_at(t, m, a, n) {
            return Some(m);
        }
        m = m + 1;
    }
    None
}

fn escaped_body(t: &Vec<char>, j: usize) -> (r: usize)
    requires
        j <= t.len(),
    ensures
        r == escaped_body_end(t@, j as int),
{
    let mut k: usize = j;
    while k < t.len()
        invariant
            j <= k <= t.len(),
            escaped_body_end(t@, k as int) == escaped_body_end(t@, j as int),
        decreases t.len() - k,
    {
        if t.len() - k > 1 && (t[k] == '\\' || t[k] == '\'') && t[k + 1] == '\'' {
            k = k + 2;
        } else if t[k] != '\'' {
            k = k + 1;
        } else {
            return k;
        }
    }
    k
}

fn piece(t: &Vec<char>, i: usize) -> (r: Option<usize>)
    requires
        i < t.len(),
    ensures
        as_int(r) == piece_end(t@, i as int),
{
    let c = t[i];
    if (c == 'e' || c == 'E') && t.len() - i > 1 && t[i + 1] == '\'' {
        let k = escaped_body(t, i + 2);
        if k < t.len() && t[k] == '\'' {
            return Some(k + 1);
        }
    }
    if c == '\'' || c == '"' {
        match find_char(t, i + 1, c) {
            Some(k) => Some(k + 1),
            None => None,
        }
    } else if c == '$' {
        match find_char(t, i + 1, '$') {
            Some(j) => {
                proof {
                    lemma_next_char(t@, i + 1, '$');
                }
                match find_pattern(t, j + 1, i, j + 1) {
                    Some(k) => {
                        proof {
                            lemma_find_seq(t@, j + 1, t@.subrange(i as int, j + 1));
                        }
                        Some(k + (j + 1 - i))
                    },
                    None => None,
                }
            },
            None => None,
        }
    } else if c == 'e' || c == 'E' {
        if t.len() - i > 1 && t[i + 1] != '\'' {
            Some(i + 1)
        } else {
            None
        }
    } else if c != ':' {
        Some(i + 1)
    } else {
        None
    }
}

} // verus!

verus! {

pub open spec fn spans_int(v: Seq<(usize, usize)>) -> Seq<(int, int)> {
    v.map_values(|p: (usize, usize)| (p.0 as int, p.1 as int))
}

/// Name spans that each follow a `:` and come in order, with no overlap, before `hi`.
pub open spec fn spans_ordered(t: Seq<char>, spans: Seq<(int, int)>, hi: int) -> bool {
    &&& forall|k: int|
        0 <= k < spans.len() ==> 1 <= (#[trigger] spans[k]).0 < spans[k].1 <= hi && t[spans[k].0
            - 1] == ':'
    &&& forall|k: int| 0 < k < spans.len() ==> spans[k - 1].1 < (#[trigger] spans[k]).0
}

proof fn lemma_binds_ordered(t: Seq<char>, i: int, after_bind: bool, acc: Seq<(int, int)>)
    requires
        0 <= i <= t.len(),
        spans_ordered(t, acc, i),
    ensures
        spans_ordered(t, binds_from(t, i, after_bind, acc), t.len() as int),
    decreases t.len() - i,
{
    if i < t.len() {
        if t[i] == ':' {
            if !after_bind && ident_at(t, i + 1) is Some {
                let e = ident_at(t, i + 1)->Some_0;
                lemma_ident_tail(t, i + 2);
                let acc2 = acc.push((i + 1, e));
                assert forall|k: int| 0 < k < acc2.len() implies acc2[k - 1].1 < (
                #[trigger] acc2[k]).0 by {
                    if k < acc.len() {
                        assert(acc2[k - 1] == acc[k - 1] && acc2[k] == acc[k]);
                    }
                }
                lemma_binds_ordered(t, e, true, acc2);
            }
        } else {
            lemma_piece_end(t, i);
            if let Some(e) = piece_end(t, i) {
                lemma_binds_ordered(t, e, false, acc);
            }
        }
    }
}

/// The spans of the bind parameters' names in `t`.
fn scan_binds(t: &Vec<char>) -> (r: Vec<(usize, usize)>)
    ensures
        spans_int(r@) == bind_spans(t@),
        spans_ordered(t@, bind_spans(t@), t@.len() as int),
{
    proof {
        lemma_binds_ordered(t@, 0, false, Seq::empty());
    }
    let mut acc: Vec<(usize, usize)> = Vec::new();
    let mut i: usize = 0;
    let mut after_bind = false;
    assert(spans_int(acc@) =~= Seq::empty());
    while i < t.len()
        invariant
            i <= t.len(),
            binds_from(t@, i as int, after_bind, spans_int(acc@)) == bind_spans(t@),
            spans_ordered(t@, bind_spans(t@), t@.len() as int),
        decreases t.len() - i,
    {
        if t[i] == ':' {
            if after_bind {
                return acc;
            }
            match scan_ident(t, i + 1) {
                Some(e) => {
                    proof {
                        lemma_ident_tail(t@, i + 2);
                    }
                    let ghost before = spans_int(acc@);
                    acc.push((i + 1, e));
                    assert(spans_int(acc@) =~= before.push((i + 1, e as int)));
                    i = e;
                    after_bind = true;
                },
                None => {
                    return acc;
                },
            }
        } else {
            proof {
                lemma_piece_end(t@, i as int);
            }
            match piece(t, i) {
                Some(e) => {
                    i = e;
                    after_bind = false;
                },
                None => {
                    return acc;
                },
            }
        }
    }
    acc
}

/// Whether `t[a.0..a.1]` equals `t[b.0..b.1]`.
fn span_eq(t: &Vec<char>, a: (usize, usize), b: (usize, usize)) -> (r: bool)
    requires
        a.0 <= a.1 <= t.len(),
        b.0 <= b.1 <= t.len(),
    ensures
        r == (t@.subrange(a.0 as int, a.1 as int) == t@.subrange(b.0 as int, b.1 as int)),
{
    if a.1 - a.0 != b.1 - b.0 {
        assert(t@.subrange(a.0 as int, a.1 as int).len() != t@.subrange(b.0 as int, b.1 as int).len());
        return false;
    }
    same_at(t, a.0, b.0, a.1 - a.0)
}

/// Whether `t[a.0..a.1]` sorts strictly before `t[b.0..b.1]`.
fn span_lt(t: &Vec<char>, a: (usize, usize), b: (usize, usize)) -> (r: bool)
    requires
        a.0 <= a.1 <= t.len(),
        b.0 <= b.1 <= t.len(),
    ensures
        r == seq_lt(t@.subrange(a.0 as int, a.1 as int), t@.subrange(b.0 as int, b.1 as int)),
{
    let ghost x = t@.subrange(a.0 as int, a.1 as int);
    let ghost y = t@.subrange(b.0 as int, b.1 as int);
    let mut q: usize = 0;
    assert(x.subrange(0, x.len() as int) =~= x);
    assert(y.subrange(0, y.len() as int) =~= y);
    loop
        invariant
            a.0 <= a.1 <= t.len(),
            b.0 <= b.1 <= t.len(),
            x == t@.subrange(a.0 as int, a.1 as int),
            y == t@.subrange(b.0 as int, b.1 as int),
            q <= x.len(),
            q <= y.len(),
            seq_lt(x, y) == seq_lt(
                x.subrange(q as int, x.len() as int),
                y.subrange(q as int, y.len() as int),
            ),
        decreases x.len() - q,
    {
        let ghost xs = x.subrange(q as int, x.len() as int);
        let ghost ys = y.subrange(q as int, y.len() as int);
        if q == a.1 - a.0 {
            return q < b.1 - b.0;
        }
        if q == b.1 - b.0 {
            return false;
        }
        let c = t[a.0 + q];
        let d = t[b.0 + q];
        assert(xs[0] == c && ys[0] == d);
        if c != d {
            return c < d;
        }
        assert(xs.drop_first() =~= x.subrange(q + 1, x.len() as int));
        assert(ys.drop_first() =~= y.subrange(q + 1, y.len() as int));
        q = q + 1;
    }
}

/// Whether the name at `spans[j]` already occurs at an earlier index.
fn seen_before(t: &Vec<char>, spans: &Vec<(usize, usize)>, j: usize) -> (r: bool)
    requires
        j < spans.len(),
        spans_ordered(t@, spans_int(spans@), t@.len() as int),
    ensures
        r == span_names(t@, spans_int(spans@)).subrange(0, j as int).contains(
            span_names(t@, spans_int(spans@))[j as int],
        ),
{
    let ghost names = span_names(t@, spans_int(spans@));
    let mut m: usize = 0;
    while m < j
        invariant
            j < spans.len(),
            m <= j,
            names == span_names(t@, spans_int(spans@)),
            spans_ordered(t@, spans_int(spans@), t@.len() as int),
            forall|x: int| 0 <= x < m ==> names[x] != names[j as int],
        decreases j - m,
    {
        proof {
            lemma_span_at(t@, spans@, m as int);
            lemma_span_at(t@, spans@, j as int);
        }
        if span_eq(t, spans[m], spans[j]) {
            assert(names.subrange(0, j as int)[m as int] == names[j as int]);
            return true;
        }
        m = m + 1;
    }
    assert(!names.subrange(0, j as int).contains(names[j as int]));
    false
}

proof fn lemma_seq_lt_irreflexive(a: Seq<char>)
    ensures
        !seq_lt(a, a),
    decreases a.len(),
{
    if a.len() > 0 {
        lemma_seq_lt_irreflexive(a.drop_first());
    }
}

proof fn lemma_span_at(t: Seq<char>, spans: Seq<(usize, usize)>, k: int)
    requires
        0 <= k < spans.len(),
        spans_ordered(t, spans_int(spans), t.len() as int),
    ensures
        spans_int(spans)[k] == (spans[k].0 as int, spans[k].1 as int),
        1 <= spans[k].0 < spans[k].1 <= t.len(),
        span_names(t, spans_int(spans))[k] == t.subrange(spans[k].0 as int, spans[k].1 as int),
{
    assert(spans_int(spans)[k] == (spans[k].0 as int, spans[k].1 as int));
}

/// The placeholder number of the name at `spans[k]`.
fn placeholder(t: &Vec<char>, spans: &Vec<(usize, usize)>, k: usize) -> (r: usize)
    requires
        k < spans.len(),
        spans_ordered(t@, spans_int(spans@), t@.len() as int),
    ensures
        r as nat == placeholder_index(
            span_names(t@, spans_int(spans@)),
            t@.subrange(spans@[k as int].0 as int, spans@[k as int].1 as int),
        ),
{
    let ghost names = span_names(t@, spans_int(spans@));
    let ghost n = t@.subrange(spans@[k as int].0 as int, spans@[k as int].1 as int);
    assert(spans_int(spans@)[k as int] == (spans@[k as int].0 as int, spans@[k as int].1 as int));
    let mut count: usize = 0;
    let mut j: usize = 0;
    while j < spans.len()
        invariant
            k < spans.len(),
            j <= spans.len(),
            count <= j,
            j > k ==> count < j,
            names == span_names(t@, spans_int(spans@)),
            n == t@.subrange(spans@[k as int].0 as int, spans@[k as int].1 as int),
            spans_ordered(t@, spans_int(spans@), t@.len() as int),
            count as nat == distinct_below(names, n, j as int),
        decreases spans.len() - j,
    {
        proof {
            lemma_span_at(t@, spans@, j as int);
            lemma_span_at(t@, spans@, k as int);
        }
        let lt = span_lt(t, spans[j], spans[k]);
        proof {
            lemma_seq_lt_irreflexive(n);
        }
        let seen = seen_before(t, spans, j);
        assert(distinct_below(names, n, j + 1) == distinct_below(names, n, j as int) + if seq_lt(
            names[j as int],
            n,
        ) && !names.subrange(0, j as int).contains(names[j as int]) {
            1nat
        } else {
            0nat
        });
        if lt && !seen {
            count = count + 1;
        }
        j = j + 1;
    }
    count + 1
}

/// Appends the decimal digits of `n`.
fn push_decimal(out: &mut Vec<char>, n: usize)
    ensures
        final(out)@ == old(out)@ + decimal(n as nat),
    decreases n,
{
    if n >= 10 {
        push_decimal(out, n / 10);
    }
    let d = (n % 10) as u8;
    out.push((d + 48) as char);
    assert(final(out)@ =~= old(out)@ + decimal(n as nat));
}

/// Appends `t[a..b]`.
pub(crate) fn push_range(out: &mut Vec<char>, t: &Vec<char>, a: usize, b: usize)
    requires
        a <= b <= t.len(),
    ensures
        final(out)@ == old(out)@ + t@.subrange(a as int, b as int),
{
    let mut i: usize = a;
    while i < b
        invariant
            a <= i <= b <= t.len(),
            out@ == old(out)@ + t@.subrange(a as int, i as int),
        decreases b - i,
    {
        out.push(t[i]);
        assert(t@.subrange(a as int, i + 1) =~= t@.subrange(a as int, i as int).push(t@[i as int]));
        i = i + 1;
    }
}

} // verus!

verus! {

/// A statement body in canonical form.
#[derive(Debug)]
pub struct QuerySql {
    /// The statement with each bind parameter replaced by `$` and its placeholder number.
    pub sql_str: String,
    /// Every bind parameter, in order of appearance and with repeats, with the span
    /// of its name in the file.
    pub bind_params: Vec<Parsed<String>>,
}

/// `ps` are the bind parameters of the statement `t`, whose first character
/// stands at `offset` in the file.
pub open spec fn binds_of(ps: Seq<Parsed<String>>, t: Seq<char>, offset: int) -> bool {
    let spans = bind_spans(t);
    &&& ps.len() == spans.len()
    &&& forall|k: int|
        0 <= k < ps.len() ==> (#[trigger] ps[k]).start == offset + spans[k].0 && ps[k].end
            == offset + spans[k].1 && ps[k].value@ == t.subrange(spans[k].0, spans[k].1)
}

impl QuerySql {
    /// This is the canonical form of the statement `t` found at `offset`.
    pub open spec fn describes(&self, t: Seq<char>, offset: int) -> bool {
        &&& self.sql_str@ == canonical_sql(t)
        &&& binds_of(self.bind_params@, t, offset)
    }

    /// Canonical form of the statement `t` (without its `;`), which stands at
    /// `offset` in its file.
    pub fn from_chars(t: &Vec<char>, offset: usize) -> (r: QuerySql)
        requires
            offset + t.len() <= usize::MAX,
        ensures
            r.describes(t@, offset as int),
    {
        let spans = scan_binds(t);
        let ghost sp = bind_spans(t@);
        let mut out: Vec<char> = Vec::new();
        let mut params: Vec<Parsed<String>> = Vec::new();
        let mut from: usize = 0;
        let mut k: usize = 0;
        assert(out@ + rewrite_from(t@, sp, 0, 0) =~= canonical_sql(t@));
        while k < spans.len()
            invariant
                offset + t.len() <= usize::MAX,
                sp == bind_spans(t@),
                sp == spans_int(spans@),
                spans_ordered(t@, sp, t@.len() as int),
                k <= spans.len(),
                from <= t.len(),
                k == 0 ==> from == 0,
                0 < k <= spans.len() ==> from == sp[k - 1].1,
                out@ + rewrite_from(t@, sp, k as int, from as int) == canonical_sql(t@),
                params@.len() == k,
                forall|x: int|
                    0 <= x < k ==> (#[trigger] params@[x]).start == offset + sp[x].0
                        && params@[x].end == offset + sp[x].1 && params@[x].value@
                        == t@.subrange(sp[x].0, sp[x].1),
            decreases spans.len() - k,
        {
            proof {
                lemma_span_at(t@, spans@, k as int);
            }
            let (a, b) = spans[k];
            let ghost before = out@;
            push_range(&mut out, t, from, a - 1);
            out.push('$');
            let idx = placeholder(t, &spans, k);
            push_decimal(&mut out, idx);
            assert(out@ + rewrite_from(t@, sp, k + 1, b as int) =~= before + rewrite_from(
                t@,
                sp,
                k as int,
                from as int,
            ));
            let value = string_of(t, a, b);
            params.push(Parsed { start: offset + a, end: offset + b, value });
            from = b;
            k = k + 1;
        }
        let ghost before = out@;
        push_range(&mut out, t, from, t.len());
        assert(out@ =~= before + rewrite_from(t@, sp, k as int, from as int));
        let n = out.len();
        let sql_str = string_of(&out, 0, n);
        assert(out@.subrange(0, n as int) =~= out@);
        QuerySql { sql_str, bind_params: params }
    }

    /// Canonical form of the statement `stmt` (without its `;`), which stands at
    /// `offset` in its file.
    pub fn from_statement(stmt: &str, offset: usize) -> (r: QuerySql)
        requires
            offset + stmt@.len() <= usize::MAX,
        ensures
            r.describes(stmt@, offset as int),
    {
        let t = chars_of(stmt);
        QuerySql::from_chars(&t, offset)
    }
}

} // verus!

verus! {

proof fn lemma_seq_lt_trans(x: Seq<char>, a: Seq<char>, b: Seq<char>)
    requires
        seq_lt(x, a),
        seq_lt(a, b),
    ensures
        seq_lt(x, b),
    decreases x.len(),
{
    if x.len() > 0 && x[0] == a[0] && a[0] == b[0] {
        lemma_seq_lt_trans(x.drop_first(), a.drop_first(), b.drop_first());
    }
}

proof fn lemma_prefix_contains(names: Seq<Seq<char>>, k: int, a: Seq<char>)
    requires
        0 <= k < names.len(),
    ensures
        names.subrange(0, k + 1).contains(a) <==> (names.subrange(0, k).contains(a) || names[k]
            == a),
{
    if names.subrange(0, k + 1).contains(a) {
        let w = choose|w: int| 0 <= w < k + 1 && #[trigger] names.subrange(0, k + 1)[w] == a;
        if w < k {
            assert(names.subrange(0, k)[w] == a);
        }
    }
    if names.subrange(0, k).contains(a) {
        let w = choose|w: int| 0 <= w < k && #[trigger] names.subrange(0, k)[w] == a;
        assert(names.subrange(0, k + 1)[w] == a);
    }
    if names[k] == a {
        assert(names.subrange(0, k + 1)[k] == a);
    }
}

proof fn lemma_distinct_below_gap(names: Seq<Seq<char>>, a: Seq<char>, b: Seq<char>, k: int)
    requires
        0 <= k <= names.len(),
        seq_lt(a, b),
    ensures
        distinct_below(names, b, k) >= distinct_below(names, a, k) + if names.subrange(
            0,
            k,
        ).contains(a) {
            1int
        } else {
            0int
        },
    decreases k,
{
    if k > 0 {
        lemma_distinct_below_gap(names, a, b, k - 1);
        lemma_prefix_contains(names, k - 1, a);
        lemma_seq_lt_irreflexive(a);
        let x = names[k - 1];
        if seq_lt(x, a) {
            lemma_seq_lt_trans(x, a, b);
        }
        if names.subrange(0, k - 1).contains(x) && x == a {
            assert(names.subrange(0, k - 1).contains(a));
        }
    }
}

/// Placeholder numbers follow the order of names: a name of the statement that
/// sorts before another name gets a smaller number. With equal names sharing one
/// number, the numbers are the places of the names in their sorted list without
/// repeats.
pub proof fn lemma_placeholder_order(names: Seq<Seq<char>>, a: Seq<char>, b: Seq<char>)
    requires
        names.contains(a),
        seq_lt(a, b),
    ensures
        placeholder_index(names, a) < placeholder_index(names, b),
{
    lemma_distinct_below_gap(names, a, b, names.len() as int);
    assert(names.subrange(0, names.len() as int) =~= names);
}

} // verus!

//! Character classes and the lexical scanners shared by the grammar.
use vstd::prelude::*;

verus! {

/// Relies on `str::chars`: the characters of a string, in order.
#[verifier::external_body]
pub(crate) fn chars_of(s: &str) -> (r: Vec<char>)
    ensures
        r@ == s@,
{
    s.chars().collect()
}

/// Relies on `FromIterator<&char> for String`: a string of the characters
/// `t[a..b]`, in order.
#[verifier::external_body]
pub(crate) fn string_of(t: &Vec<char>, a: usize, b: usize) -> (r: String)
    requires
        a <= b <= t.len(),
    ensures
        r@ == t@.subrange(a as int, b as int),
{
    t[a..b].iter().collect()
}

/// An optional position, as an integer.
pub open spec fn as_int(r: Option<usize>) -> Option<int> {
    match r {
        Some(k) => Some(k as int),
        None => None,
    }
}

pub open spec fn is_alpha(c: char) -> bool {
    ('a' <= c && c <= 'z') || ('A' <= c && c <= 'Z')
}

pub open spec fn is_ident_char(c: char) -> bool {
    is_alpha(c) || ('0' <= c && c <= '9') || c == '_'
}

/// The characters with the Unicode `White_Space` property.
pub open spec fn is_ws(c: char) -> bool {
    ('\u{9}' <= c && c <= '\u{d}') || c == ' ' || c == '\u{85}' || c == '\u{a0}'
        || c == '\u{1680}' || ('\u{2000}' <= c && c <= '\u{200a}') || c == '\u{2028}'
        || c == '\u{2029}' || c == '\u{202f}' || c == '\u{205f}' || c == '\u{3000}'
}

/// Whitespace that does not end a line.
pub open spec fn is_hspace(c: char) -> bool {
    is_ws(c) && c != '\n'
}

pub fn alpha(c: char) -> (r: bool)
    ensures
        r == is_alpha(c),
{
    ('a' <= c && c <= 'z') || ('A' <= c && c <= 'Z')
}

pub fn ident_char(c: char) -> (r: bool)
    ensures
        r == is_ident_char(c),
{
    alpha(c) || ('0' <= c && c <= '9') || c == '_'
}

/// Same as `char::is_whitespace`.
pub fn whitespace(c: char) -> (r: bool)
    ensures
        r == is_ws(c),
{
    ('\u{9}' <= c && c <= '\u{d}') || c == ' ' || c == '\u{85}' || c == '\u{a0}'
        || c == '\u{1680}' || ('\u{2000}' <= c && c <= '\u{200a}') || c == '\u{2028}'
        || c == '\u{2029}' || c == '\u{202f}' || c == '\u{205f}' || c == '\u{3000}'
}

/// End of the run of identifier characters that starts at `i`.
pub open spec fn ident_tail(s: Seq<char>, i: int) -> int
    decreases s.len() - i,
{
    if 0 <= i < s.len() && is_ident_char(s[i]) {
        ident_tail(s, i + 1)
    } else {
        i
    }
}

/// An identifier at `i`: an ASCII letter, then letters, digits and underscores.
/// Gives the position just past it.
pub open spec fn ident_at(s: Seq<char>, i: int) -> Option<int> {
    if 0 <= i < s.len() && is_alpha(s[i]) {
        Some(ident_tail(s, i + 1))
    } else {
        None
    }
}

/// End of the run of horizontal whitespace that starts at `i`.
pub open spec fn space_end(s: Seq<char>, i: int) -> int
    decreases s.len() - i,
{
    if 0 <= i < s.len() && is_hspace(s[i]) {
        space_end(s, i + 1)
    } else {
        i
    }
}

/// `--` that opens an ordinary comment: the next character exists and is neither
/// `:` nor `!`, which open declarations.
pub open spec fn comment_at(s: Seq<char>, i: int) -> bool {
    0 <= i && i + 2 < s.len() && s[i] == '-' && s[i + 1] == '-' && s[i + 2] != ':' && s[i
        + 2] != '!'
}

/// End of the blank region (whitespace and ordinary comments) from `i`;
/// `in_comment` says whether `i` lies inside a comment.
pub open spec fn blank_from(s: Seq<char>, i: int, in_comment: bool) -> int
    decreases s.len() - i, if in_comment { 1int } else { 0int },
{
    if i < 0 || i >= s.len() {
        i
    } else if in_comment {
        if s[i] != '\n' {
            blank_from(s, i + 1, true)
        } else {
            blank_from(s, i, false)
        }
    } else if is_ws(s[i]) {
        blank_from(s, i + 1, false)
    } else if comment_at(s, i) {
        blank_from(s, i + 2, true)
    } else {
        i
    }
}

pub open spec fn blank_end(s: Seq<char>, i: int) -> int {
    blank_from(s, i, false)
}

pub proof fn lemma_ident_tail(s: Seq<char>, i: int)
    requires
        0 <= i <= s.len(),
    ensures
        i <= ident_tail(s, i) <= s.len(),
        forall|k: int| i <= k < ident_tail(s, i) ==> is_ident_char(#[trigger] s[k]),
    decreases s.len() - i,
{
    if i < s.len() && is_ident_char(s[i]) {
        lemma_ident_tail(s, i + 1);
    }
}

pub proof fn lemma_space_end(s: Seq<char>, i: int)
    requires
        0 <= i <= s.len(),
    ensures
        i <= space_end(s, i) <= s.len(),
    decreases s.len() - i,
{
    if i < s.len() && is_hspace(s[i]) {
        lemma_space_end(s, i + 1);
    }
}

pub proof fn lemma_blank_from(s: Seq<char>, i: int, c: bool)
    requires
        0 <= i <= s.len(),
    ensures
        i <= blank_from(s, i, c) <= s.len(),
    decreases s.len() - i, if c { 1int } else { 0int },
{
    if i < s.len() {
        if c {
            if s[i] != '\n' {
                lemma_blank_from(s, i + 1, true);
            } else {
                lemma_blank_from(s, i, false);
            }
        } else if is_ws(s[i]) {
            lemma_blank_from(s, i + 1, false);
        } else if comment_at(s, i) {
            lemma_blank_from(s, i + 2, true);
        }
    }
}

/// Scans an identifier at `i`.
pub fn scan_ident(s: &Vec<char>, i: usize) -> (r: Option<usize>)
    requires
        i <= s.len(),
    ensures
        match r {
            Some(e) => ident_at(s@, i as int) == Some(e as int),
            None => ident_at(s@, i as int) is None,
        },
{
    if i < s.len() && alpha(s[i]) {
        let mut j: usize = i + 1;
        while j < s.len() && ident_char(s[j])
            invariant
                i < j <= s.len(),
                ident_tail(s@, j as int) == ident_tail(s@, i + 1),
            decreases s.len() - j,
        {
            j = j + 1;
        }
        Some(j)
    } else {
        None
    }
}

/// Skips horizontal whitespace from `i`.
pub fn skip_space(s: &Vec<char>, i: usize) -> (r: usize)
    requires
        i <= s.len(),
    ensures
        r == space_end(s@, i as int),
        i <= r <= s.len(),
{
    let mut j: usize = i;
    while j < s.len() && whitespace(s[j]) && s[j] != '\n'
        invariant
            i <= j <= s.len(),
            space_end(s@, j as int) == space_end(s@, i as int),
        decreases s.len() - j,
    {
        j = j + 1;
    }
    j
}

/// Skips whitespace and ordinary comments from `i`.
pub fn skip_blank(s: &Vec<char>, i: usize) -> (r: usize)
    requires
        i <= s.len(),
    ensures
        r == blank_end(s@, i as int),
        i <= r <= s.len(),
{
    let mut j: usize = i;
    let mut in_comment = false;
    while j < s.len()
        invariant
            i <= j <= s.len(),
            blank_from(s@, j as int, in_comment) == blank_end(s@, i as int),
        decreases s.len() - j, if in_comment { 1int } else { 0int },
    {
        if in_comment {
            if s[j] != '\n' {
                j = j + 1;
            } else {
                in_comment = false;
            }
        } else if whitespace(s[j]) {
            j = j + 1;
        } else if s.len() - j > 2 && s[j] == '-' && s[j + 1] == '-' && s[j + 2] != ':' && s[j
            + 2] != '!' {
            j = j + 2;
            in_comment = true;
        } else {
            return j;
        }
    }
    j
}

} // verus!

verus! {

/// The position of the first `\n` from `i` on, or the end of `s`.
pub open spec fn line_end(s: Seq<char>, i: int) -> int
    decreases s.len() - i,
{
    if i < 0 || i >= s.len() || s[i] == '\n' {
        i
    } else {
        line_end(s, i + 1)
    }
}

proof fn lemma_comment_runs_to_line_end(s: Seq<char>, k: int)
    requires
        0 <= k <= s.len(),
    ensures
        blank_from(s, k, true) >= line_end(s, k),
    decreases s.len() - k,
{
    if k < s.len() && s[k] != '\n' {
        lemma_comment_runs_to_line_end(s, k + 1);
    } else {
        lemma_blank_from(s, k, true);
    }
}

/// An ordinary comment (`--` not followed by `:` or `!`) is blank to the end of its
/// line, so it may stand between declarations; a line that opens with `--:` or
/// `--!` is not blank at all, so it starts a declaration.
pub proof fn lemma_comment_or_declaration(s: Seq<char>, i: int)
    requires
        0 <= i,
        i + 2 < s.len(),
        s[i] == '-',
        s[i + 1] == '-',
    ensures
        s[i + 2] != ':' && s[i + 2] != '!' ==> blank_end(s, i) >= line_end(s, i),
        s[i + 2] == ':' || s[i + 2] == '!' ==> blank_end(s, i) == i,
{
    if s[i + 2] != ':' && s[i + 2] != '!' {
        lemma_comment_runs_to_line_end(s, i + 2);
        assert(line_end(s, i) == line_end(s, i + 1));
        assert(line_end(s, i + 1) == line_end(s, i + 2));
    }
}

} // verus!

//! Field lists `(a, b?, c[?])` and type declarations `--: Name(...)`.
use vstd::prelude::*;
use crate::parsed::Parsed;
use crate::text::{
    ident_at, lemma_ident_tail, lemma_space_end, scan_ident, skip_space, space_end, string_of,
};

verus! {

/// A field as read from the source: the span of its name and its two markers.
pub struct FieldSpan {
    pub start: int,
    pub end: int,
    pub nullable: bool,
    pub inner_nullable: bool,
}

/// A field of a record: `name`, `name?` (nullable) or `name[?]` (nullable elements).
#[derive(Debug, Clone)]
pub struct NullableIdent {
    pub name: Parsed<String>,
    pub nullable: bool,
    pub inner_nullable: bool,
}

/// A named record type declared by `--: Name(fields)`.
#[derive(Debug, Clone)]
pub struct TypeAnnotation {
    pub name: Parsed<String>,
    pub fields: Vec<NullableIdent>,
}

/// `p` holds the characters of `s` from `start` to `end`, with that span.
pub open spec fn parsed_is(p: Parsed<String>, s: Seq<char>, start: int, end: int) -> bool {
    p.start == start && p.end == end && p.value@ == s.subrange(start, end)
}

pub open spec fn field_is(f: NullableIdent, s: Seq<char>, m: FieldSpan) -> bool {
    &&& parsed_is(f.name, s, m.start, m.end)
    &&& f.nullable == m.nullable
    &&& f.inner_nullable == m.inner_nullable
}

pub open spec fn fields_are(v: Seq<NullableIdent>, s: Seq<char>, ms: Seq<FieldSpan>) -> bool {
    &&& v.len() == ms.len()
    &&& forall|k: int| 0 <= k < v.len() ==> field_is(#[trigger] v[k], s, ms[k])
}

pub open spec fn inner_marker_at(s: Seq<char>, i: int) -> bool {
    0 <= i && i + 2 < s.len() && s[i] == '[' && s[i + 1] == '?' && s[i + 2] == ']'
}

/// One field at `i`: an identifier, then an optional `?`, then an optional `[?]`.
pub open spec fn field_at(s: Seq<char>, i: int) -> Option<(FieldSpan, int)> {
    match ident_at(s, i) {
        Some(e) => {
            let nullable = e < s.len() && s[e] == '?';
            let e1 = if nullable { e + 1 } else { e };
            let inner = inner_marker_at(s, e1);
            let e2 = if inner { e1 + 3 } else { e1 };
            Some((FieldSpan { start: i, end: e, nullable, inner_nullable: inner }, e2))
        },
        None => None,
    }
}

/// The rest of a field list from `i` (just after `(` or `,`), appended to `acc`.
/// Horizontal whitespace may stand around each field; a trailing comma is allowed.
/// Gives the fields and the position after `)`, or the position where the list
/// breaks off.
pub open spec fn fields_from(s: Seq<char>, i: int, acc: Seq<FieldSpan>) -> Result<(Seq<FieldSpan>, int), int>
    decreases s.len() - i via fields_from_decreases
{
    let j = space_end(s, i);
    if 0 <= j < s.len() && s[j] == ')' {
        Ok((acc, j + 1))
    } else {
        match field_at(s, j) {
            Some((f, e)) => {
                let k = space_end(s, e);
                if 0 <= i && 0 <= k < s.len() && s[k] == ',' {
                    fields_from(s, k + 1, acc.push(f))
                } else if 0 <= k < s.len() && s[k] == ')' {
                    Ok((acc.push(f), k + 1))
                } else {
                    Err(k)
                }
            },
            None => Err(j),
        }
    }
}

/// A field list at `i`, which holds `(`.
pub open spec fn field_list(s: Seq<char>, i: int) -> Result<(Seq<FieldSpan>, int), int> {
    fields_from(s, i + 1, Seq::empty())
}

proof fn lemma_field_at(s: Seq<char>, i: int)
    requires
        0 <= i <= s.len(),
    ensures
        field_at(s, i) matches Some((f, e)) ==> i < e <= s.len() && f.start == i && i < f.end
            <= e,
{
    if ident_at(s, i) is Some {
        lemma_ident_tail(s, i + 1);
    }
}

#[via_fn]
proof fn fields_from_decreases(s: Seq<char>, i: int, acc: Seq<FieldSpan>) {
    if 0 <= i <= s.len() {
        lemma_space_end(s, i);
        let j = space_end(s, i);
        lemma_field_at(s, j);
        if let Some((f, e)) = field_at(s, j) {
            lemma_space_end(s, e);
        }
    }
}

pub proof fn lemma_fields_from(s: Seq<char>, i: int, acc: Seq<FieldSpan>)
    requires
        0 <= i <= s.len(),
    ensures
        fields_from(s, i, acc) matches Ok((ms, e)) ==> i < e <= s.len(),
        fields_from(s, i, acc) matches Err(p) ==> i <= p <= s.len(),
    decreases s.len() - i,
{
    lemma_space_end(s, i);
    let j = space_end(s, i);
    lemma_field_at(s, j);
    if let Some((f, e)) = field_at(s, j) {
        lemma_space_end(s, e);
        let k = space_end(s, e);
        if 0 <= k < s.len() && s[k] == ',' {
            lemma_fields_from(s, k + 1, acc.push(f));
        }
    }
}

/// Reads one field at `i`.
fn read_field(s: &Vec<char>, i: usize) -> (r: Option<(NullableIdent, usize)>)
    requires
        i <= s.len(),
    ensures
        match (r, field_at(s@, i as int)) {
            (Some((f, e)), Some((m, e2))) => field_is(f, s@, m) && e == e2,
            (None, None) => true,
            _ => false,
        },
{
    match scan_ident(s, i) {
        Some(e) => {
            proof {
                lemma_ident_tail(s@, i + 1);
            }
            let nullable = e < s.len() && s[e] == '?';
            let e1 = if nullable { e + 1 } else { e };
            let inner = s.len() - e1 > 2 && s[e1] == '[' && s[e1 + 1] == '?' && s[e1 + 2] == ']';
            let e2 = if inner { e1 + 3 } else { e1 };
            let value = string_of(s, i, e);
            Some((NullableIdent { name: Parsed { start: i, end: e, value }, nullable, inner_nullable: inner }, e2))
        },
        None => None,
    }
}

/// Reads the field list at `i`, which holds `(`.
pub fn read_field_list(s: &Vec<char>, i: usize) -> (r: Result<(Vec<NullableIdent>, usize), usize>)
    requires
        i < s.len(),
        s@[i as int] == '(',
    ensures
        match (r, field_list(s@, i as int)) {
            (Ok((v, e)), Ok((ms, e2))) => fields_are(v@, s@, ms) && e == e2,
            (Err(p), Err(p2)) => p == p2,
            _ => false,
        },
{
    let mut acc: Vec<NullableIdent> = Vec::new();
    let ghost ms: Seq<FieldSpan> = Seq::empty();
    let ghost start = i as int;
    let mut pos: usize = i + 1;
    loop
        invariant
            pos <= s.len(),
            start == i,
            fields_from(s@, pos as int, ms) == field_list(s@, start),
            fields_are(acc@, s@, ms),
        decreases s.len() - pos,
    {
        let j = skip_space(s, pos);
        if j < s.len() && s[j] == ')' {
            return Ok((acc, j + 1));
        }
        proof {
            lemma_field_at(s@, j as int);
        }
        match read_field(s, j) {
            Some((f, e)) => {
                let ghost m = field_at(s@, j as int)->Some_0.0;
                let k = skip_space(s, e);
                if k < s.len() && s[k] == ',' {
                    acc.push(f);
                    proof {
                        ms = ms.push(m);
                    }
                    pos = k + 1;
                } else if k < s.len() && s[k] == ')' {
                    acc.push(f);
                    proof {
                        ms = ms.push(m);
                    }
                    return Ok((acc, k + 1));
                } else {
                    return Err(k);
                }
            },
            None => {
                return Err(j);
            },
        }
    }
}

} // verus!

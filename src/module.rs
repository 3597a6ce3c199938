//! Declarations and whole files: type declarations, query declarations with
//! their statements, and the module that collects them.
use vstd::prelude::*;
use crate::fields::{
    field_list, fields_are, lemma_fields_from, parsed_is, read_field_list, FieldSpan,
    NullableIdent, TypeAnnotation,
};
use crate::parsed::Parsed;
use crate::sql::{next_char, QuerySql};
use crate::text::{
    blank_end, ident_at, lemma_blank_from, lemma_ident_tail, lemma_space_end, scan_ident,
    chars_of, skip_blank, skip_space, space_end, string_of,
};

verus! {

pub struct TypeSpan {
    pub name_start: int,
    pub name_end: int,
    pub fields: Seq<FieldSpan>,
}

pub enum DataSpan {
    Implicit(Seq<FieldSpan>),
    Named(int, int),
}

pub struct QuerySpan {
    pub name_start: int,
    pub name_end: int,
    pub param: DataSpan,
    pub row: DataSpan,
    /// The statement, without its `;`.
    pub sql_start: int,
    pub sql_end: int,
}

pub enum DeclSpan {
    Type(TypeSpan),
    Query(QuerySpan),
}

/// The three characters at `i` are `-`, `-` and `mark`.
pub open spec fn marker_at(s: Seq<char>, i: int, mark: char) -> bool {
    0 <= i && i + 2 < s.len() && s[i] == '-' && s[i + 1] == '-' && s[i + 2] == mark
}

/// A type declaration at `i`, which holds `--:`: space, a name, space, and an
/// optional field list.
pub open spec fn type_decl_at(s: Seq<char>, i: int) -> Result<(TypeSpan, int), int> {
    let j = space_end(s, i + 3);
    match ident_at(s, j) {
        Some(e) => {
            let k = space_end(s, e);
            if 0 <= k < s.len() && s[k] == '(' {
                match field_list(s, k) {
                    Ok((fs, e2)) => Ok((TypeSpan { name_start: j, name_end: e, fields: fs }, e2)),
                    Err(p) => Err(p),
                }
            } else {
                Ok((TypeSpan { name_start: j, name_end: e, fields: Seq::empty() }, k))
            }
        },
        None => Err(j),
    }
}

/// A parameter or row shape at `i`: a field list, or the name of a declared type.
/// `Ok(None)` where neither starts there.
pub open spec fn data_at(s: Seq<char>, i: int) -> Result<Option<(DataSpan, int)>, int> {
    if 0 <= i < s.len() && s[i] == '(' {
        match field_list(s, i) {
            Ok((fs, e)) => Ok(Some((DataSpan::Implicit(fs), e))),
            Err(p) => Err(p),
        }
    } else {
        match ident_at(s, i) {
            Some(e) => Ok(Some((DataSpan::Named(i, e), e))),
            None => Ok(None),
        }
    }
}

/// A query declaration at `i`, which holds `--!`: space, a name, an optional
/// parameter shape, optionally `:` and a row shape, the end of the line, and the
/// statement up to and including the first `;`.
pub open spec fn query_decl_at(s: Seq<char>, i: int) -> Result<(QuerySpan, int), int> {
    let j = space_end(s, i + 3);
    match ident_at(s, j) {
        None => Err(j),
        Some(e) => {
            let k = space_end(s, e);
            match data_at(s, k) {
                Err(p) => Err(p),
                Ok(param) => {
                    let (param, k2) = match param {
                        Some((d, e2)) => (d, space_end(s, e2)),
                        None => (DataSpan::Implicit(Seq::empty()), k),
                    };
                    let colon = 0 <= k2 < s.len() && s[k2] == ':';
                    let k3 = space_end(s, k2 + 1);
                    let row: Result<(DataSpan, int), int> = if colon {
                        match data_at(s, k3) {
                            Ok(Some((d, e3))) => Ok((d, e3)),
                            Ok(None) => Err(k3),
                            Err(p) => Err(p),
                        }
                    } else {
                        Ok((DataSpan::Implicit(Seq::empty()), k2))
                    };
                    match row {
                        Err(p) => Err(p),
                        Ok((row, a)) => {
                            let x = space_end(s, a);
                            if 0 <= x < s.len() && s[x] == '\n' {
                                match next_char(s, x + 1, ';') {
                                    Some(q) => Ok(
                                        (
                                            QuerySpan {
                                                name_start: j,
                                                name_end: e,
                                                param,
                                                row,
                                                sql_start: x + 1,
                                                sql_end: q,
                                            },
                                            q + 1,
                                        ),
                                    ),
                                    None => Err(s.len() as int),
                                }
                            } else {
                                Err(x)
                            }
                        },
                    }
                },
            }
        },
    }
}

/// One declaration at `i`.
pub open spec fn decl_at(s: Seq<char>, i: int) -> Result<(DeclSpan, int), int> {
    if marker_at(s, i, ':') {
        match type_decl_at(s, i) {
            Ok((t, e)) => Ok((DeclSpan::Type(t), e)),
            Err(p) => Err(p),
        }
    } else if marker_at(s, i, '!') {
        match query_decl_at(s, i) {
            Ok((q, e)) => Ok((DeclSpan::Query(q), e)),
            Err(p) => Err(p),
        }
    } else {
        Err(i)
    }
}

/// The first position from `k` on that starts a line opening with `--:` or `--!`;
/// the end of `s` if there is none. Reading goes on there after an error.
pub open spec fn resume_at(s: Seq<char>, k: int) -> int
    decreases s.len() - k,
{
    if k <= 0 || k >= s.len() {
        s.len() as int
    } else if s[k - 1] == '\n' && (marker_at(s, k, ':') || marker_at(s, k, '!')) {
        k
    } else {
        resume_at(s, k + 1)
    }
}

} // verus!

verus! {

/// Reads the whole of `s` from `i`: declarations separated by blank regions. Each
/// declaration that cannot be read adds the position where reading broke off to
/// `errs`, and reading goes on at the next line that opens a declaration.
pub open spec fn module_from(s: Seq<char>, i: int, ds: Seq<DeclSpan>, errs: Seq<int>) -> (Seq<DeclSpan>, Seq<int>)
    decreases s.len() - i via module_from_decreases
{
    let j = blank_end(s, i);
    if i < 0 || j >= s.len() {
        (ds, errs)
    } else {
        match decl_at(s, j) {
            Ok((d, e)) => module_from(s, e, ds.push(d), errs),
            Err(p) => module_from(s, resume_at(s, j + 1), ds, errs.push(p)),
        }
    }
}

/// The declarations of the file `s`, in order, and the positions of its errors.
pub open spec fn module_of(s: Seq<char>) -> (Seq<DeclSpan>, Seq<int>) {
    module_from(s, 0, Seq::empty(), Seq::empty())
}

#[via_fn]
proof fn module_from_decreases(s: Seq<char>, i: int, ds: Seq<DeclSpan>, errs: Seq<int>) {
    if 0 <= i <= s.len() {
        lemma_blank_from(s, i, false);
        let j = blank_end(s, i);
        if j < s.len() {
            lemma_decl_at(s, j);
            lemma_resume_at(s, j + 1);
        }
    }
}

proof fn lemma_resume_at(s: Seq<char>, k: int)
    requires
        1 <= k <= s.len(),
    ensures
        k <= resume_at(s, k) <= s.len(),
    decreases s.len() - k,
{
    if k < s.len() && !(s[k - 1] == '\n' && (marker_at(s, k, ':') || marker_at(s, k, '!'))) {
        lemma_resume_at(s, k + 1);
    }
}

proof fn lemma_data_at(s: Seq<char>, i: int)
    requires
        0 <= i <= s.len(),
    ensures
        data_at(s, i) matches Ok(Some((d, e))) ==> i < e <= s.len(),
        data_at(s, i) matches Err(p) ==> 0 <= p <= s.len(),
{
    if i < s.len() && s[i] == '(' {
        lemma_fields_from(s, i + 1, Seq::empty());
    } else if ident_at(s, i) is Some {
        lemma_ident_tail(s, i + 1);
    }
}

proof fn lemma_type_decl_at(s: Seq<char>, i: int)
    requires
        marker_at(s, i, ':'),
    ensures
        type_decl_at(s, i) matches Ok((t, e)) ==> i < e <= s.len(),
        type_decl_at(s, i) matches Err(p) ==> 0 <= p <= s.len(),
{
    lemma_space_end(s, i + 3);
    let j = space_end(s, i + 3);
    if let Some(e) = ident_at(s, j) {
        lemma_ident_tail(s, j + 1);
        lemma_space_end(s, e);
        let k = space_end(s, e);
        if k < s.len() && s[k] == '(' {
            lemma_fields_from(s, k + 1, Seq::empty());
        }
    }
}

proof fn lemma_query_decl_at(s: Seq<char>, i: int)
    requires
        marker_at(s, i, '!'),
    ensures
        query_decl_at(s, i) matches Ok((q, e)) ==> i < e <= s.len() && i < q.sql_start
            <= q.sql_end < e,
        query_decl_at(s, i) matches Err(p) ==> 0 <= p <= s.len(),
{
    lemma_space_end(s, i + 3);
    let j = space_end(s, i + 3);
    if let Some(e) = ident_at(s, j) {
        lemma_ident_tail(s, j + 1);
        lemma_space_end(s, e);
        let k = space_end(s, e);
        lemma_data_at(s, k);
        if let Ok(param) = data_at(s, k) {
            let k2 = match param {
                Some((d, e2)) => {
                    lemma_space_end(s, e2);
                    space_end(s, e2)
                },
                None => k,
            };
            if 0 <= k2 < s.len() && s[k2] == ':' {
                lemma_space_end(s, k2 + 1);
                lemma_data_at(s, space_end(s, k2 + 1));
            }
            let a = if 0 <= k2 < s.len() && s[k2] == ':' {
                match data_at(s, space_end(s, k2 + 1)) {
                    Ok(Some((d, e3))) => e3,
                    _ => k2,
                }
            } else {
                k2
            };
            lemma_space_end(s, a);
            let x = space_end(s, a);
            crate::sql::lemma_next_char(s, x + 1, ';');
        }
    }
}

proof fn lemma_decl_at(s: Seq<char>, i: int)
    requires
        0 <= i < s.len(),
    ensures
        decl_at(s, i) matches Ok((d, e)) ==> i < e <= s.len(),
        decl_at(s, i) matches Err(p) ==> 0 <= p <= s.len(),
{
    if marker_at(s, i, ':') {
        lemma_type_decl_at(s, i);
    } else if marker_at(s, i, '!') {
        lemma_query_decl_at(s, i);
    }
}

} // verus!

verus! {

/// The parameter or row shape of a query.
#[derive(Debug)]
pub enum QueryDataStruct {
    /// Fields listed at the query itself; the record is named after the query.
    Implicit { idents: Vec<NullableIdent> },
    /// The name of a type declared in the same file.
    Named(Parsed<String>),
}

impl Default for QueryDataStruct {
    fn default() -> (r: QueryDataStruct)
        ensures
            r matches QueryDataStruct::Implicit { idents } && idents@.len() == 0,
    {
        QueryDataStruct::Implicit { idents: Vec::new() }
    }
}

/// The header of a query: `--! name params : row`.
#[derive(Debug)]
pub struct QueryAnnotation {
    pub name: Parsed<String>,
    pub param: QueryDataStruct,
    pub row: QueryDataStruct,
}

/// A query declaration: its header and its statement.
#[derive(Debug)]
pub struct Query {
    pub annotation: QueryAnnotation,
    pub sql: QuerySql,
}

/// One declaration of a file.
#[derive(Debug)]
pub enum Statement {
    Type(TypeAnnotation),
    Query(Query),
}

pub open spec fn type_is(t: TypeAnnotation, s: Seq<char>, m: TypeSpan) -> bool {
    &&& parsed_is(t.name, s, m.name_start, m.name_end)
    &&& fields_are(t.fields@, s, m.fields)
}

pub open spec fn data_is(d: QueryDataStruct, s: Seq<char>, m: DataSpan) -> bool {
    match (d, m) {
        (QueryDataStruct::Implicit { idents }, DataSpan::Implicit(fs)) => fields_are(idents@, s, fs),
        (QueryDataStruct::Named(p), DataSpan::Named(a, b)) => parsed_is(p, s, a, b),
        _ => false,
    }
}

pub open spec fn query_is(q: Query, s: Seq<char>, m: QuerySpan) -> bool {
    &&& parsed_is(q.annotation.name, s, m.name_start, m.name_end)
    &&& data_is(q.annotation.param, s, m.param)
    &&& data_is(q.annotation.row, s, m.row)
    &&& q.sql.describes(s.subrange(m.sql_start, m.sql_end), m.sql_start)
}

pub open spec fn statement_is(st: Statement, s: Seq<char>, m: DeclSpan) -> bool {
    match (st, m) {
        (Statement::Type(t), DeclSpan::Type(tm)) => type_is(t, s, tm),
        (Statement::Query(q), DeclSpan::Query(qm)) => query_is(q, s, qm),
        _ => false,
    }
}

/// A copy of `s[a..b]`.
fn copy_range(s: &Vec<char>, a: usize, b: usize) -> (r: Vec<char>)
    requires
        a <= b <= s.len(),
    ensures
        r@ == s@.subrange(a as int, b as int),
{
    let mut r: Vec<char> = Vec::new();
    crate::sql::push_range(&mut r, s, a, b);
    r
}

fn read_name(s: &Vec<char>, j: usize, e: usize) -> (r: Parsed<String>)
    requires
        j <= e <= s.len(),
    ensures
        parsed_is(r, s@, j as int, e as int),
{
    let value = string_of(s, j, e);
    Parsed { start: j, end: e, value }
}

/// Reads the type declaration at `i`.
fn read_type_decl(s: &Vec<char>, i: usize) -> (r: Result<(TypeAnnotation, usize), usize>)
    requires
        marker_at(s@, i as int, ':'),
    ensures
        match (r, type_decl_at(s@, i as int)) {
            (Ok((t, e)), Ok((m, e2))) => type_is(t, s@, m) && e == e2,
            (Err(p), Err(p2)) => p == p2,
            _ => false,
        },
{
    assert(i + 3 <= s.len());
    let j = skip_space(s, i + 3);
    match scan_ident(s, j) {
        Some(e) => {
            proof {
                lemma_ident_tail(s@, j + 1);
            }
            let name = read_name(s, j, e);
            let k = skip_space(s, e);
            if k < s.len() && s[k] == '(' {
                match read_field_list(s, k) {
                    Ok((fields, e2)) => Ok((TypeAnnotation { name, fields }, e2)),
                    Err(p) => Err(p),
                }
            } else {
                let fields: Vec<NullableIdent> = Vec::new();
                assert(fields_are(fields@, s@, Seq::empty()));
                Ok((TypeAnnotation { name, fields }, k))
            }
        },
        None => Err(j),
    }
}

/// Reads a parameter or row shape at `i`, if one starts there.
fn read_data(s: &Vec<char>, i: usize) -> (r: Result<Option<(QueryDataStruct, usize)>, usize>)
    requires
        i <= s.len(),
    ensures
        match (r, data_at(s@, i as int)) {
            (Ok(Some((d, e))), Ok(Some((m, e2)))) => data_is(d, s@, m) && e == e2,
            (Ok(None), Ok(None)) => true,
            (Err(p), Err(p2)) => p == p2,
            _ => false,
        },
{
    if i < s.len() && s[i] == '(' {
        match read_field_list(s, i) {
            Ok((idents, e)) => Ok(Some((QueryDataStruct::Implicit { idents }, e))),
            Err(p) => Err(p),
        }
    } else {
        match scan_ident(s, i) {
            Some(e) => {
                proof {
                    lemma_ident_tail(s@, i + 1);
                }
                Ok(Some((QueryDataStruct::Named(read_name(s, i, e)), e)))
            },
            None => Ok(None),
        }
    }
}

/// Reads the query declaration at `i`.
fn read_query_decl(s: &Vec<char>, i: usize) -> (r: Result<(Query, usize), usize>)
    requires
        marker_at(s@, i as int, '!'),
    ensures
        match (r, query_decl_at(s@, i as int)) {
            (Ok((q, e)), Ok((m, e2))) => query_is(q, s@, m) && e == e2,
            (Err(p), Err(p2)) => p == p2,
            _ => false,
        },
{
    assert(i + 3 <= s.len());
    let j = skip_space(s, i + 3);
    let e = match scan_ident(s, j) {
        Some(e) => e,
        None => {
            return Err(j);
        },
    };
    proof {
        lemma_ident_tail(s@, j + 1);
    }
    let name = read_name(s, j, e);
    let k = skip_space(s, e);
    proof {
        lemma_data_at(s@, k as int);
    }
    let (param, k2) = match read_data(s, k) {
        Err(p) => {
            return Err(p);
        },
        Ok(Some((d, e2))) => (d, skip_space(s, e2)),
        Ok(None) => (QueryDataStruct::default(), k),
    };
    let (row, a) = if k2 < s.len() && s[k2] == ':' {
        let k3 = skip_space(s, k2 + 1);
        proof {
            lemma_data_at(s@, k3 as int);
        }
        match read_data(s, k3) {
            Ok(Some((d, e3))) => (d, e3),
            Ok(None) => {
                return Err(k3);
            },
            Err(p) => {
                return Err(p);
            },
        }
    } else {
        (QueryDataStruct::default(), k2)
    };
    let x = skip_space(s, a);
    if !(x < s.len() && s[x] == '\n') {
        return Err(x);
    }
    match crate::sql::find_char(s, x + 1, ';') {
        None => Err(s.len()),
        Some(q) => {
            let stmt = copy_range(s, x + 1, q);
            let sql = QuerySql::from_chars(&stmt, x + 1);
            Ok((Query { annotation: QueryAnnotation { name, param, row }, sql }, q + 1))
        },
    }
}

/// Reads the declaration at `i`.
fn read_decl(s: &Vec<char>, i: usize) -> (r: Result<(Statement, usize), usize>)
    requires
        i < s.len(),
    ensures
        match (r, decl_at(s@, i as int)) {
            (Ok((st, e)), Ok((m, e2))) => statement_is(st, s@, m) && e == e2,
            (Err(p), Err(p2)) => p == p2,
            _ => false,
        },
{
    if s.len() - i > 2 && s[i] == '-' && s[i + 1] == '-' && s[i + 2] == ':' {
        match read_type_decl(s, i) {
            Ok((t, e)) => Ok((Statement::Type(t), e)),
            Err(p) => Err(p),
        }
    } else if s.len() - i > 2 && s[i] == '-' && s[i + 1] == '-' && s[i + 2] == '!' {
        match read_query_decl(s, i) {
            Ok((q, e)) => Ok((Statement::Query(q), e)),
            Err(p) => Err(p),
        }
    } else {
        Err(i)
    }
}

/// The first line start from `k` on that opens a declaration.
fn resume(s: &Vec<char>, k: usize) -> (r: usize)
    requires
        1 <= k <= s.len(),
    ensures
        r == resume_at(s@, k as int),
{
    let mut m: usize = k;
    while m < s.len()
        invariant
            1 <= m <= s.len(),
            resume_at(s@, m as int) == resume_at(s@, k as int),
        decreases s.len() - m,
    {
        if s[m - 1] == '\n' && s.len() - m > 2 && s[m] == '-' && s[m + 1] == '-' && (s[m + 2]
            == ':' || s[m + 2] == '!') {
            return m;
        }
        m = m + 1;
    }
    m
}

} // verus!

verus! {

/// The declarations of one file, types and queries apart, each in file order.
#[derive(Debug)]
pub struct ParsedModule {
    pub types: Vec<TypeAnnotation>,
    pub queries: Vec<Query>,
}

/// A place where the file could not be read: the character range and the
/// character found there (`None` at the end of the text).
#[derive(Debug, Clone, Copy, PartialEq, Eq)]
pub struct Diagnostic {
    pub start: usize,
    pub end: usize,
    pub found: Option<char>,
}

/// The diagnostics of one file.
#[derive(Debug)]
pub struct Error {
    pub path: String,
    pub diagnostics: Vec<Diagnostic>,
}

pub open spec fn types_in(v: Seq<Statement>) -> Seq<TypeAnnotation>
    decreases v.len(),
{
    if v.len() == 0 {
        Seq::empty()
    } else {
        match v.last() {
            Statement::Type(t) => types_in(v.drop_last()).push(t),
            Statement::Query(_) => types_in(v.drop_last()),
        }
    }
}

pub open spec fn queries_in(v: Seq<Statement>) -> Seq<Query>
    decreases v.len(),
{
    if v.len() == 0 {
        Seq::empty()
    } else {
        match v.last() {
            Statement::Type(_) => queries_in(v.drop_last()),
            Statement::Query(q) => queries_in(v.drop_last()).push(q),
        }
    }
}

pub open spec fn types_of(ds: Seq<DeclSpan>) -> Seq<TypeSpan>
    decreases ds.len(),
{
    if ds.len() == 0 {
        Seq::empty()
    } else {
        match ds.last() {
            DeclSpan::Type(t) => types_of(ds.drop_last()).push(t),
            DeclSpan::Query(_) => types_of(ds.drop_last()),
        }
    }
}

pub open spec fn queries_of(ds: Seq<DeclSpan>) -> Seq<QuerySpan>
    decreases ds.len(),
{
    if ds.len() == 0 {
        Seq::empty()
    } else {
        match ds.last() {
            DeclSpan::Type(_) => queries_of(ds.drop_last()),
            DeclSpan::Query(q) => queries_of(ds.drop_last()).push(q),
        }
    }
}

pub open spec fn statements_are(v: Seq<Statement>, s: Seq<char>, ds: Seq<DeclSpan>) -> bool {
    &&& v.len() == ds.len()
    &&& forall|k: int| 0 <= k < v.len() ==> statement_is(#[trigger] v[k], s, ds[k])
}

/// `m` holds the declarations `ds` of the file `s`.
pub open spec fn module_is(m: ParsedModule, s: Seq<char>, ds: Seq<DeclSpan>) -> bool {
    let ts = types_of(ds);
    let qs = queries_of(ds);
    &&& m.types@.len() == ts.len()
    &&& forall|k: int| 0 <= k < ts.len() ==> type_is(#[trigger] m.types@[k], s, ts[k])
    &&& m.queries@.len() == qs.len()
    &&& forall|k: int| 0 <= k < qs.len() ==> query_is(#[trigger] m.queries@[k], s, qs[k])
}

/// `d` reports the error position `p` of the file `s`.
pub open spec fn diagnostic_is(d: Diagnostic, s: Seq<char>, p: int) -> bool {
    &&& d.start == p
    &&& if 0 <= p < s.len() {
        d.end == p + 1 && d.found == Some(s[p])
    } else {
        d.end == p && d.found is None
    }
}

pub open spec fn diagnostics_are(v: Seq<Diagnostic>, s: Seq<char>, ps: Seq<int>) -> bool {
    &&& v.len() == ps.len()
    &&& forall|k: int| 0 <= k < v.len() ==> diagnostic_is(#[trigger] v[k], s, ps[k])
}

proof fn lemma_partition(v: Seq<Statement>, s: Seq<char>, ds: Seq<DeclSpan>)
    requires
        statements_are(v, s, ds),
    ensures
        types_in(v).len() == types_of(ds).len(),
        forall|k: int|
            0 <= k < types_of(ds).len() ==> type_is(#[trigger] types_in(v)[k], s, types_of(ds)[k]),
        queries_in(v).len() == queries_of(ds).len(),
        forall|k: int|
            0 <= k < queries_of(ds).len() ==> query_is(
                #[trigger] queries_in(v)[k],
                s,
                queries_of(ds)[k],
            ),
    decreases v.len(),
{
    if v.len() > 0 {
        let n = v.len() - 1;
        assert(statements_are(v.drop_last(), s, ds.drop_last())) by {
            assert forall|k: int| 0 <= k < v.drop_last().len() implies statement_is(
                #[trigger] v.drop_last()[k],
                s,
                ds.drop_last()[k],
            ) by {
                assert(statement_is(v[k], s, ds[k]));
            }
        }
        lemma_partition(v.drop_last(), s, ds.drop_last());
        assert(statement_is(v[n], s, ds[n]));
    }
}

impl ParsedModule {
    /// Sorts declarations into types and queries, keeping the order within each.
    pub fn from_statements(stmts: Vec<Statement>) -> (r: ParsedModule)
        ensures
            r.types@ == types_in(stmts@),
            r.queries@ == queries_in(stmts@),
    {
        let mut types: Vec<TypeAnnotation> = Vec::new();
        let mut queries: Vec<Query> = Vec::new();
        let mut rest = stmts;
        let ghost all = rest@;
        let ghost mut k: int = 0;
        assert(all.subrange(0, 0) =~= Seq::<Statement>::empty());
        while rest.len() > 0
            invariant
                0 <= k <= all.len(),
                rest@ == all.subrange(k, all.len() as int),
                types@ == types_in(all.subrange(0, k)),
                queries@ == queries_in(all.subrange(0, k)),
            decreases rest.len(),
        {
            let item = rest.remove(0);
            assert(all.subrange(0, k + 1).drop_last() =~= all.subrange(0, k));
            assert(all.subrange(0, k + 1).last() == item);
            match item {
                Statement::Type(t) => types.push(t),
                Statement::Query(q) => queries.push(q),
            }
            proof {
                k = k + 1;
            }
            assert(rest@ =~= all.subrange(k, all.len() as int));
        }
        assert(all.subrange(0, k) =~= all);
        ParsedModule { types, queries }
    }
}

/// `r` is what reading the file `s` named `path` gives: the module of its
/// declarations when no declaration failed, else the file's diagnostics.
pub open spec fn parse_outcome(path: Seq<char>, s: Seq<char>, r: Result<ParsedModule, Error>) -> bool {
    let (ds, errs) = module_of(s);
    match r {
        Ok(m) => errs.len() == 0 && module_is(m, s, ds),
        Err(e) => errs.len() > 0 && e.path@ == path && diagnostics_are(e.diagnostics@, s, errs),
    }
}

pub open spec fn same_parsed(a: Parsed<String>, b: Parsed<String>) -> bool {
    a.start == b.start && a.end == b.end && a.value@ == b.value@
}

pub open spec fn same_fields(a: Seq<NullableIdent>, b: Seq<NullableIdent>) -> bool {
    &&& a.len() == b.len()
    &&& forall|k: int|
        0 <= k < a.len() ==> same_parsed((#[trigger] a[k]).name, b[k].name) && a[k].nullable
            == b[k].nullable && a[k].inner_nullable == b[k].inner_nullable
}

pub open spec fn same_data(a: QueryDataStruct, b: QueryDataStruct) -> bool {
    match (a, b) {
        (QueryDataStruct::Implicit { idents: x }, QueryDataStruct::Implicit { idents: y }) => same_fields(x@, y@),
        (QueryDataStruct::Named(x), QueryDataStruct::Named(y)) => same_parsed(x, y),
        _ => false,
    }
}

pub open spec fn same_query(a: Query, b: Query) -> bool {
    &&& same_parsed(a.annotation.name, b.annotation.name)
    &&& same_data(a.annotation.param, b.annotation.param)
    &&& same_data(a.annotation.row, b.annotation.row)
    &&& a.sql.sql_str@ == b.sql.sql_str@
    &&& a.sql.bind_params@.len() == b.sql.bind_params@.len()
    &&& forall|k: int|
        0 <= k < a.sql.bind_params@.len() ==> same_parsed(
            #[trigger] a.sql.bind_params@[k],
            b.sql.bind_params@[k],
        )
}

/// Two modules with the same declarations, field by field.
pub open spec fn same_module(a: ParsedModule, b: ParsedModule) -> bool {
    &&& a.types@.len() == b.types@.len()
    &&& forall|k: int|
        0 <= k < a.types@.len() ==> same_parsed((#[trigger] a.types@[k]).name, b.types@[k].name)
            && same_fields(a.types@[k].fields@, b.types@[k].fields@)
    &&& a.queries@.len() == b.queries@.len()
    &&& forall|k: int| 0 <= k < a.queries@.len() ==> same_query(#[trigger] a.queries@[k], b.queries@[k])
}

pub open spec fn same_outcome(a: Result<ParsedModule, Error>, b: Result<ParsedModule, Error>) -> bool {
    match (a, b) {
        (Ok(x), Ok(y)) => same_module(x, y),
        (Err(x), Err(y)) => x.path@ == y.path@ && x.diagnostics@ == y.diagnostics@,
        _ => false,
    }
}

proof fn lemma_same_data(a: QueryDataStruct, b: QueryDataStruct, s: Seq<char>, m: DataSpan)
    requires
        data_is(a, s, m),
        data_is(b, s, m),
    ensures
        same_data(a, b),
{
    if let (QueryDataStruct::Implicit { idents: x }, QueryDataStruct::Implicit { idents: y }) = (a, b) {
        assert forall|k: int| 0 <= k < x@.len() implies same_parsed((#[trigger] x@[k]).name, y@[k].name)
            && x@[k].nullable == y@[k].nullable && x@[k].inner_nullable == y@[k].inner_nullable by {
            assert(crate::fields::field_is(x@[k], s, m->Implicit_0[k]));
            assert(crate::fields::field_is(y@[k], s, m->Implicit_0[k]));
        }
    }
}

/// Reading the same text twice gives the same outcome, field by field: the result
/// is fixed by the path and the text alone.
pub proof fn lemma_parse_deterministic(
    path: Seq<char>,
    s: Seq<char>,
    a: Result<ParsedModule, Error>,
    b: Result<ParsedModule, Error>,
)
    requires
        parse_outcome(path, s, a),
        parse_outcome(path, s, b),
    ensures
        same_outcome(a, b),
{
    let (ds, errs) = module_of(s);
    match (a, b) {
        (Ok(x), Ok(y)) => {
            let ts = types_of(ds);
            let qs = queries_of(ds);
            assert forall|k: int| 0 <= k < x.types@.len() implies same_parsed(
                (#[trigger] x.types@[k]).name,
                y.types@[k].name,
            ) && same_fields(x.types@[k].fields@, y.types@[k].fields@) by {
                assert(type_is(x.types@[k], s, ts[k]));
                assert(type_is(y.types@[k], s, ts[k]));
                let fx = x.types@[k].fields@;
                let fy = y.types@[k].fields@;
                assert forall|f: int| 0 <= f < fx.len() implies same_parsed(
                    (#[trigger] fx[f]).name,
                    fy[f].name,
                ) && fx[f].nullable == fy[f].nullable && fx[f].inner_nullable
                    == fy[f].inner_nullable by {
                    assert(crate::fields::field_is(fx[f], s, ts[k].fields[f]));
                    assert(crate::fields::field_is(fy[f], s, ts[k].fields[f]));
                }
            }
            assert forall|k: int| 0 <= k < x.queries@.len() implies same_query(
                #[trigger] x.queries@[k],
                y.queries@[k],
            ) by {
                assert(query_is(x.queries@[k], s, qs[k]));
                assert(query_is(y.queries@[k], s, qs[k]));
                lemma_same_data(x.queries@[k].annotation.param, y.queries@[k].annotation.param, s, qs[k].param);
                lemma_same_data(x.queries@[k].annotation.row, y.queries@[k].annotation.row, s, qs[k].row);
            }
        },
        (Err(x), Err(y)) => {
            assert(x.diagnostics@ =~= y.diagnostics@);
        },
        _ => {},
    }
}

fn diagnostic(s: &Vec<char>, p: usize) -> (r: Diagnostic)
    requires
        p <= s.len(),
    ensures
        diagnostic_is(r, s@, p as int),
{
    if p < s.len() {
        Diagnostic { start: p, end: p + 1, found: Some(s[p]) }
    } else {
        Diagnostic { start: p, end: p, found: None }
    }
}

/// Reads a file of declarations. `path` names the file in the error.
///
/// The result is the module exactly when every declaration could be read;
/// otherwise the error lists, in order, each place where reading broke off.
pub fn parse_query_module(path: &str, input: &str) -> (r: Result<ParsedModule, Error>)
    ensures
        parse_outcome(path@, input@, r),
{
    let s = chars_of(input);
    let mut stmts: Vec<Statement> = Vec::new();
    let mut diags: Vec<Diagnostic> = Vec::new();
    let ghost mut ds: Seq<DeclSpan> = Seq::empty();
    let ghost mut errs: Seq<int> = Seq::empty();
    let mut i: usize = 0;
    loop
        invariant
            s@ == input@,
            i <= s.len(),
            module_from(s@, i as int, ds, errs) == module_of(s@),
            statements_are(stmts@, s@, ds),
            diagnostics_are(diags@, s@, errs),
        ensures
            s@ == input@,
            module_of(s@) == (ds, errs),
            statements_are(stmts@, s@, ds),
            diagnostics_are(diags@, s@, errs),
        decreases s.len() - i,
    {
        proof {
            lemma_blank_from(s@, i as int, false);
        }
        let j = skip_blank(&s, i);
        if j >= s.len() {
            break;
        }
        proof {
            lemma_decl_at(s@, j as int);
            lemma_resume_at(s@, j + 1);
        }
        match read_decl(&s, j) {
            Ok((st, e)) => {
                let ghost d = decl_at(s@, j as int)->Ok_0.0;
                let ghost before = stmts@;
                stmts.push(st);
                proof {
                    ds = ds.push(d);
                    assert forall|k: int| 0 <= k < stmts@.len() implies statement_is(
                        #[trigger] stmts@[k],
                        s@,
                        ds[k],
                    ) by {
                        if k < before.len() {
                            assert(stmts@[k] == before[k]);
                        }
                    }
                }
                i = e;
            },
            Err(p) => {
                let ghost before = diags@;
                diags.push(diagnostic(&s, p));
                proof {
                    errs = errs.push(p as int);
                    assert forall|k: int| 0 <= k < diags@.len() implies diagnostic_is(
                        #[trigger] diags@[k],
                        s@,
                        errs[k],
                    ) by {
                        if k < before.len() {
                            assert(diags@[k] == before[k]);
                        }
                    }
                }
                i = resume(&s, j + 1);
            },
        }
    }
    assert(module_of(input@) == (ds, errs));
    if diags.len() == 0 {
        let ghost sv = stmts@;
        let m = ParsedModule::from_statements(stmts);
        proof {
            lemma_partition(sv, s@, ds);
            assert(module_is(m, s@, ds));
        }
        Ok(m)
    } else {
        Err(Error { path: path.to_owned(), diagnostics: diags })
    }
}

} // verus!

//! Resolving the parameter and row shapes of a query to a record name and fields.
use vstd::prelude::*;
use crate::fields::{NullableIdent, TypeAnnotation};
use crate::module::QueryDataStruct;
use crate::parsed::Parsed;
use crate::text::{chars_of, string_of};

verus! {

/// What heck's upper camel case makes of a string.
pub uninterp spec fn upper_camel_of(s: Seq<char>) -> Seq<char>;

/// Relies on heck's `ToUpperCamelCase::to_upper_camel_case` for `str`: a new string
/// that depends on the characters of `s` alone.
#[verifier::external_body]
fn to_upper_camel(s: &str) -> (r: String)
    ensures
        r@ == upper_camel_of(s@),
{
    <str as heck::ToUpperCamelCase>::to_upper_camel_case(s)
}

pub open spec fn suffix_of(suffix: Option<&str>) -> Seq<char> {
    match suffix {
        Some(x) => x@,
        None => Seq::empty(),
    }
}

/// Index of the first type in `types[k..]` named `n`.
pub open spec fn first_type_named(types: Seq<TypeAnnotation>, n: Seq<char>, k: int) -> Option<int>
    decreases types.len() - k,
{
    if k < 0 || k >= types.len() {
        None
    } else if types[k].name.value@ == n {
        Some(k)
    } else {
        first_type_named(types, n, k + 1)
    }
}

/// The fields of the first type named `n`; none if no type has that name.
pub open spec fn fields_of_named(types: Seq<TypeAnnotation>, n: Seq<char>) -> Seq<NullableIdent> {
    match first_type_named(types, n, 0) {
        Some(k) => types[k].fields@,
        None => Seq::empty(),
    }
}

/// The record name of an implicit shape: `camel` (the query name in upper camel
/// case) followed by the suffix, with the span of the query name.
pub fn implicit_name(camel: &str, query_name: &Parsed<String>, suffix: Option<&str>) -> (r: Parsed<String>)
    ensures
        r.value@ == camel@ + suffix_of(suffix),
        r.start == query_name.start,
        r.end == query_name.end,
{
    let mut cs = chars_of(camel);
    match suffix {
        Some(x) => {
            let tail = chars_of(x);
            let mut i: usize = 0;
            let ghost head = cs@;
            while i < tail.len()
                invariant
                    i <= tail.len(),
                    cs@ == head + tail@.subrange(0, i as int),
                decreases tail.len() - i,
            {
                cs.push(tail[i]);
                assert(tail@.subrange(0, i + 1) =~= tail@.subrange(0, i as int).push(tail@[i as int]));
                i = i + 1;
            }
            assert(tail@.subrange(0, i as int) =~= tail@);
        },
        None => {
            assert(cs@ =~= camel@ + suffix_of(suffix));
        },
    }
    let n = cs.len();
    let value = string_of(&cs, 0, n);
    assert(cs@.subrange(0, n as int) =~= cs@);
    Parsed { start: query_name.start, end: query_name.end, value }
}

impl NullableIdent {
    /// A copy with the same name, span and markers.
    pub fn duplicate(&self) -> (r: NullableIdent)
        ensures
            r == *self,
    {
        NullableIdent {
            name: Parsed { start: self.name.start, end: self.name.end, value: self.name.value.clone() },
            nullable: self.nullable,
            inner_nullable: self.inner_nullable,
        }
    }
}

fn copy_fields(v: &Vec<NullableIdent>) -> (r: Vec<NullableIdent>)
    ensures
        r@ == v@,
{
    let mut r: Vec<NullableIdent> = Vec::new();
    let mut i: usize = 0;
    while i < v.len()
        invariant
            i <= v.len(),
            r@ == v@.subrange(0, i as int),
        decreases v.len() - i,
    {
        r.push(v[i].duplicate());
        assert(v@.subrange(0, i + 1) =~= v@.subrange(0, i as int).push(v@[i as int]));
        i = i + 1;
    }
    assert(v@.subrange(0, i as int) =~= v@);
    r
}

/// The fields of the first type in `types` named like `name`; none if there is none.
fn fields_named(types: &Vec<TypeAnnotation>, name: &Parsed<String>) -> (r: Vec<NullableIdent>)
    ensures
        r@ == fields_of_named(types@, name.value@),
{
    let mut k: usize = 0;
    while k < types.len()
        invariant
            k <= types.len(),
            first_type_named(types@, name.value@, k as int) == first_type_named(
                types@,
                name.value@,
                0,
            ),
        decreases types.len() - k,
    {
        if types[k].name == *name {
            return copy_fields(&types[k].fields);
        }
        k = k + 1;
    }
    Vec::new()
}

impl QueryDataStruct {
    /// The fields and the record name of this shape, for the query `query_name`.
    /// An implicit shape keeps its fields and is named after the query, in upper
    /// camel case, followed by `name_suffix`. A named shape takes the fields of the
    /// first declared type of that name, or none where no type has it, and keeps
    /// its name.
    pub fn name_and_fields(
        self,
        registered_structs: &Vec<TypeAnnotation>,
        query_name: &Parsed<String>,
        name_suffix: Option<&str>,
    ) -> (r: (Vec<NullableIdent>, Parsed<String>))
        ensures
            match self {
                QueryDataStruct::Implicit { idents } => {
                    &&& r.0 == idents
                    &&& r.1.value@ == upper_camel_of(query_name.value@) + suffix_of(name_suffix)
                    &&& r.1.start == query_name.start
                    &&& r.1.end == query_name.end
                },
                QueryDataStruct::Named(name) => {
                    &&& r.0@ == fields_of_named(registered_structs@, name.value@)
                    &&& r.1 == name
                },
            },
    {
        match self {
            QueryDataStruct::Implicit { idents } => {
                let camel = to_upper_camel(query_name.value.as_str());
                (idents, implicit_name(camel.as_str(), query_name, name_suffix))
            },
            QueryDataStruct::Named(name) => {
                let fields = fields_named(registered_structs, &name);
                (fields, name)
            },
        }
    }
}

} // verus!

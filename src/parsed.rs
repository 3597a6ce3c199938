//! Values tagged with the span of source text they were read from.
use vstd::prelude::*;
use crate::sql::seq_lt;
use crate::text::chars_of;
use std::cmp::Ordering;

verus! {

/// A value and the character range `start..end` of the source it was parsed from.
/// The range serves diagnostics only: equality looks at the value alone.
#[derive(Debug, Clone)]
pub struct Parsed<T> {
    pub start: usize,
    pub end: usize,
    pub value: T,
}

impl<T> Parsed<T> {
    /// Applies `f` to the value and keeps the span.
    pub fn map<U, F: Fn(&T) -> U>(&self, f: F) -> (r: Parsed<U>)
        requires
            f.requires((&self.value,)),
        ensures
            f.ensures((&self.value,), r.value),
            r.start == self.start,
            r.end == self.end,
    {
        Parsed { value: f(&self.value), start: self.start, end: self.end }
    }
}

impl PartialEq for Parsed<String> {
    fn eq(&self, other: &Parsed<String>) -> (r: bool)
        ensures
            r == (self.value@ == other.value@),
    {
        self.value == other.value
    }
}

impl vstd::std_specs::cmp::PartialEqSpecImpl for Parsed<String> {
    open spec fn obeys_eq_spec() -> bool {
        true
    }

    open spec fn eq_spec(&self, other: &Parsed<String>) -> bool {
        self.value@ == other.value@
    }
}

impl Eq for Parsed<String> {
}

/// Lexicographic order of character sequences.
pub open spec fn order_of(a: Seq<char>, b: Seq<char>) -> Ordering {
    if seq_lt(a, b) {
        Ordering::Less
    } else if a == b {
        Ordering::Equal
    } else {
        Ordering::Greater
    }
}

/// Compares `a` and `b` lexicographically.
pub fn compare_chars(a: &Vec<char>, b: &Vec<char>) -> (r: Ordering)
    ensures
        r == order_of(a@, b@),
{
    let mut q: usize = 0;
    assert(a@.subrange(0, a@.len() as int) =~= a@);
    assert(b@.subrange(0, b@.len() as int) =~= b@);
    loop
        invariant
            q <= a.len(),
            q <= b.len(),
            a@.subrange(0, q as int) == b@.subrange(0, q as int),
            seq_lt(a@, b@) == seq_lt(
                a@.subrange(q as int, a@.len() as int),
                b@.subrange(q as int, b@.len() as int),
            ),
        decreases a.len() - q,
    {
        let ghost xs = a@.subrange(q as int, a@.len() as int);
        let ghost ys = b@.subrange(q as int, b@.len() as int);
        if q == a.len() {
            if q < b.len() {
                return Ordering::Less;
            }
            assert(a@ =~= a@.subrange(0, q as int));
            assert(b@ =~= b@.subrange(0, q as int));
            return Ordering::Equal;
        }
        if q == b.len() {
            assert(a@.len() != b@.len());
            return Ordering::Greater;
        }
        assert(xs[0] == a@[q as int] && ys[0] == b@[q as int]);
        if a[q] != b[q] {
            assert(a@[q as int] != b@[q as int]);
            return if a[q] < b[q] {
                Ordering::Less
            } else {
                Ordering::Greater
            };
        }
        assert(xs.drop_first() =~= a@.subrange(q + 1, a@.len() as int));
        assert(ys.drop_first() =~= b@.subrange(q + 1, b@.len() as int));
        assert(a@.subrange(0, q + 1) =~= a@.subrange(0, q as int).push(a@[q as int]));
        assert(b@.subrange(0, q + 1) =~= b@.subrange(0, q as int).push(b@[q as int]));
        q = q + 1;
    }
}

impl PartialOrd for Parsed<String> {
    fn partial_cmp(&self, other: &Parsed<String>) -> (r: Option<Ordering>)
        ensures
            r == Some(order_of(self.value@, other.value@)),
    {
        let a = chars_of(self.value.as_str());
        let b = chars_of(other.value.as_str());
        Some(compare_chars(&a, &b))
    }
}

impl vstd::std_specs::cmp::PartialOrdSpecImpl for Parsed<String> {
    open spec fn obeys_partial_cmp_spec() -> bool {
        true
    }

    open spec fn partial_cmp_spec(&self, other: &Parsed<String>) -> Option<Ordering> {
        Some(order_of(self.value@, other.value@))
    }
}

} // verus!

//! Queries and filters.

use crate::bytes::bytes_lt;
use crate::document_id::DocumentId;
use crate::value::{
    float_is_nan, float_le, float_rank, is_nan, same_value, value_lt, Datum, Value,
};
use std::cmp::Ordering;
use vstd::prelude::*;

verus! {

/// The "Liquid AST": IngoDB's query interface.
///
/// No SQL. Queries are constructed as Rust data structures (AST nodes).
/// This is the interface between the application and the storage engine.
#[derive(Debug, Clone)]
pub enum Query {
    /// Point lookup by document ID
    Get { id: DocumentId },
    /// Scan with optional filter, sort, projection, and limit
    Scan {
        filter: Option<Filter>,
        sort: Option<Vec<SortField>>,
        project: Option<Vec<String>>,
        limit: Option<usize>,
    },
    /// Graph traversal as join-by-value.
    ///
    /// Starting from documents matching `start` filter, follow edges by joining
    /// `from_field` values against `to_field` values of other documents.
    /// A simple join is depth=1. Depth>1 repeats the join from the results.
    ///
    /// Example: find users referenced by orders
    /// ```text
    /// Traverse {
    ///     start: Some(Eq { field: "type", value: "order" }),
    ///     from_field: "user_id",
    ///     to_field: "_id",
    ///     depth: 1,
    /// }
    /// ```
    Traverse {
        /// Filter for starting documents (None = all documents)
        start: Option<Filter>,
        /// Field on source documents whose value is the join key
        from_field: String,
        /// Field on target documents to match against
        to_field: String,
        /// Number of hops (1 = simple join)
        depth: usize,
    },
}

/// Filter predicates for scan queries.
#[derive(Debug)]
pub enum Filter {
    /// Field equals a value
    Eq { field: String, value: Value },
    /// Field is greater than a value
    Gt { field: String, value: Value },
    /// Field is less than a value
    Lt { field: String, value: Value },
    /// Field is within a range [low, high)
    Range { field: String, low: Value, high: Value },
    /// Field exists in the document
    Exists { field: String },
    /// Logical AND of filters
    And(Vec<Filter>),
    /// Logical OR of filters
    Or(Vec<Filter>),
    /// Logical NOT
    Not(Box<Filter>),
}

/// Result of a query execution.
#[derive(Debug, Clone)]
pub struct QueryResult {
    pub documents: Vec<DocumentResult>,
}

/// A single document in a query result, possibly projected.
#[derive(Debug, Clone)]
pub struct DocumentResult {
    pub id: DocumentId,
    pub fields: Vec<(String, Value)>,
}

/// Sort direction.
#[derive(Debug, Clone, Copy, PartialEq, Eq)]
pub enum SortDirection {
    Ascending,
    Descending,
}

/// A field to sort by, with direction.
#[derive(Debug, Clone)]
pub struct SortField {
    pub field: String,
    pub direction: SortDirection,
}

/// A [`Filter`] as a mathematical value.
pub enum Condition {
    Eq { field: Seq<char>, value: Datum },
    Gt { field: Seq<char>, value: Datum },
    Lt { field: Seq<char>, value: Datum },
    Range { field: Seq<char>, low: Datum, high: Datum },
    Exists { field: Seq<char> },
    And(Seq<Condition>),
    Or(Seq<Condition>),
    Not(Box<Condition>),
}

/// The mathematical value that a [`Filter`] stands for.
pub open spec fn condition(f: Filter) -> Condition
    decreases f,
{
    match f {
        Filter::Eq { field, value } => Condition::Eq { field: field@, value: value@ },
        Filter::Gt { field, value } => Condition::Gt { field: field@, value: value@ },
        Filter::Lt { field, value } => Condition::Lt { field: field@, value: value@ },
        Filter::Range { field, low, high } => Condition::Range {
            field: field@,
            low: low@,
            high: high@,
        },
        Filter::Exists { field } => Condition::Exists { field: field@ },
        Filter::And(parts) => Condition::And(
            Seq::new(
                parts@.len(),
                |i: int|
                    if 0 <= i < parts@.len() {
                        condition(parts@[i])
                    } else {
                        Condition::And(seq![])
                    },
            ),
        ),
        Filter::Or(parts) => Condition::Or(
            Seq::new(
                parts@.len(),
                |i: int|
                    if 0 <= i < parts@.len() {
                        condition(parts@[i])
                    } else {
                        Condition::And(seq![])
                    },
            ),
        ),
        Filter::Not(part) => Condition::Not(Box::new(condition(*part))),
    }
}

impl View for Filter {
    type V = Condition;

    open spec fn view(&self) -> Condition {
        condition(*self)
    }
}

/// Some filters as mathematical values.
pub open spec fn part_views(parts: Seq<Filter>) -> Seq<Condition> {
    Seq::new(parts.len(), |i: int| parts[i]@)
}

pub proof fn lemma_and_view(parts: Vec<Filter>)
    ensures
        Filter::And(parts)@ == Condition::And(part_views(parts@)),
        Filter::Or(parts)@ == Condition::Or(part_views(parts@)),
{
    let a = Filter::And(parts);
    let o = Filter::Or(parts);
    assert(a@->And_0 =~= part_views(parts@));
    assert(o@->Or_0 =~= part_views(parts@));
}

/// Whether two values of one comparable type are equal.
pub open spec fn value_eq(a: Datum, b: Datum) -> bool {
    match (a, b) {
        (Datum::Bool(x), Datum::Bool(y)) => x == y,
        (Datum::I64(x), Datum::I64(y)) => x == y,
        (Datum::U64(x), Datum::U64(y)) => x == y,
        (Datum::F64(x), Datum::F64(y)) => !is_nan(x) && !is_nan(y) && float_rank(x) == float_rank(
            y,
        ),
        (Datum::Text(x), Datum::Text(y)) => x == y,
        (Datum::Bytes(x), Datum::Bytes(y)) => x == y,
        _ => false,
    }
}

/// How two values compare, if they do: values of different types do not, nor do a NaN, an
/// identifier, an array, a document and null.
pub open spec fn value_order(a: Datum, b: Datum) -> Option<Ordering> {
    if value_lt(a, b) {
        Some(Ordering::Less)
    } else if value_lt(b, a) {
        Some(Ordering::Greater)
    } else if value_eq(a, b) {
        Some(Ordering::Equal)
    } else {
        None
    }
}

/// Whether a condition holds of a document whose fields are given by `get`.
pub open spec fn holds(c: Condition, get: spec_fn(Seq<char>) -> Option<Datum>) -> bool
    decreases c,
{
    match c {
        Condition::Eq { field, value } => get(field) matches Some(v) && same_value(v, value),
        Condition::Gt { field, value } => get(field) matches Some(v) && value_lt(value, v),
        Condition::Lt { field, value } => get(field) matches Some(v) && value_lt(v, value),
        Condition::Range { field, low, high } => get(field) matches Some(v) && (value_lt(low, v)
            || value_eq(low, v)) && value_lt(v, high),
        Condition::Exists { field } => get(field) is Some,
        Condition::And(parts) => forall|i: int|
            0 <= i < parts.len() ==> holds(#[trigger] parts[i], get),
        Condition::Or(parts) => exists|i: int|
            0 <= i < parts.len() && holds(#[trigger] parts[i], get),
        Condition::Not(part) => !holds(*part, get),
    }
}

/// Whether a function that reads fields gives what `get` says.
pub open spec fn reads<F: Fn(&str) -> Option<Value>>(
    f: F,
    get: spec_fn(Seq<char>) -> Option<Datum>,
) -> bool {
    forall|name: &str, value: Option<Value>|
        #[trigger] call_ensures(f, (name,), value) ==> match value {
            Some(v) => get(name@) == Some(v@),
            None => get(name@) is None,
        }
}

/// Order of two numbers.
fn order_of(less: bool, greater: bool) -> (r: Ordering)
    ensures
        r == (if less {
            Ordering::Less
        } else if greater {
            Ordering::Greater
        } else {
            Ordering::Equal
        }),
{
    if less {
        Ordering::Less
    } else if greater {
        Ordering::Greater
    } else {
        Ordering::Equal
    }
}

/// Compare two values of the same type. Returns None for incompatible types.
pub fn compare_values(a: &Value, b: &Value) -> (r: Option<Ordering>)
    ensures
        r == value_order(a@, b@),
{
    match (a, b) {
        (Value::I64(x), Value::I64(y)) => Some(order_of(*x < *y, *y < *x)),
        (Value::U64(x), Value::U64(y)) => Some(order_of(*x < *y, *y < *x)),
        (Value::F64(x), Value::F64(y)) => if float_is_nan(*x) || float_is_nan(*y) {
            None
        } else {
            Some(order_of(!float_le(*y, *x), !float_le(*x, *y)))
        },
        (Value::String(x), Value::String(y)) => {
            let xs = x.as_str().as_bytes();
            let ys = y.as_str().as_bytes();
            proof {
                crate::bytes::lemma_lex_strict(xs@, ys@);
                crate::bytes::lemma_lex_total(xs@, ys@);
                vstd::utf8::encode_utf8_decode_utf8(x@);
                vstd::utf8::encode_utf8_decode_utf8(y@);
            }
            Some(order_of(bytes_lt(xs, ys), bytes_lt(ys, xs)))
        },
        (Value::Bytes(x), Value::Bytes(y)) => {
            proof {
                crate::bytes::lemma_lex_strict(x@, y@);
                crate::bytes::lemma_lex_total(x@, y@);
            }
            Some(
                order_of(
                    bytes_lt(x.as_slice(), y.as_slice()),
                    bytes_lt(y.as_slice(), x.as_slice()),
                ),
            )
        },
        (Value::Bool(x), Value::Bool(y)) => Some(order_of(!*x && *y, !*y && *x)),
        _ => None,
    }
}

/// Whether `a` compares as less than `b`.
fn is_less(a: &Value, b: &Value) -> (r: bool)
    ensures
        r == value_lt(a@, b@),
{
    matches!(compare_values(a, b), Some(Ordering::Less))
}

/// Whether `a` compares as less than or equal to `b`.
fn is_at_most(a: &Value, b: &Value) -> (r: bool)
    ensures
        r == (value_lt(a@, b@) || value_eq(a@, b@)),
{
    proof {
        lemma_value_order(a@, b@);
    }
    matches!(compare_values(a, b), Some(Ordering::Less) | Some(Ordering::Equal))
}

proof fn lemma_value_order(a: Datum, b: Datum)
    ensures
        value_lt(a, b) ==> !value_lt(b, a),
        value_eq(a, b) ==> !value_lt(a, b) && !value_lt(b, a),
{
    match (a, b) {
        (Datum::Text(x), Datum::Text(y)) => {
            crate::bytes::lemma_lex_strict(vstd::utf8::encode_utf8(x), vstd::utf8::encode_utf8(y));
        },
        (Datum::Bytes(x), Datum::Bytes(y)) => {
            crate::bytes::lemma_lex_strict(x, y);
        },
        _ => {},
    }
}

/// Comparing two values the other way round gives the opposite order.
pub proof fn law_order_is_antisymmetric(a: Datum, b: Datum)
    ensures
        value_order(b, a) == (match value_order(a, b) {
            Some(Ordering::Less) => Some(Ordering::Greater),
            Some(Ordering::Greater) => Some(Ordering::Less),
            other => other,
        }),
{
    lemma_value_order(a, b);
    lemma_value_order(b, a);
}

/// The order of values is transitive.
pub proof fn law_order_is_transitive(a: Datum, b: Datum, c: Datum)
    requires
        value_lt(a, b),
        value_lt(b, c),
    ensures
        value_lt(a, c),
{
    match (a, b, c) {
        (Datum::Text(x), Datum::Text(y), Datum::Text(z)) => {
            crate::bytes::lemma_lex_transitive(
                vstd::utf8::encode_utf8(x),
                vstd::utf8::encode_utf8(y),
                vstd::utf8::encode_utf8(z),
            );
        },
        (Datum::Bytes(x), Datum::Bytes(y), Datum::Bytes(z)) => {
            crate::bytes::lemma_lex_transitive(x, y, z);
        },
        _ => {},
    }
}

impl Filter {
    /// Evaluate this filter against a document's fields.
    pub fn matches<F: Fn(&str) -> Option<Value>>(&self, get_field: &F) -> (r: bool)
        requires
            forall|name: &str| call_requires(*get_field, (name,)),
        ensures
            forall|get: spec_fn(Seq<char>) -> Option<Datum>| #[trigger]
                reads(*get_field, get) ==> r == holds(self@, get),
        decreases self,
    {
        match self {
            Filter::Eq { field, value } => match get_field(field.as_str()) {
                Some(v) => v.same(value),
                None => false,
            },
            Filter::Gt { field, value } => match get_field(field.as_str()) {
                Some(v) => is_less(value, &v),
                None => false,
            },
            Filter::Lt { field, value } => match get_field(field.as_str()) {
                Some(v) => is_less(&v, value),
                None => false,
            },
            Filter::Range { field, low, high } => match get_field(field.as_str()) {
                Some(v) => is_at_most(low, &v) && is_less(&v, high),
                None => false,
            },
            Filter::Exists { field } => get_field(field.as_str()).is_some(),
            Filter::And(parts) => {
                proof {
                    lemma_and_view(*parts);
                }
                let n: usize = parts.len();
                let mut i: usize = 0;
                while i < n
                    invariant
                        n == parts@.len(),
                        i <= n,
                        *self == Filter::And(*parts),
                        self@ == Condition::And(part_views(parts@)),
                        forall|name: &str| call_requires(*get_field, (name,)),
                        forall|get: spec_fn(Seq<char>) -> Option<Datum>, j: int|
                            0 <= j < i && #[trigger] reads(*get_field, get) ==> holds(
                                #[trigger] part_views(parts@)[j],
                                get,
                            ),
                    decreases n - i,
                {
                    let part = &parts[i];
                    assert(decreases_to!(*self => self->And_0));
                    assert(part_views(parts@)[i as int] == part@);
                    if !part.matches(get_field) {
                        assert forall|get: spec_fn(Seq<char>) -> Option<Datum>| #[trigger]
                            reads(*get_field, get) implies !holds(self@, get) by {
                            let conditions = self@->And_0;
                            assert(!holds(conditions[i as int], get));
                        }
                        return false;
                    }
                    i += 1;
                }
                true
            },
            Filter::Or(parts) => {
                proof {
                    lemma_and_view(*parts);
                }
                let n: usize = parts.len();
                let mut i: usize = 0;
                while i < n
                    invariant
                        n == parts@.len(),
                        i <= n,
                        *self == Filter::Or(*parts),
                        self@ == Condition::Or(part_views(parts@)),
                        forall|name: &str| call_requires(*get_field, (name,)),
                        forall|get: spec_fn(Seq<char>) -> Option<Datum>, j: int|
                            0 <= j < i && #[trigger] reads(*get_field, get) ==> !holds(
                                #[trigger] part_views(parts@)[j],
                                get,
                            ),
                    decreases n - i,
                {
                    let part = &parts[i];
                    assert(decreases_to!(*self => self->Or_0));
                    assert(part_views(parts@)[i as int] == part@);
                    if part.matches(get_field) {
                        assert forall|get: spec_fn(Seq<char>) -> Option<Datum>| #[trigger]
                            reads(*get_field, get) implies holds(self@, get) by {
                            let conditions = self@->Or_0;
                            assert(holds(conditions[i as int], get));
                        }
                        return true;
                    }
                    i += 1;
                }
                false
            },
            Filter::Not(part) => !part.matches(get_field),
        }
    }
}

impl Filter {
    /// A deep copy of this filter.
    fn duplicate(&self) -> (r: Self)
        ensures
            r@ == self@,
        decreases self,
    {
        match self {
            Filter::Eq { field, value } => Filter::Eq {
                field: field.clone(),
                value: value.clone(),
            },
            Filter::Gt { field, value } => Filter::Gt {
                field: field.clone(),
                value: value.clone(),
            },
            Filter::Lt { field, value } => Filter::Lt {
                field: field.clone(),
                value: value.clone(),
            },
            Filter::Range { field, low, high } => Filter::Range {
                field: field.clone(),
                low: low.clone(),
                high: high.clone(),
            },
            Filter::Exists { field } => Filter::Exists { field: field.clone() },
            Filter::And(parts) => {
                let n: usize = parts.len();
                let mut copy: Vec<Filter> = Vec::new();
                let mut i: usize = 0;
                while i < n
                    invariant
                        n == parts@.len(),
                        i <= n,
                        *self == Filter::And(*parts),
                        copy@.len() == i,
                        forall|j: int| 0 <= j < i ==> (#[trigger] copy@[j])@ == parts@[j]@,
                    decreases n - i,
                {
                    let part = &parts[i];
                    assert(decreases_to!(*self => self->And_0));
                    copy.push(part.duplicate());
                    i += 1;
                }
                proof {
                    lemma_and_view(*parts);
                    lemma_and_view(copy);
                    assert(part_views(copy@) =~= part_views(parts@));
                }
                Filter::And(copy)
            },
            Filter::Or(parts) => {
                let n: usize = parts.len();
                let mut copy: Vec<Filter> = Vec::new();
                let mut i: usize = 0;
                while i < n
                    invariant
                        n == parts@.len(),
                        i <= n,
                        *self == Filter::Or(*parts),
                        copy@.len() == i,
                        forall|j: int| 0 <= j < i ==> (#[trigger] copy@[j])@ == parts@[j]@,
                    decreases n - i,
                {
                    let part = &parts[i];
                    assert(decreases_to!(*self => self->Or_0));
                    copy.push(part.duplicate());
                    i += 1;
                }
                proof {
                    lemma_and_view(*parts);
                    lemma_and_view(copy);
                    assert(part_views(copy@) =~= part_views(parts@));
                }
                Filter::Or(copy)
            },
            Filter::Not(part) => Filter::Not(Box::new(part.duplicate())),
        }
    }
}

impl Clone for Filter {
    fn clone(&self) -> (r: Self)
        ensures
            r@ == self@,
    {
        self.duplicate()
    }
}

/// Equality of conditions: the same shape and fields, with equal values.
pub open spec fn same_condition(a: Condition, b: Condition) -> bool
    decreases a,
{
    match (a, b) {
        (
            Condition::Eq { field: f, value: v },
            Condition::Eq { field: g, value: w },
        ) => f == g && same_value(v, w),
        (
            Condition::Gt { field: f, value: v },
            Condition::Gt { field: g, value: w },
        ) => f == g && same_value(v, w),
        (
            Condition::Lt { field: f, value: v },
            Condition::Lt { field: g, value: w },
        ) => f == g && same_value(v, w),
        (
            Condition::Range { field: f, low: l, high: h },
            Condition::Range { field: g, low: m, high: k },
        ) => f == g && same_value(l, m) && same_value(h, k),
        (Condition::Exists { field: f }, Condition::Exists { field: g }) => f == g,
        (Condition::And(x), Condition::And(y)) => x.len() == y.len() && forall|i: int|
            0 <= i < x.len() ==> same_condition(#[trigger] x[i], y[i]),
        (Condition::Or(x), Condition::Or(y)) => x.len() == y.len() && forall|i: int|
            0 <= i < x.len() ==> same_condition(#[trigger] x[i], y[i]),
        (Condition::Not(x), Condition::Not(y)) => same_condition(*x, *y),
        _ => false,
    }
}

impl Filter {
    /// Whether two filters are equal.
    pub fn same(&self, other: &Filter) -> (r: bool)
        ensures
            r == same_condition(self@, other@),
        decreases self,
    {
        match (self, other) {
            (
                Filter::Eq { field: f, value: v },
                Filter::Eq { field: g, value: w },
            ) => *f == *g && v.same(w),
            (
                Filter::Gt { field: f, value: v },
                Filter::Gt { field: g, value: w },
            ) => *f == *g && v.same(w),
            (
                Filter::Lt { field: f, value: v },
                Filter::Lt { field: g, value: w },
            ) => *f == *g && v.same(w),
            (
                Filter::Range { field: f, low: l, high: h },
                Filter::Range { field: g, low: m, high: k },
            ) => *f == *g && l.same(m) && h.same(k),
            (Filter::Exists { field: f }, Filter::Exists { field: g }) => *f == *g,
            (Filter::And(x), Filter::And(y)) => {
                proof {
                    lemma_and_view(*x);
                    lemma_and_view(*y);
                }
                if x.len() != y.len() {
                    return false;
                }
                let n: usize = x.len();
                let mut i: usize = 0;
                while i < n
                    invariant
                        n == x@.len(),
                        n == y@.len(),
                        i <= n,
                        *self == Filter::And(*x),
                        self@ == Condition::And(part_views(x@)),
                        other@ == Condition::And(part_views(y@)),
                        forall|j: int|
                            0 <= j < i ==> same_condition(
                                #[trigger] part_views(x@)[j],
                                part_views(y@)[j],
                            ),
                    decreases n - i,
                {
                    let part = &x[i];
                    assert(decreases_to!(*self => self->And_0));
                    assert(part_views(x@)[i as int] == part@);
                    if !part.same(&y[i]) {
                        return false;
                    }
                    i += 1;
                }
                true
            },
            (Filter::Or(x), Filter::Or(y)) => {
                proof {
                    lemma_and_view(*x);
                    lemma_and_view(*y);
                }
                if x.len() != y.len() {
                    return false;
                }
                let n: usize = x.len();
                let mut i: usize = 0;
                while i < n
                    invariant
                        n == x@.len(),
                        n == y@.len(),
                        i <= n,
                        *self == Filter::Or(*x),
                        self@ == Condition::Or(part_views(x@)),
                        other@ == Condition::Or(part_views(y@)),
                        forall|j: int|
                            0 <= j < i ==> same_condition(
                                #[trigger] part_views(x@)[j],
                                part_views(y@)[j],
                            ),
                    decreases n - i,
                {
                    let part = &x[i];
                    assert(decreases_to!(*self => self->Or_0));
                    assert(part_views(x@)[i as int] == part@);
                    if !part.same(&y[i]) {
                        return false;
                    }
                    i += 1;
                }
                true
            },
            (Filter::Not(x), Filter::Not(y)) => x.same(y),
            _ => false,
        }
    }
}

impl PartialEq for Filter {
    fn eq(&self, other: &Self) -> (r: bool) {
        self.same(other)
    }
}

impl vstd::std_specs::cmp::PartialEqSpecImpl for Filter {
    open spec fn obeys_eq_spec() -> bool {
        true
    }

    open spec fn eq_spec(&self, other: &Self) -> bool {
        same_condition(self@, other@)
    }
}

} // verus!

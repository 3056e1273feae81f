//! Laws of filters: what they select, and when two of them are equal.

use crate::query::{
    condition, holds, lemma_and_view, part_views, reads, same_condition, value_order, Condition,
    Filter,
};
use crate::stats::mentions;
use crate::value::{same_value, value_lt, Datum, Value};
use crate::value_laws::{
    has_float, has_nan, law_equal_values_compare_alike, law_equality_is_identity,
    law_equality_is_reflexive, law_equality_is_symmetric,
    law_order_is_total, orderable,
};
use std::cmp::Ordering;
use vstd::prelude::*;

verus! {

/// Every filter stands for the condition of its own kind, on the same field, with the same
/// values and the same parts.
pub proof fn law_filter_views(
    field: String,
    value: Value,
    low: Value,
    high: Value,
    parts: Vec<Filter>,
    part: Filter,
)
    ensures
        (Filter::Eq { field, value })@ == (Condition::Eq { field: field@, value: value@ }),
        (Filter::Gt { field, value })@ == (Condition::Gt { field: field@, value: value@ }),
        (Filter::Lt { field, value })@ == (Condition::Lt { field: field@, value: value@ }),
        (Filter::Range { field, low, high })@ == (Condition::Range {
            field: field@,
            low: low@,
            high: high@,
        }),
        (Filter::Exists { field })@ == (Condition::Exists { field: field@ }),
        Filter::And(parts)@ == Condition::And(Seq::new(parts@.len(), |i: int| parts@[i]@)),
        Filter::Or(parts)@ == Condition::Or(Seq::new(parts@.len(), |i: int| parts@[i]@)),
        Filter::Not(Box::new(part))@ == Condition::Not(Box::new(part@)),
{
    lemma_and_view(parts);
    assert(part_views(parts@) =~= Seq::new(parts@.len(), |i: int| parts@[i]@));
    let not = Filter::Not(Box::new(part));
    assert(condition(not) == Condition::Not(Box::new(condition(part))));
}

/// A function reads a document where each of its results is the value that the document has for
/// the name, and nothing only where the document has none.
pub proof fn law_reading<F: Fn(&str) -> Option<Value>>(
    f: F,
    get: spec_fn(Seq<char>) -> Option<Datum>,
)
    ensures
        reads(f, get) <==> forall|name: &str, value: Option<Value>|
            #[trigger] call_ensures(f, (name,), value) ==> (value is Some <==> get(name@) is Some)
                && (value matches Some(v) ==> get(name@) == Some(v@)),
{
}

/// A conjunction holds exactly where each of its parts does: where it holds no part fails, and
/// where it fails some part does. Without parts it holds.
pub proof fn law_and_needs_every_part(
    parts: Seq<Condition>,
    get: spec_fn(Seq<char>) -> Option<Datum>,
    i: int,
)
    requires
        0 <= i < parts.len(),
    ensures
        holds(Condition::And(parts), get) ==> holds(parts[i], get),
        !holds(parts[i], get) ==> !holds(Condition::And(parts), get),
        !holds(Condition::And(parts), get) ==> exists|j: int|
            0 <= j < parts.len() && !holds(#[trigger] parts[j], get),
        holds(Condition::And(seq![]), get),
{
    let c = Condition::And(parts);
    assert(c->And_0 == parts);
    let none = Condition::And(seq![]);
    assert(none->And_0 =~= seq![]);
}

/// A disjunction holds exactly where one of its parts does. Without parts it fails.
pub proof fn law_or_needs_one_part(
    parts: Seq<Condition>,
    get: spec_fn(Seq<char>) -> Option<Datum>,
    i: int,
)
    requires
        0 <= i < parts.len(),
    ensures
        holds(parts[i], get) ==> holds(Condition::Or(parts), get),
        holds(Condition::Or(parts), get) ==> exists|j: int|
            0 <= j < parts.len() && holds(#[trigger] parts[j], get),
        !holds(Condition::Or(seq![]), get),
{
    let c = Condition::Or(parts);
    assert(c->Or_0 == parts);
    let none = Condition::Or(seq![]);
    assert(none->Or_0 =~= seq![]);
}

/// A negation holds exactly where its part does not.
pub proof fn law_not_is_the_opposite(c: Condition, get: spec_fn(Seq<char>) -> Option<Datum>)
    ensures
        holds(Condition::Not(Box::new(c)), get) == !holds(c, get),
        holds(Condition::Not(Box::new(Condition::Not(Box::new(c)))), get) == holds(c, get),
{
    let not = Condition::Not(Box::new(c));
    assert(*not->Not_0 == c);
    let again = Condition::Not(Box::new(not));
    assert(*again->Not_0 == not);
}

/// The negations of some conditions.
pub open spec fn negated(parts: Seq<Condition>) -> Seq<Condition> {
    Seq::new(parts.len(), |i: int| Condition::Not(Box::new(parts[i])))
}

/// A conjunction holds exactly where no part's negation does, and a disjunction exactly where
/// not all of them do.
pub proof fn law_de_morgan(parts: Seq<Condition>, get: spec_fn(Seq<char>) -> Option<Datum>)
    ensures
        holds(Condition::And(parts), get) == !holds(Condition::Or(negated(parts)), get),
        holds(Condition::Or(parts), get) == !holds(Condition::And(negated(parts)), get),
{
    let nots = negated(parts);
    assert forall|i: int| 0 <= i < parts.len() implies holds(#[trigger] nots[i], get) == !holds(
        parts[i],
        get,
    ) by {
        law_not_is_the_opposite(parts[i], get);
    }
    let and = Condition::And(parts);
    let or = Condition::Or(parts);
    let and_nots = Condition::And(nots);
    let or_nots = Condition::Or(nots);
    assert(and->And_0 == parts && or->Or_0 == parts);
    assert(and_nots->And_0 == nots && or_nots->Or_0 == nots);
    if holds(and, get) && holds(or_nots, get) {
        let i = choose|i: int| 0 <= i < nots.len() && holds(#[trigger] nots[i], get);
        assert(holds(parts[i], get));
    }
    if !holds(and, get) {
        let i = choose|i: int| 0 <= i < parts.len() && !holds(#[trigger] parts[i], get);
        assert(holds(nots[i], get));
    }
    if holds(or, get) {
        let i = choose|i: int| 0 <= i < parts.len() && holds(#[trigger] parts[i], get);
        assert(!holds(nots[i], get));
    }
    if !holds(or, get) {
        assert forall|i: int| 0 <= i < nots.len() implies holds(#[trigger] nots[i], get) by {
            assert(!holds(parts[i], get));
        }
    }
}

/// No condition on a field holds of a document that lacks the field.
pub proof fn law_missing_field_fails(
    field: Seq<char>,
    value: Datum,
    low: Datum,
    high: Datum,
    get: spec_fn(Seq<char>) -> Option<Datum>,
)
    requires
        get(field) is None,
    ensures
        !holds(Condition::Exists { field }, get),
        !holds(Condition::Eq { field, value }, get),
        !holds(Condition::Gt { field, value }, get),
        !holds(Condition::Lt { field, value }, get),
        !holds(Condition::Range { field, low, high }, get),
{
}

/// A condition on a field asks how the document's value compares: `Eq` whether it is equal,
/// `Gt` whether it is greater and `Lt` whether it is less. Where the two values have an order
/// exactly one of the three holds, and where they have none neither `Gt` nor `Lt` does.
pub proof fn law_conditions_compare(
    field: Seq<char>,
    value: Datum,
    held: Datum,
    get: spec_fn(Seq<char>) -> Option<Datum>,
)
    requires
        get(field) == Some(held),
    ensures
        holds(Condition::Exists { field }, get),
        holds(Condition::Eq { field, value }, get) <==> same_value(held, value),
        holds(Condition::Gt { field, value }, get) <==> value_order(held, value) == Some(
            Ordering::Greater,
        ),
        holds(Condition::Lt { field, value }, get) <==> value_order(held, value) == Some(
            Ordering::Less,
        ),
        orderable(held, value) ==> {
            ||| holds(Condition::Eq { field, value }, get)
            ||| holds(Condition::Gt { field, value }, get)
            ||| holds(Condition::Lt { field, value }, get)
        },
        !(holds(Condition::Eq { field, value }, get) && holds(Condition::Gt { field, value }, get)),
        !(holds(Condition::Eq { field, value }, get) && holds(Condition::Lt { field, value }, get)),
        !(holds(Condition::Gt { field, value }, get) && holds(Condition::Lt { field, value }, get)),
        !orderable(held, value) ==> !holds(Condition::Gt { field, value }, get) && !holds(
            Condition::Lt { field, value },
            get,
        ),
{
    law_order_is_total(held, value);
}

/// A range holds from its lower bound on, and below its upper bound: the lower bound itself is
/// within, the upper one is not.
pub proof fn law_range_is_half_open(
    field: Seq<char>,
    low: Datum,
    high: Datum,
    held: Datum,
    get: spec_fn(Seq<char>) -> Option<Datum>,
)
    requires
        get(field) == Some(held),
    ensures
        holds(Condition::Range { field, low, high }, get) <==> (value_order(held, low) == Some(
            Ordering::Greater,
        ) || value_order(held, low) == Some(Ordering::Equal)) && value_order(held, high) == Some(
            Ordering::Less,
        ),
        orderable(held, low) ==> (holds(Condition::Range { field, low, high }, get) <==> !holds(
            Condition::Lt { field, value: low },
            get,
        ) && holds(Condition::Lt { field, value: high }, get)),
        !orderable(held, low) ==> !holds(Condition::Range { field, low, high }, get),
        value_lt(low, high) && same_value(held, low) && orderable(low, high) ==> holds(
            Condition::Range { field, low, high },
            get,
        ),
        same_value(held, high) ==> !holds(Condition::Range { field, low, high }, get),
{
    law_order_is_total(held, low);
    law_order_is_total(low, held);
    law_order_is_total(held, high);
    law_order_is_total(low, high);
    if same_value(held, low) {
        law_equal_values_compare_alike(held, low, high);
    }
}

/// Whether a filter holds depends only on the fields that it names.
pub proof fn law_only_named_fields_matter(
    c: Condition,
    get: spec_fn(Seq<char>) -> Option<Datum>,
    other: spec_fn(Seq<char>) -> Option<Datum>,
)
    requires
        forall|name: Seq<char>| #[trigger] mentions(c, name) ==> get(name) == other(name),
    ensures
        holds(c, get) == holds(c, other),
    decreases c,
{
    match c {
        Condition::And(parts) => {
            assert forall|i: int| 0 <= i < parts.len() implies holds(#[trigger] parts[i], get)
                == holds(parts[i], other) by {
                assert forall|name: Seq<char>| #[trigger] mentions(parts[i], name) implies get(name)
                    == other(name) by {
                    assert(mentions(c, name));
                }
                law_only_named_fields_matter(parts[i], get, other);
            }
        },
        Condition::Or(parts) => {
            assert forall|i: int| 0 <= i < parts.len() implies holds(#[trigger] parts[i], get)
                == holds(parts[i], other) by {
                assert forall|name: Seq<char>| #[trigger] mentions(parts[i], name) implies get(name)
                    == other(name) by {
                    assert(mentions(c, name));
                }
                law_only_named_fields_matter(parts[i], get, other);
            }
        },
        Condition::Not(part) => {
            assert forall|name: Seq<char>| #[trigger] mentions(*part, name) implies get(name)
                == other(name) by {
                assert(mentions(c, name));
            }
            law_only_named_fields_matter(*part, get, other);
        },
        Condition::Eq { field, .. } => {
            assert(mentions(c, field));
        },
        Condition::Gt { field, .. } => {
            assert(mentions(c, field));
        },
        Condition::Lt { field, .. } => {
            assert(mentions(c, field));
        },
        Condition::Range { field, .. } => {
            assert(mentions(c, field));
        },
        Condition::Exists { field } => {
            assert(mentions(c, field));
        },
    }
}

/// A condition on a field names that field alone, and a condition with parts names exactly the
/// fields that its parts name.
pub proof fn law_named_fields(
    field: Seq<char>,
    value: Datum,
    low: Datum,
    high: Datum,
    parts: Seq<Condition>,
    part: Condition,
    name: Seq<char>,
)
    ensures
        mentions(Condition::Eq { field, value }, name) <==> name == field,
        mentions(Condition::Gt { field, value }, name) <==> name == field,
        mentions(Condition::Lt { field, value }, name) <==> name == field,
        mentions(Condition::Range { field, low, high }, name) <==> name == field,
        mentions(Condition::Exists { field }, name) <==> name == field,
        mentions(Condition::And(parts), name) <==> exists|i: int|
            0 <= i < parts.len() && mentions(#[trigger] parts[i], name),
        mentions(Condition::Or(parts), name) <==> exists|i: int|
            0 <= i < parts.len() && mentions(#[trigger] parts[i], name),
        mentions(Condition::Not(Box::new(part)), name) <==> mentions(part, name),
{
    let and = Condition::And(parts);
    let or = Condition::Or(parts);
    let not = Condition::Not(Box::new(part));
    assert(and->And_0 == parts && or->Or_0 == parts && *not->Not_0 == part);
}

/// Equal filters select the same documents.
pub proof fn law_equal_filters_select_alike(
    a: Condition,
    b: Condition,
    get: spec_fn(Seq<char>) -> Option<Datum>,
)
    requires
        same_condition(a, b),
    ensures
        holds(a, get) == holds(b, get),
    decreases a,
{
    match (a, b) {
        (Condition::Eq { field, value: v }, Condition::Eq { value: w, .. }) => {
            if let Some(held) = get(field) {
                law_equal_values_compare_alike(v, w, held);
            }
        },
        (Condition::Gt { field, value: v }, Condition::Gt { value: w, .. }) => {
            if let Some(held) = get(field) {
                law_equal_values_compare_alike(v, w, held);
                law_order_is_total(v, held);
                law_order_is_total(w, held);
            }
        },
        (Condition::Lt { field, value: v }, Condition::Lt { value: w, .. }) => {
            if let Some(held) = get(field) {
                law_equal_values_compare_alike(v, w, held);
                law_order_is_total(held, v);
                law_order_is_total(held, w);
            }
        },
        (
            Condition::Range { field, low: l, high: h },
            Condition::Range { low: m, high: k, .. },
        ) => {
            if let Some(held) = get(field) {
                law_equal_values_compare_alike(l, m, held);
                law_equal_values_compare_alike(h, k, held);
                law_range_is_half_open(field, l, h, held, get);
                law_range_is_half_open(field, m, k, held, get);
            }
        },
        (Condition::And(xs), Condition::And(ys)) => {
            assert forall|i: int| 0 <= i < xs.len() implies holds(#[trigger] xs[i], get) == holds(
                ys[i],
                get,
            ) by {
                law_equal_filters_select_alike(xs[i], ys[i], get);
            }
            if holds(a, get) {
                assert forall|i: int| 0 <= i < ys.len() implies holds(#[trigger] ys[i], get) by {
                    assert(holds(xs[i], get));
                }
            }
        },
        (Condition::Or(xs), Condition::Or(ys)) => {
            assert forall|i: int| 0 <= i < xs.len() implies holds(#[trigger] xs[i], get) == holds(
                ys[i],
                get,
            ) by {
                law_equal_filters_select_alike(xs[i], ys[i], get);
            }
            if holds(a, get) {
                let i = choose|i: int| 0 <= i < xs.len() && holds(#[trigger] xs[i], get);
                assert(holds(ys[i], get));
            }
            if holds(b, get) {
                let i = choose|i: int| 0 <= i < ys.len() && holds(#[trigger] ys[i], get);
                assert(holds(xs[i], get));
            }
        },
        (Condition::Not(x), Condition::Not(y)) => {
            law_equal_filters_select_alike(*x, *y, get);
        },
        _ => {},
    }
}

/// Whether a condition compares with a floating-point number, at any depth.
pub open spec fn names_float(c: Condition) -> bool
    decreases c,
{
    match c {
        Condition::Eq { value, .. } => has_float(value),
        Condition::Gt { value, .. } => has_float(value),
        Condition::Lt { value, .. } => has_float(value),
        Condition::Range { low, high, .. } => has_float(low) || has_float(high),
        Condition::Exists { .. } => false,
        Condition::And(parts) => exists|i: int|
            0 <= i < parts.len() && names_float(#[trigger] parts[i]),
        Condition::Or(parts) => exists|i: int|
            0 <= i < parts.len() && names_float(#[trigger] parts[i]),
        Condition::Not(part) => names_float(*part),
    }
}

/// Whether a condition compares with a NaN, at any depth.
pub open spec fn names_nan(c: Condition) -> bool
    decreases c,
{
    match c {
        Condition::Eq { value, .. } => has_nan(value),
        Condition::Gt { value, .. } => has_nan(value),
        Condition::Lt { value, .. } => has_nan(value),
        Condition::Range { low, high, .. } => has_nan(low) || has_nan(high),
        Condition::Exists { .. } => false,
        Condition::And(parts) => exists|i: int|
            0 <= i < parts.len() && names_nan(#[trigger] parts[i]),
        Condition::Or(parts) => exists|i: int|
            0 <= i < parts.len() && names_nan(#[trigger] parts[i]),
        Condition::Not(part) => names_nan(*part),
    }
}

/// Filters without floating-point numbers are equal exactly where they are the same filter: of
/// one kind, on the same field, with the same values, and with the same parts in the same order.
pub proof fn law_filter_equality_is_identity(a: Condition, b: Condition)
    requires
        !names_float(a),
    ensures
        same_condition(a, b) <==> a == b,
    decreases a,
{
    match (a, b) {
        (Condition::Eq { value: v, .. }, Condition::Eq { value: w, .. }) => {
            law_equality_is_identity(v, w);
        },
        (Condition::Gt { value: v, .. }, Condition::Gt { value: w, .. }) => {
            law_equality_is_identity(v, w);
        },
        (Condition::Lt { value: v, .. }, Condition::Lt { value: w, .. }) => {
            law_equality_is_identity(v, w);
        },
        (
            Condition::Range { low: l, high: h, .. },
            Condition::Range { low: m, high: k, .. },
        ) => {
            law_equality_is_identity(l, m);
            law_equality_is_identity(h, k);
        },
        (Condition::And(xs), Condition::And(ys)) => {
            if xs.len() == ys.len() {
                assert forall|i: int| 0 <= i < xs.len() implies (same_condition(
                    #[trigger] xs[i],
                    ys[i],
                ) <==> xs[i] == ys[i]) by {
                    law_filter_equality_is_identity(xs[i], ys[i]);
                }
                if same_condition(a, b) {
                    assert(xs =~= ys);
                }
            }
        },
        (Condition::Or(xs), Condition::Or(ys)) => {
            if xs.len() == ys.len() {
                assert forall|i: int| 0 <= i < xs.len() implies (same_condition(
                    #[trigger] xs[i],
                    ys[i],
                ) <==> xs[i] == ys[i]) by {
                    law_filter_equality_is_identity(xs[i], ys[i]);
                }
                if same_condition(a, b) {
                    assert(xs =~= ys);
                }
            }
        },
        (Condition::Not(x), Condition::Not(y)) => {
            law_filter_equality_is_identity(*x, *y);
        },
        _ => {},
    }
}

/// A filter is equal to itself exactly where it compares with no NaN.
pub proof fn law_filter_equality_is_reflexive(a: Condition)
    ensures
        same_condition(a, a) <==> !names_nan(a),
    decreases a,
{
    match a {
        Condition::Eq { value, .. } => {
            law_equality_is_reflexive(value);
        },
        Condition::Gt { value, .. } => {
            law_equality_is_reflexive(value);
        },
        Condition::Lt { value, .. } => {
            law_equality_is_reflexive(value);
        },
        Condition::Range { low, high, .. } => {
            law_equality_is_reflexive(low);
            law_equality_is_reflexive(high);
        },
        Condition::Exists { .. } => {},
        Condition::And(xs) => {
            assert forall|i: int| 0 <= i < xs.len() implies (same_condition(
                #[trigger] xs[i],
                xs[i],
            ) <==> !names_nan(xs[i])) by {
                law_filter_equality_is_reflexive(xs[i]);
            }
        },
        Condition::Or(xs) => {
            assert forall|i: int| 0 <= i < xs.len() implies (same_condition(
                #[trigger] xs[i],
                xs[i],
            ) <==> !names_nan(xs[i])) by {
                law_filter_equality_is_reflexive(xs[i]);
            }
        },
        Condition::Not(x) => {
            law_filter_equality_is_reflexive(*x);
        },
    }
}

/// Equality of filters is symmetric.
pub proof fn law_filter_equality_is_symmetric(a: Condition, b: Condition)
    ensures
        same_condition(a, b) ==> same_condition(b, a),
    decreases a,
{
    if same_condition(a, b) {
        match (a, b) {
            (Condition::Eq { value: v, .. }, Condition::Eq { value: w, .. }) => {
                law_equality_is_symmetric(v, w);
            },
            (Condition::Gt { value: v, .. }, Condition::Gt { value: w, .. }) => {
                law_equality_is_symmetric(v, w);
            },
            (Condition::Lt { value: v, .. }, Condition::Lt { value: w, .. }) => {
                law_equality_is_symmetric(v, w);
            },
            (
                Condition::Range { low: l, high: h, .. },
                Condition::Range { low: m, high: k, .. },
            ) => {
                law_equality_is_symmetric(l, m);
                law_equality_is_symmetric(h, k);
            },
            (Condition::And(xs), Condition::And(ys)) => {
                assert forall|i: int| 0 <= i < ys.len() implies same_condition(
                    #[trigger] ys[i],
                    xs[i],
                ) by {
                    assert(same_condition(xs[i], ys[i]));
                    law_filter_equality_is_symmetric(xs[i], ys[i]);
                }
            },
            (Condition::Or(xs), Condition::Or(ys)) => {
                assert forall|i: int| 0 <= i < ys.len() implies same_condition(
                    #[trigger] ys[i],
                    xs[i],
                ) by {
                    assert(same_condition(xs[i], ys[i]));
                    law_filter_equality_is_symmetric(xs[i], ys[i]);
                }
            },
            (Condition::Not(x), Condition::Not(y)) => {
                law_filter_equality_is_symmetric(*x, *y);
            },
            _ => {},
        }
    }
}

/// Filters of one kind on one field are equal exactly where the values that they compare with
/// are, both bounds in the case of a range.
pub proof fn law_filter_equality_compares_values(
    field: Seq<char>,
    v: Datum,
    w: Datum,
    x: Datum,
    y: Datum,
)
    ensures
        same_condition(Condition::Eq { field, value: v }, Condition::Eq { field, value: w })
            <==> same_value(v, w),
        same_condition(Condition::Gt { field, value: v }, Condition::Gt { field, value: w })
            <==> same_value(v, w),
        same_condition(Condition::Lt { field, value: v }, Condition::Lt { field, value: w })
            <==> same_value(v, w),
        same_condition(
            Condition::Range { field, low: v, high: x },
            Condition::Range { field, low: w, high: y },
        ) <==> same_value(v, w) && same_value(x, y),
{
}

} // verus!

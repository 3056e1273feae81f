use ingodb::iblob::IBlob;
use ingodb::query::{compare_values, Filter};
use ingodb::value::Value;
use std::cmp::Ordering;

fn field_getter(fields: &[(String, Value)]) -> impl Fn(&str) -> Option<Value> + '_ {
    move |name: &str| {
        fields
            .iter()
            .find(|(k, _)| k == name)
            .map(|(_, v)| v.clone())
    }
}

#[test]
fn test_eq_filter() {
    let fields = vec![
        ("name".to_string(), Value::String("Henrik".into())),
        ("age".to_string(), Value::U64(42)),
    ];
    let getter = field_getter(&fields);

    let filter = Filter::Eq {
        field: "name".into(),
        value: Value::String("Henrik".into()),
    };
    assert!(filter.matches(&getter));

    let filter = Filter::Eq {
        field: "name".into(),
        value: Value::String("NotHenrik".into()),
    };
    assert!(!filter.matches(&getter));
}

#[test]
fn test_gt_lt_filters() {
    let fields = vec![("score".to_string(), Value::I64(75))];
    let getter = field_getter(&fields);

    assert!(Filter::Gt {
        field: "score".into(),
        value: Value::I64(50),
    }
    .matches(&getter));

    assert!(!Filter::Gt {
        field: "score".into(),
        value: Value::I64(100),
    }
    .matches(&getter));

    assert!(Filter::Lt {
        field: "score".into(),
        value: Value::I64(100),
    }
    .matches(&getter));
}

#[test]
fn test_range_filter() {
    let fields = vec![("x".to_string(), Value::U64(50))];
    let getter = field_getter(&fields);

    assert!(Filter::Range {
        field: "x".into(),
        low: Value::U64(10),
        high: Value::U64(100),
    }
    .matches(&getter));

    assert!(!Filter::Range {
        field: "x".into(),
        low: Value::U64(60),
        high: Value::U64(100),
    }
    .matches(&getter));
}

#[test]
fn test_exists_filter() {
    let fields = vec![("present".to_string(), Value::Null)];
    let getter = field_getter(&fields);

    assert!(Filter::Exists {
        field: "present".into(),
    }
    .matches(&getter));

    assert!(!Filter::Exists {
        field: "absent".into(),
    }
    .matches(&getter));
}

#[test]
fn test_and_or_not() {
    let fields = vec![
        ("a".to_string(), Value::U64(10)),
        ("b".to_string(), Value::U64(20)),
    ];
    let getter = field_getter(&fields);

    let and = Filter::And(vec![
        Filter::Eq {
            field: "a".into(),
            value: Value::U64(10),
        },
        Filter::Eq {
            field: "b".into(),
            value: Value::U64(20),
        },
    ]);
    assert!(and.matches(&getter));

    let or = Filter::Or(vec![
        Filter::Eq {
            field: "a".into(),
            value: Value::U64(999),
        },
        Filter::Eq {
            field: "b".into(),
            value: Value::U64(20),
        },
    ]);
    assert!(or.matches(&getter));

    let not = Filter::Not(Box::new(Filter::Eq {
        field: "a".into(),
        value: Value::U64(999),
    }));
    assert!(not.matches(&getter));
}

#[test]
fn test_compare_incompatible_types() {
    assert_eq!(
        compare_values(&Value::I64(1), &Value::String("x".into())),
        None
    );
}

#[test]
fn test_filter_evaluation() {
    let blob = IBlob::from_pairs(vec![
        ("type", Value::String("user".into())),
        ("name", Value::String("FilterTest".into())),
        ("age", Value::U64(30)),
    ]);
    let get_field = |name: &str| blob.get(name).cloned();

    let filter = Filter::Gt {
        field: "age".into(),
        value: Value::U64(25),
    };
    assert!(filter.matches(&get_field));

    let compound = Filter::And(vec![
        Filter::Eq {
            field: "name".into(),
            value: Value::String("FilterTest".into()),
        },
        Filter::Lt {
            field: "age".into(),
            value: Value::U64(50),
        },
    ]);
    assert!(compound.matches(&get_field));
}

#[test]
fn values_of_one_type_compare() {
    let f = |x: f64| Value::F64(x.to_bits());
    assert_eq!(
        compare_values(&Value::I64(-1), &Value::I64(1)),
        Some(Ordering::Less)
    );
    assert_eq!(
        compare_values(&Value::U64(2), &Value::U64(1)),
        Some(Ordering::Greater)
    );
    assert_eq!(compare_values(&f(-0.0), &f(0.0)), Some(Ordering::Equal));
    assert_eq!(compare_values(&f(-2.5), &f(1.5)), Some(Ordering::Less));
    assert_eq!(compare_values(&f(f64::NAN), &f(1.5)), None);
    assert_eq!(
        compare_values(&Value::String("a".into()), &Value::String("ab".into())),
        Some(Ordering::Less)
    );
    assert_eq!(
        compare_values(&Value::Bytes(vec![2]), &Value::Bytes(vec![1, 9])),
        Some(Ordering::Greater)
    );
    assert_eq!(
        compare_values(&Value::Bool(false), &Value::Bool(true)),
        Some(Ordering::Less)
    );
    assert_eq!(compare_values(&Value::Null, &Value::Null), None);
    assert_eq!(compare_values(&Value::U64(1), &Value::I64(1)), None);
}

#[test]
fn the_bounds_of_a_range_are_half_open() {
    let fields = vec![("x".to_string(), Value::U64(50))];
    let getter = field_getter(&fields);
    let range = |low: u64, high: u64| Filter::Range {
        field: "x".into(),
        low: Value::U64(low),
        high: Value::U64(high),
    };
    assert!(range(50, 51).matches(&getter));
    assert!(!range(40, 50).matches(&getter));
}

#[test]
fn empty_junctions_and_missing_fields() {
    let fields: Vec<(String, Value)> = Vec::new();
    let getter = field_getter(&fields);
    assert!(Filter::And(Vec::new()).matches(&getter));
    assert!(!Filter::Or(Vec::new()).matches(&getter));
    assert!(!Filter::Eq {
        field: "x".into(),
        value: Value::Null,
    }
    .matches(&getter));
    assert!(!Filter::Lt {
        field: "x".into(),
        value: Value::U64(1),
    }
    .matches(&getter));
}

#[test]
fn filters_are_equal_when_they_have_one_shape() {
    let eq = |n: u64| Filter::Eq {
        field: "x".into(),
        value: Value::U64(n),
    };
    assert!(Filter::And(vec![eq(1), eq(2)]) == Filter::And(vec![eq(1), eq(2)]));
    assert!(Filter::And(vec![eq(1), eq(2)]) != Filter::And(vec![eq(2), eq(1)]));
    assert!(Filter::And(vec![eq(1)]) != Filter::Or(vec![eq(1)]));
    assert!(Filter::Not(Box::new(eq(1))) == Filter::Not(Box::new(eq(1).clone())));
}

#[test]
fn comparisons_turn_around_and_chain() {
    let values = [
        Value::Null,
        Value::Bool(false),
        Value::Bool(true),
        Value::I64(-3),
        Value::I64(4),
        Value::U64(0),
        Value::U64(9),
        Value::F64((-1.5f64).to_bits()),
        Value::F64(2.5f64.to_bits()),
        Value::F64(f64::NAN.to_bits()),
        Value::String("a".into()),
        Value::String("b".into()),
        Value::Bytes(vec![]),
        Value::Bytes(vec![0]),
    ];
    for a in &values {
        for b in &values {
            let there = compare_values(a, b);
            assert_eq!(compare_values(b, a), there.map(Ordering::reverse));
            for c in &values {
                if there == Some(Ordering::Less)
                    && compare_values(b, c) == Some(Ordering::Less)
                {
                    assert_eq!(compare_values(a, c), Some(Ordering::Less));
                }
            }
        }
    }
}

use ingodb::query::Filter;
use ingodb::stats::{extract_filter_fields, QueryMetrics, QueryPattern, QueryStats, QueryTimer};
use ingodb::value::Value;
use std::time::{Duration, Instant};

fn scan_pattern(filter_fields: &[&str], sort_fields: &[&str]) -> QueryPattern {
    QueryPattern {
        query_type: "scan".into(),
        filter_fields: filter_fields.iter().map(|s| s.to_string()).collect(),
        sort_fields: sort_fields.iter().map(|s| s.to_string()).collect(),
        join_edge: None,
    }
}

fn millis(n: u64) -> u128 {
    Duration::from_millis(n).as_nanos()
}

fn ratio(fraction: (u64, u64)) -> f64 {
    fraction.0 as f64 / fraction.1 as f64
}

#[test]
fn test_record_and_retrieve() {
    let mut stats = QueryStats::new();
    let pattern = scan_pattern(&["age"], &[]);

    stats.record(QueryMetrics {
        pattern: pattern.clone(),
        latency: millis(10),
        docs_scanned: 1000,
        docs_returned: 50,
    });

    let ps = stats.get_pattern(&pattern).unwrap();
    assert_eq!(ps.count, 1);
    assert_eq!(ps.total_scanned, 1000);
    assert_eq!(ps.total_returned, 50);
}

#[test]
fn test_aggregation() {
    let mut stats = QueryStats::new();
    let pattern = scan_pattern(&["name"], &[]);

    for _ in 0..10 {
        stats.record(QueryMetrics {
            pattern: pattern.clone(),
            latency: millis(5),
            docs_scanned: 100,
            docs_returned: 10,
        });
    }

    let ps = stats.get_pattern(&pattern).unwrap();
    assert_eq!(ps.count, 10);
    assert_eq!(ps.total_latency, millis(50));
    assert_eq!(ps.total_scanned, 1000);
    assert_eq!(ps.total_returned, 100);
    assert_eq!(ps.avg_latency(), millis(5));
}

#[test]
fn test_selectivity() {
    let mut stats = QueryStats::new();
    let pattern = scan_pattern(&["email"], &[]);

    stats.record(QueryMetrics {
        pattern: pattern.clone(),
        latency: millis(100),
        docs_scanned: 10_000,
        docs_returned: 1,
    });

    let ps = stats.get_pattern(&pattern).unwrap();
    assert!(
        ratio(ps.selectivity()) < 0.001,
        "very low selectivity — index candidate"
    );
}

#[test]
fn test_low_selectivity_detection() {
    let mut stats = QueryStats::new();

    // Pattern 1: high selectivity (returns most docs)
    let p1 = scan_pattern(&["type"], &[]);
    for _ in 0..5 {
        stats.record(QueryMetrics {
            pattern: p1.clone(),
            latency: millis(10),
            docs_scanned: 100,
            docs_returned: 80,
        });
    }

    // Pattern 2: low selectivity (returns few docs: index candidate)
    let p2 = scan_pattern(&["email"], &[]);
    for _ in 0..5 {
        stats.record(QueryMetrics {
            pattern: p2.clone(),
            latency: millis(50),
            docs_scanned: 10_000,
            docs_returned: 1,
        });
    }

    let candidates = stats.low_selectivity((1, 100), 3);
    assert_eq!(candidates.len(), 1);
    assert_eq!(candidates[0].0, p2);
}

#[test]
fn test_top_by_count() {
    let mut stats = QueryStats::new();

    let p1 = scan_pattern(&["a"], &[]);
    let p2 = scan_pattern(&["b"], &[]);

    for _ in 0..10 {
        stats.record(QueryMetrics {
            pattern: p1.clone(),
            latency: millis(1),
            docs_scanned: 10,
            docs_returned: 5,
        });
    }
    for _ in 0..3 {
        stats.record(QueryMetrics {
            pattern: p2.clone(),
            latency: millis(1),
            docs_scanned: 10,
            docs_returned: 5,
        });
    }

    let top = stats.top_by_count(1);
    assert_eq!(top.len(), 1);
    assert_eq!(top[0].0, p1);
    assert_eq!(top[0].1.count, 10);
}

#[test]
fn test_distinct_patterns() {
    let mut stats = QueryStats::new();

    // Same query type but different filter fields = different patterns
    let p1 = scan_pattern(&["age"], &[]);
    let p2 = scan_pattern(&["name"], &[]);

    stats.record(QueryMetrics {
        pattern: p1.clone(),
        latency: millis(1),
        docs_scanned: 10,
        docs_returned: 5,
    });
    stats.record(QueryMetrics {
        pattern: p2.clone(),
        latency: millis(1),
        docs_scanned: 10,
        docs_returned: 5,
    });

    assert_eq!(stats.all_patterns().len(), 2);
}

#[test]
fn test_traverse_pattern() {
    let mut stats = QueryStats::new();
    let pattern = QueryPattern {
        query_type: "traverse".into(),
        filter_fields: vec!["type".into()],
        sort_fields: vec![],
        join_edge: Some(("user_id".into(), "_id".into())),
    };

    stats.record(QueryMetrics {
        pattern: pattern.clone(),
        latency: millis(20),
        docs_scanned: 500,
        docs_returned: 3,
    });

    let ps = stats.get_pattern(&pattern).unwrap();
    assert_eq!(ps.count, 1);
    assert!(ratio(ps.selectivity()) < 0.01);
}

#[test]
fn test_extract_filter_fields() {
    let filter = Filter::And(vec![
        Filter::Eq {
            field: "type".into(),
            value: Value::String("user".into()),
        },
        Filter::Gt {
            field: "age".into(),
            value: Value::U64(30),
        },
    ]);

    let fields = extract_filter_fields(&filter);
    assert_eq!(fields, vec!["age", "type"]);
}

#[test]
fn test_query_timer() {
    let pattern = scan_pattern(&["x"], &["y"]);
    let mut timer = QueryTimer::start(pattern);
    timer.set_docs_scanned(100);
    let begin = std::time::Instant::now();
    while begin.elapsed() < Duration::from_millis(1) {}
    let metrics = timer.finish(10);
    assert!(metrics.latency >= millis(1));
    assert_eq!(metrics.docs_scanned, 100);
    assert_eq!(metrics.docs_returned, 10);
    assert_eq!(metrics.pattern.sort_fields, vec!["y"]);
}

#[test]
fn test_reset() {
    let mut stats = QueryStats::new();
    stats.record(QueryMetrics {
        pattern: scan_pattern(&["a"], &[]),
        latency: millis(1),
        docs_scanned: 10,
        docs_returned: 5,
    });
    assert_eq!(stats.all_patterns().len(), 1);
    stats.reset();
    assert_eq!(stats.all_patterns().len(), 0);
}

#[test]
fn timers_give_the_latency_that_has_passed() {
    let timer = QueryTimer::start(scan_pattern(&[], &[]));
    let metrics = timer.finish_after(1234, 7);
    assert_eq!(metrics.latency, 1234);
    assert_eq!(metrics.docs_scanned, 0);
    assert_eq!(metrics.docs_returned, 7);
}

#[test]
fn averages_round_down_and_nothing_scanned_is_fully_selective() {
    let mut stats = QueryStats::default();
    let pattern = scan_pattern(&["n"], &[]);
    for latency in [3u128, 4, 4] {
        stats.record(QueryMetrics {
            pattern: pattern.clone(),
            latency,
            docs_scanned: 0,
            docs_returned: 0,
        });
    }
    let ps = stats.get_pattern(&pattern).unwrap();
    assert_eq!(ps.avg_latency(), 3);
    assert_eq!(ps.selectivity(), (1, 1));
    assert!(stats.low_selectivity((1, 1), 1).is_empty());
    assert_eq!(stats.low_selectivity((2, 1), 3).len(), 1);
    assert!(stats.low_selectivity((2, 1), 4).is_empty());
    assert!(stats.get_pattern(&scan_pattern(&[], &["n"])).is_none());
}

#[test]
fn the_most_executed_patterns_come_first() {
    let mut stats = QueryStats::new();
    for (name, count) in [("a", 2), ("b", 5), ("c", 2), ("d", 9)] {
        for _ in 0..count {
            stats.record(QueryMetrics {
                pattern: scan_pattern(&[name], &[]),
                latency: 1,
                docs_scanned: 1,
                docs_returned: 1,
            });
        }
    }
    let names: Vec<String> = stats
        .top_by_count(10)
        .into_iter()
        .map(|(p, _)| p.filter_fields[0].clone())
        .collect();
    assert_eq!(names, vec!["d", "b", "a", "c"]);
    assert!(stats.top_by_count(0).is_empty());
}

#[test]
fn field_names_are_listed_once() {
    let exists = |name: &str| Filter::Exists {
        field: name.to_string(),
    };
    let filter = Filter::Or(vec![
        Filter::Not(Box::new(exists("b"))),
        Filter::And(vec![
            exists("a"),
            Filter::Range {
                field: "b".into(),
                low: Value::Null,
                high: Value::Null,
            },
        ]),
        Filter::Lt {
            field: "B".into(),
            value: Value::Null,
        },
    ]);
    assert_eq!(extract_filter_fields(&filter), vec!["B", "a", "b"]);
    assert!(extract_filter_fields(&Filter::And(Vec::new())).is_empty());
}

#[test]
fn the_latency_is_the_time_since_the_start() {
    let start = Instant::now() - Duration::from_secs(5);
    let mut timer = QueryTimer::start_at(scan_pattern(&["a"], &[]), start);
    timer.set_docs_scanned(9);
    let metrics = timer.finish(4);
    assert!(metrics.latency >= millis(5000));
    assert!(metrics.latency <= start.elapsed().as_nanos());
    assert_eq!(metrics.docs_scanned, 9);
    assert_eq!(metrics.docs_returned, 4);
}

#[test]
fn every_fraction_is_below_a_threshold_without_denominator() {
    let mut stats = QueryStats::new();
    for (name, scanned, returned) in [("none", 0, 0), ("some", 10, 3), ("more", 1, u64::MAX)] {
        stats.record(QueryMetrics {
            pattern: scan_pattern(&[name], &[]),
            latency: 0,
            docs_scanned: scanned,
            docs_returned: returned,
        });
    }
    assert_eq!(stats.low_selectivity((1, 0), 1).len(), 3);
    assert_eq!(stats.low_selectivity((1, 0), 2).len(), 0);
    assert_eq!(stats.low_selectivity((3, 10), 1).len(), 0);
    assert_eq!(stats.low_selectivity((4, 10), 1).len(), 1);
}

use benostreamdb::search::aggs::{
    and_filter, buckets, check_interval, count_sql, date_histogram_sql, first_filled,
    histogram_sql, interval_filter, metric_sql, missing_filter, named_aggregations, nested_of,
    parse_aggregation, range_filter, range_key, stats_sql, term_filter, terms_sql, where_clause,
    Aggregation, JsonTree,
};
use benostreamdb::search::qdrant_types::JsonValue;
use benostreamdb::textmap::TextMap;

fn text(s: &str) -> JsonTree {
    JsonTree::Text(s.to_string())
}

fn number(s: &str) -> JsonTree {
    JsonTree::Number(s.to_string())
}

fn object(members: Vec<(&str, JsonTree)>) -> JsonTree {
    JsonTree::Object(
        members
            .into_iter()
            .map(|(k, v)| (k.to_string(), v))
            .collect(),
    )
}

#[test]
fn terms_have_a_size() {
    let request = object(vec![
        ("aggs", object(vec![])),
        ("terms", object(vec![("field", text("city"))])),
    ]);
    match parse_aggregation(&request).unwrap() {
        Aggregation::Terms { field, size } => {
            assert_eq!(field, "city");
            assert_eq!(size, 10);
        }
        other => panic!("{other:?}"),
    }
    assert!(nested_of(&request).is_some());
    let sized = object(vec![(
        "terms",
        object(vec![("field", text("city")), ("size", number("3"))]),
    )]);
    assert!(matches!(
        parse_aggregation(&sized).unwrap(),
        Aggregation::Terms { size: 3, .. }
    ));
    assert!(nested_of(&sized).is_none());
}

#[test]
fn requests_are_refused_with_a_reason() {
    let reason = |r: JsonTree| parse_aggregation(&r).unwrap_err();
    assert_eq!(reason(text("x")), "aggregation: expected an object");
    assert_eq!(
        reason(object(vec![("meta", text("x"))])),
        "aggregation: missing type"
    );
    assert_eq!(
        reason(object(vec![("top_hits", object(vec![]))])),
        "unsupported aggregation type 'top_hits'"
    );
    assert_eq!(
        reason(object(vec![("avg", object(vec![]))])),
        "aggregation: 'field' must be a string"
    );
    assert_eq!(
        reason(object(vec![("avg", object(vec![("field", text("a b"))]))])),
        "invalid field name 'a b'"
    );
    assert_eq!(
        reason(object(vec![("histogram", object(vec![("field", text("n"))]))])),
        "histogram: 'interval' must be a number"
    );
    assert_eq!(
        reason(object(vec![("range", object(vec![("field", text("n"))]))])),
        "range: 'ranges' must be an array"
    );
    assert_eq!(
        named_aggregations(&JsonTree::Null).unwrap_err(),
        "aggregations: expected an object"
    );
    assert_eq!(
        check_interval(false).unwrap_err(),
        "histogram: 'interval' must be > 0"
    );
    assert!(check_interval(true).is_ok());
}

#[test]
fn dates_are_cut_off_at_units() {
    let unit = |name: &str, value: &str| {
        let request = object(vec![(
            "date_histogram",
            object(vec![("field", text("at")), (name, text(value))]),
        )]);
        match parse_aggregation(&request).unwrap() {
            Aggregation::DateHistogram { unit, .. } => unit,
            other => panic!("{other:?}"),
        }
    };
    assert_eq!(unit("calendar_interval", "1M"), "month");
    assert_eq!(unit("fixed_interval", "1m"), "minute");
    assert_eq!(unit("fixed_interval", "1q"), "quarter");
    assert_eq!(unit("fixed_interval", "fortnight"), "day");
    assert_eq!(unit("other", "1y"), "day");
}

#[test]
fn ranges_are_read() {
    let request = object(vec![(
        "range",
        object(vec![
            ("field", text("n")),
            (
                "ranges",
                JsonTree::List(vec![
                    object(vec![("to", number("5"))]),
                    object(vec![("key", text("high")), ("from", number("5"))]),
                ]),
            ),
        ]),
    )]);
    match parse_aggregation(&request).unwrap() {
        Aggregation::Range { field, ranges } => {
            assert_eq!(field, "n");
            assert_eq!(ranges[0].to.as_deref(), Some("5"));
            assert_eq!(ranges[0].from, None);
            assert_eq!(ranges[1].key.as_deref(), Some("high"));
        }
        other => panic!("{other:?}"),
    }
    assert_eq!(range_key(Some("high"), Some("5"), None), "high");
    assert_eq!(range_key(None, Some("5"), None), "5-*");
    assert_eq!(range_key(None, None, Some("5")), "*-5");
    assert_eq!(range_key(None, None, None), "*-*");
    assert_eq!(
        range_filter(Some("a = 1"), "n", Some("1"), Some("5")),
        "(a = 1) AND (n >= 1 AND n < 5)"
    );
    assert_eq!(range_filter(None, "n", None, None), "true");
}

#[test]
fn queries_are_written_out() {
    assert_eq!(where_clause(None), "");
    assert_eq!(where_clause(Some("  ")), "");
    assert_eq!(where_clause(Some("a = 1")), " WHERE (a = 1)");
    assert_eq!(and_filter(Some(""), "b"), "b");
    assert_eq!(and_filter(Some("a"), "b"), "(a) AND (b)");
    assert_eq!(
        terms_sql("city", Some("n > 1"), 3),
        "SELECT city AS key, COUNT(*) AS doc_count FROM t WHERE (n > 1) GROUP BY city ORDER BY doc_count DESC LIMIT 3"
    );
    assert_eq!(
        histogram_sql("n", "2.5", None),
        "SELECT floor(n / 2.5) * 2.5 AS key, COUNT(*) AS doc_count FROM t GROUP BY key ORDER BY key"
    );
    assert_eq!(
        date_histogram_sql("month", "at", None),
        "SELECT date_trunc('month', at) AS key, COUNT(*) AS doc_count FROM t GROUP BY key ORDER BY key"
    );
    assert_eq!(count_sql("n > 1"), "SELECT COUNT(*) FROM t WHERE (n > 1)");
    assert_eq!(
        metric_sql("cardinality", "n", None).unwrap(),
        "SELECT COUNT(DISTINCT n) AS value FROM t"
    );
    assert_eq!(
        metric_sql("avg", "n", Some("n > 1")).unwrap(),
        "SELECT AVG(n) AS value FROM t WHERE (n > 1)"
    );
    assert_eq!(
        metric_sql("median", "n", None).unwrap_err(),
        "unsupported metric 'median'"
    );
    assert_eq!(
        stats_sql("n", None),
        "SELECT COUNT(n) AS count, MIN(n) AS min, MAX(n) AS max, AVG(n) AS avg, SUM(n) AS sum, SUM(n * n) AS sum_sq FROM t"
    );
    assert_eq!(
        term_filter(Some("a"), "city", &JsonValue::Text("O'B".to_string())),
        "(a) AND (city = 'O''B')"
    );
    assert_eq!(
        interval_filter(None, "n", "5", "7.5"),
        "n >= 5 AND n < 7.5"
    );
    assert_eq!(missing_filter(None, "n"), "n IS NULL");
}

#[test]
fn rows_become_buckets() {
    let rows = vec![
        TextMap {
            items: vec![
                ("key".to_string(), JsonValue::Text("a".to_string())),
                ("doc_count".to_string(), JsonValue::Number("7".to_string())),
            ],
        },
        TextMap { items: vec![] },
    ];
    let list = buckets(&rows);
    assert!(matches!(&list[0].key, JsonValue::Text(s) if s == "a"));
    assert!(matches!(&list[0].doc_count, JsonValue::Number(n) if n == "7"));
    assert!(matches!(&list[1].key, JsonValue::Null));
    assert!(matches!(&list[1].doc_count, JsonValue::Number(n) if n == "0"));
    assert_eq!(first_filled(&vec![(0, 2), (3, 0), (1, 1)]), Some(2));
    assert_eq!(first_filled(&vec![(0, 2)]), None);
}

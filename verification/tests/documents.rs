use elastic_responses::{AggregationError, Aggregations, Json, Row};
use serde_json::Value;

fn tree_of(value: Value) -> Json {
    match value {
        Value::Null => Json::Null,
        Value::Bool(flag) => Json::Bool(flag),
        Value::Number(number) => Json::Number(number),
        Value::String(text) => Json::Text(text),
        Value::Array(items) => Json::Array(items.into_iter().map(tree_of).collect()),
        Value::Object(members) => {
            Json::Object(members.into_iter().map(|(name, value)| (name, tree_of(value))).collect())
        }
    }
}

fn aggregations_of(document: &str) -> Aggregations {
    let parsed: Value = serde_json::from_str(document).unwrap();
    Aggregations::new(tree_of(parsed))
}

fn leaf(document: &str) -> Json {
    tree_of(serde_json::from_str(document).unwrap())
}

fn table(row: &Row) -> Vec<(String, Json)> {
    let mut found = Vec::new();
    let mut index = 0;
    while let Some((name, value)) = row.column(index) {
        found.push((name.to_string(), leaf(&show(value))));
        index += 1;
    }
    found
}

fn show(value: &Json) -> String {
    match value {
        Json::Null => "null".to_string(),
        Json::Bool(flag) => flag.to_string(),
        Json::Number(number) => number.to_string(),
        Json::Text(text) => Value::String(text.clone()).to_string(),
        Json::Array(items) => {
            let shown: Vec<String> = items.iter().map(show).collect();
            format!("[{}]", shown.join(","))
        }
        Json::Object(members) => {
            let shown: Vec<String> = members
                .iter()
                .map(|(name, value)| format!("{}:{}", Value::String(name.clone()), show(value)))
                .collect();
            format!("{{{}}}", shown.join(","))
        }
    }
}

#[test]
fn terms_aggregation_from_a_document() {
    let aggregations = aggregations_of(
        r#"{"G": {"doc_count_error_upper_bound": 0, "sum_other_doc_count": 0,
            "buckets": [{"key": "a", "doc_count": 3}, {"key": "b", "doc_count": 5}]}}"#,
    );
    let rows = aggregations.iter().unwrap().collect().unwrap();
    assert_eq!(rows.len(), 2);
    assert_eq!(
        table(&rows[0]),
        vec![("G".to_string(), leaf(r#""a""#)), ("G_doc_count".to_string(), leaf("3"))]
    );
    assert_eq!(
        table(&rows[1]),
        vec![("G".to_string(), leaf(r#""b""#)), ("G_doc_count".to_string(), leaf("5"))]
    );
}

#[test]
fn nested_terms_with_metrics_from_a_document() {
    let aggregations = aggregations_of(
        r#"{"by_country": {"buckets": [
            {"key": "NZ", "doc_count": 9,
             "avg_price": {"value": 42.5},
             "by_city": {"buckets": [
                {"key": "Auckland", "doc_count": 6, "price": {"count": 6, "min": 1.0, "max": 9.5, "avg": 4.0, "sum": 24.0}},
                {"key": "Nelson", "doc_count": 3, "price": {"count": 3, "min": 2.0, "max": 3.0, "avg": 2.5, "sum": 7.5}}]}},
            {"key": "UK", "doc_count": 1,
             "avg_price": {"value": null},
             "by_city": {"buckets": [
                {"key": "Leeds", "doc_count": 1, "price": {"count": 1, "min": 8.0, "max": 8.0, "avg": 8.0, "sum": 8.0}}]}}
        ]}}"#,
    );
    let mut rows = aggregations.iter().unwrap();

    let first = rows.next().unwrap().unwrap();
    assert_eq!(first.len(), 10);
    assert_eq!(first.get("by_country"), Some(&leaf(r#""NZ""#)));
    assert_eq!(first.get("by_country_doc_count"), Some(&leaf("9")));
    assert_eq!(first.get("avg_price"), Some(&leaf("42.5")));
    assert_eq!(first.get("by_city"), Some(&leaf(r#""Auckland""#)));
    assert_eq!(first.get("by_city_doc_count"), Some(&leaf("6")));
    assert_eq!(first.get("price_count"), Some(&leaf("6")));
    assert_eq!(first.get("price_min"), Some(&leaf("1.0")));
    assert_eq!(first.get("price_max"), Some(&leaf("9.5")));
    assert_eq!(first.get("price_avg"), Some(&leaf("4.0")));
    assert_eq!(first.get("price_sum"), Some(&leaf("24.0")));

    let second = rows.next().unwrap().unwrap();
    assert_eq!(second.len(), 10);
    assert_eq!(second.get("by_country"), Some(&leaf(r#""NZ""#)));
    assert_eq!(second.get("by_country_doc_count"), Some(&leaf("9")));
    assert_eq!(second.get("avg_price"), Some(&leaf("42.5")));
    assert_eq!(second.get("by_city"), Some(&leaf(r#""Nelson""#)));
    assert_eq!(second.get("by_city_doc_count"), Some(&leaf("3")));
    assert_eq!(second.get("price_sum"), Some(&leaf("7.5")));

    let third = rows.next().unwrap().unwrap();
    assert_eq!(third.len(), 10);
    assert_eq!(third.get("by_country"), Some(&leaf(r#""UK""#)));
    assert_eq!(third.get("by_country_doc_count"), Some(&leaf("1")));
    assert_eq!(third.get("avg_price"), Some(&Json::Null));
    assert_eq!(third.get("by_city"), Some(&leaf(r#""Leeds""#)));
    assert_eq!(third.get("price_count"), Some(&leaf("1")));

    assert_eq!(rows.next(), None);
}

#[test]
fn sibling_aggregations_in_a_bucket_are_walked_last_first() {
    let aggregations = aggregations_of(
        r#"{"top": {"buckets": [
            {"key": "t",
             "left": {"buckets": [{"key": "l1"}, {"key": "l2"}]},
             "right": {"buckets": [{"key": "r1"}]}}
        ]}}"#,
    );
    let rows = aggregations.iter().unwrap().collect().unwrap();
    assert_eq!(rows.len(), 3);
    assert_eq!(
        table(&rows[0]),
        vec![("right".to_string(), leaf(r#""r1""#)), ("top".to_string(), leaf(r#""t""#))]
    );
    assert_eq!(rows[1].get("left"), Some(&leaf(r#""l1""#)));
    assert_eq!(rows[1].get("right"), Some(&leaf(r#""r1""#)));
    assert_eq!(rows[2].get("left"), Some(&leaf(r#""l2""#)));
    assert_eq!(rows[2].get("top"), Some(&leaf(r#""t""#)));
}

#[test]
fn a_document_with_a_broken_bucket() {
    let aggregations = aggregations_of(r#"{"G": {"buckets": [{"key": "a"}, "b"]}}"#);
    let mut rows = aggregations.iter().unwrap();
    assert_eq!(rows.next().unwrap().unwrap().get("G"), Some(&leaf(r#""a""#)));
    assert_eq!(rows.next(), Some(Err(AggregationError::MalformedAggregationNode)));
    assert_eq!(rows.next(), None);
}

#[test]
fn a_document_that_is_no_object() {
    let aggregations = aggregations_of("[1, 2]");
    assert_eq!(aggregations.iter().err(), Some(AggregationError::UnexpectedRootShape));
}

use elastic_responses::aggs::{classify, Aggregations, Child};
use elastic_responses::error::AggregationError;
use elastic_responses::json::{lookup, Json};
use elastic_responses::response::{Hits, Response, ResponseOf, Shards};
use elastic_responses::row::Row;
use elastic_responses::text::{compare, join, same, Order};

fn word(value: &str) -> Json {
    Json::Text(value.to_string())
}

fn count(value: u64) -> Json {
    Json::Number(serde_json::Number::from(value))
}

fn record(members: Vec<(&str, Json)>) -> Json {
    Json::Object(members.into_iter().map(|(name, value)| (name.to_string(), value)).collect())
}

fn response_with(aggregations: Option<Aggregations>) -> Response {
    let hits = Hits::new(2, 1, vec![word("first"), word("second")]);
    ResponseOf::new(12, false, Shards::new(5, 5, 0), hits, aggregations, Some(200))
}

#[test]
fn names_are_ordered_byte_by_byte() {
    assert_eq!(compare("a", "b"), Order::Before);
    assert_eq!(compare("b", "a"), Order::After);
    assert_eq!(compare("abc", "abc"), Order::Same);
    assert_eq!(compare("ab", "abc"), Order::Before);
    assert_eq!(compare("abc", "ab"), Order::After);
    assert_eq!(compare("", ""), Order::Same);
    assert_eq!(compare("", "a"), Order::Before);
    assert_eq!(compare("Z", "a"), Order::Before);
    assert_eq!(compare("z", "é"), Order::Before);
    assert!(same("doc_count", "doc_count"));
    assert!(!same("doc_count", "doc_counts"));
    assert!(!same("key", "kez"));
}

#[test]
fn composite_names_are_joined_with_an_underscore() {
    assert_eq!(join("price", "min"), "price_min");
    assert_eq!(join("G", "doc_count"), "G_doc_count");
    assert_eq!(join("", ""), "_");
    assert_eq!(join("a_", "_b"), "a___b");
}

#[test]
fn a_row_keeps_one_value_for_each_name_in_ascending_order() {
    let one = count(1);
    let two = count(2);
    let three = count(3);
    let mut row = Row::new();
    assert!(row.is_empty());
    assert_eq!(row.len(), 0);
    assert_eq!(row.get("m"), None);
    assert_eq!(row.column(0), None);
    row.insert("m".to_string(), &one);
    row.insert("z".to_string(), &two);
    row.insert("a".to_string(), &three);
    assert_eq!(row.len(), 3);
    assert!(!row.is_empty());
    assert_eq!(row.column(0), Some(("a", &three)));
    assert_eq!(row.column(1), Some(("m", &one)));
    assert_eq!(row.column(2), Some(("z", &two)));
    assert_eq!(row.column(3), None);
    row.insert("m".to_string(), &two);
    assert_eq!(row.len(), 3);
    assert_eq!(row.get("m"), Some(&two));
    assert_eq!(row.get("a"), Some(&three));
    assert_eq!(row.get("b"), None);
    let copy = row.snapshot();
    row.insert("a".to_string(), &one);
    assert_eq!(copy.get("a"), Some(&three));
    assert_eq!(row.get("a"), Some(&one));
    row.clear();
    assert!(row.is_empty());
    assert_eq!(copy.len(), 3);
}

#[test]
fn members_are_found_by_name() {
    let tree = record(vec![("a", count(1)), ("b", count(2)), ("a", count(3))]);
    assert_eq!(tree.get("a"), Some(&count(1)));
    assert_eq!(tree.get("b"), Some(&count(2)));
    assert_eq!(tree.get("c"), None);
    assert_eq!(count(1).get("a"), None);
    assert_eq!(Json::Array(vec![]).get("a"), None);
    let members = tree.as_object().unwrap();
    assert_eq!(members.len(), 3);
    assert_eq!(lookup(members, "b"), Some(&count(2)));
    assert_eq!(tree.as_array(), None);
    assert_eq!(Json::Array(vec![count(1)]).as_array(), Some(&vec![count(1)]));
    assert_eq!(word("a").as_object(), None);
}

#[test]
fn leaves_are_scalars() {
    assert!(Json::Null.is_scalar());
    assert!(Json::Bool(true).is_scalar());
    assert!(count(1).is_scalar());
    assert!(word("a").is_scalar());
    assert!(!Json::Array(vec![]).is_scalar());
    assert!(!record(vec![]).is_scalar());
}

#[test]
fn the_first_shape_that_fits_decides() {
    let all = record(vec![
        ("std_deviation_bounds", record(vec![])),
        ("count", count(1)),
        ("value", count(2)),
        ("buckets", Json::Array(vec![])),
    ]);
    assert!(matches!(classify(&all), Child::Buckets(found) if found.is_empty()));
    let metric = record(vec![
        ("std_deviation_bounds", record(vec![])),
        ("count", count(1)),
        ("value", count(2)),
        ("buckets", record(vec![])),
    ]);
    assert!(matches!(classify(&metric), Child::Metric(found) if *found == count(2)));
    let stats = record(vec![
        ("std_deviation_bounds", record(vec![])),
        ("variance", count(1)),
        ("value", record(vec![])),
    ]);
    assert!(matches!(classify(&stats), Child::Stats(found) if found.len() == 3));
    let bounds = record(vec![("std_deviation_bounds", record(vec![("upper", count(1))]))]);
    assert!(matches!(classify(&bounds), Child::Bounds(found) if found.len() == 1));
    let plain = record(vec![("std_deviation_bounds", count(1)), ("other", count(2))]);
    assert!(matches!(classify(&plain), Child::Plain));
    assert!(matches!(classify(&count(1)), Child::Plain));
    assert!(matches!(classify(&Json::Array(vec![])), Child::Plain));
    assert!(matches!(classify(&Json::Null), Child::Plain));
}

#[test]
fn a_response_hands_out_its_hits() {
    let response = response_with(None);
    assert_eq!(response.hits(), &vec![word("first"), word("second")]);
    let hits = Hits::new(1, 0, vec![7u32]);
    assert_eq!(hits.hits(), &vec![7u32]);
}

#[test]
fn a_response_without_aggregations_has_no_rows() {
    let response = response_with(None);
    assert_eq!(response.aggs().err(), Some(AggregationError::MissingAggregations));
    let mut rows = response.row_view().unwrap();
    assert_eq!(rows.next(), None);
    assert_eq!(rows.next(), None);
    assert_eq!(response.row_view().unwrap().collect(), Ok(vec![]));
}

#[test]
fn a_response_hands_out_its_aggregations() {
    let tree = || {
        record(vec![(
            "G",
            record(vec![("buckets", Json::Array(vec![record(vec![("key", word("a"))])]))]),
        )])
    };
    let response = response_with(Some(Aggregations::new(tree())));
    assert_eq!(response.aggs().unwrap().root(), &tree());
    let rows = response.row_view().unwrap().collect().unwrap();
    assert_eq!(rows.len(), 1);
    assert_eq!(rows[0].get("G"), Some(&word("a")));
}

#[test]
fn a_response_whose_aggregations_are_no_object_has_no_row_view() {
    let response = response_with(Some(Aggregations::new(count(3))));
    assert!(response.aggs().is_ok());
    assert_eq!(response.row_view().err(), Some(AggregationError::UnexpectedRootShape));
}

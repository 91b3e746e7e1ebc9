use firestore_model::json::Json;
use firestore_model::{
    serialize, validate, CollectionSelector, CompositeFilter, Cursor, Error, FieldFilter, FieldReference,
    Filter, Order, Projection, ReadOnly, ReadWrite, RunQueryRequest, StructuredQuery,
    TransactionOptions, UnaryFilter, Value, Wire,
};

fn object(members: Vec<(&str, Json)>) -> Json {
    Json::Object(members.into_iter().map(|(k, v)| (k.to_string(), v)).collect())
}

fn field(path: &str) -> Option<FieldReference> {
    Some(FieldReference { field_path: Some(path.to_string()) })
}

fn time_filter() -> Filter {
    Filter {
        field_filter: Some(FieldFilter {
            field: field("time"),
            op: Some("GREATER_THAN".to_string()),
            value: Some(Value::Integer(1000)),
        }),
        ..Default::default()
    }
}

fn is_null(path: &str) -> UnaryFilter {
    UnaryFilter { field: field(path), op: Some("IS_NULL".to_string()) }
}

#[test]
fn filter_with_two_kinds_or_none_is_invalid() {
    let both = Filter {
        field_filter: time_filter().field_filter,
        unary_filter: Some(is_null("a")),
        ..Default::default()
    };
    assert_eq!(serialize(&both), Err(Error::InvalidQuery));
    let none = Filter::default();
    assert_eq!(serialize(&none), Err(Error::InvalidQuery));
    let tree = object(vec![]);
    assert_eq!(Filter::from_json(&tree), Err(Error::InvalidQuery));
    let two = object(vec![("fieldFilter", object(vec![])), ("unaryFilter", object(vec![]))]);
    assert_eq!(Filter::from_json(&two), Err(Error::InvalidQuery));
}

#[test]
fn composite_filter_needs_an_operand() {
    let empty = CompositeFilter { filters: Some(vec![]), op: Some("AND".to_string()) };
    assert_eq!(serialize(&empty), Err(Error::InvalidQuery));
    let absent = CompositeFilter { filters: None, op: Some("AND".to_string()) };
    assert_eq!(serialize(&absent), Err(Error::InvalidQuery));
    let one = CompositeFilter { filters: Some(vec![time_filter()]), op: Some("AND".to_string()) };
    assert_eq!(
        serialize(&one).unwrap(),
        "{\"filters\":[{\"fieldFilter\":{\"field\":{\"fieldPath\":\"time\"},\"value\":{\"integerValue\":\"1000\"},\"op\":\"GREATER_THAN\"}}],\"op\":\"AND\"}"
    );
    let inside = Filter {
        composite_filter: Some(CompositeFilter {
            filters: Some(vec![
                time_filter(),
                Filter { composite_filter: Some(empty), ..Default::default() },
            ]),
            op: Some("AND".to_string()),
        }),
        ..Default::default()
    };
    assert_eq!(serialize(&inside), Err(Error::InvalidQuery));
    let tree = object(vec![("filters", Json::Array(vec![])), ("op", Json::String("AND".to_string()))]);
    assert_eq!(CompositeFilter::from_json(&tree), Err(Error::InvalidQuery));
}

#[test]
fn nested_filters_round_trip() {
    let f = Filter {
        composite_filter: Some(CompositeFilter {
            filters: Some(vec![
                time_filter(),
                Filter { unary_filter: Some(is_null("a.b")), ..Default::default() },
                Filter {
                    composite_filter: Some(CompositeFilter {
                        filters: Some(vec![time_filter()]),
                        op: None,
                    }),
                    ..Default::default()
                },
            ]),
            op: Some("AND".to_string()),
        }),
        ..Default::default()
    };
    let tree = f.to_json().unwrap();
    assert_eq!(Filter::from_json(&tree), Ok(f.clone()));
    assert_eq!(f.clone(), f);
}

#[test]
fn filter_refuses_a_value_that_may_not_be_sent() {
    let f = Filter {
        field_filter: Some(FieldFilter { field: field("x"), op: None, value: Some(Value::Unset) }),
        ..Default::default()
    };
    assert_eq!(serialize(&f), Err(Error::MalformedValue));
}

#[test]
fn negative_limit_or_offset_is_invalid() {
    let q = StructuredQuery { limit: Some(-1), ..Default::default() };
    assert_eq!(serialize(&q), Err(Error::InvalidQuery));
    let q = StructuredQuery { offset: Some(-5), ..Default::default() };
    assert_eq!(serialize(&q), Err(Error::InvalidQuery));
    let q = StructuredQuery { limit: Some(0), ..Default::default() };
    assert_eq!(serialize(&q).unwrap(), "{\"limit\":0}");
    let q = StructuredQuery { limit: Some(i32::MAX), offset: Some(3), ..Default::default() };
    assert_eq!(serialize(&q).unwrap(), "{\"limit\":2147483647,\"offset\":3}");
    let tree = object(vec![("limit", Json::Number("-1".to_string()))]);
    assert_eq!(StructuredQuery::from_json(&tree), Err(Error::InvalidQuery));
    let tree = object(vec![("limit", Json::Number("1.5".to_string()))]);
    assert_eq!(StructuredQuery::from_json(&tree), Err(Error::InvalidQuery));
    let tree = object(vec![("offset", Json::Number("2147483648".to_string()))]);
    assert_eq!(StructuredQuery::from_json(&tree), Err(Error::InvalidQuery));
    let tree = object(vec![("offset", Json::Number("7".to_string()))]);
    assert_eq!(
        StructuredQuery::from_json(&tree),
        Ok(StructuredQuery { offset: Some(7), ..Default::default() })
    );
}

#[test]
fn cursor_is_carried_as_it_is() {
    let c = Cursor { values: Some(vec![Value::String("x".to_string())]), before: Some(true) };
    let tree = c.to_json().unwrap();
    assert_eq!(tree.to_text(), "{\"values\":[{\"stringValue\":\"x\"}],\"before\":true}");
    assert_eq!(Cursor::from_json(&tree), Ok(c));
    let bad = Cursor { values: Some(vec![Value::Unset]), before: None };
    assert_eq!(serialize(&bad), Err(Error::MalformedValue));
    let wrong = object(vec![("values", Json::Bool(true))]);
    assert_eq!(Cursor::from_json(&wrong), Err(Error::InvalidQuery));
    let absent = Cursor::default();
    assert_eq!(serialize(&absent).unwrap(), "{}");
}

#[test]
fn query_on_messages_round_trips() {
    let q = StructuredQuery {
        from: Some(vec![CollectionSelector {
            collection_id: Some("messages".to_string()),
            all_descendants: Some(false),
        }]),
        where_: Some(time_filter()),
        order_by: Some(vec![Order { field: field("time"), direction: Some("ASCENDING".to_string()) }]),
        limit: Some(10),
        ..Default::default()
    };
    let tree = q.to_json().unwrap();
    assert_eq!(
        tree.to_text(),
        "{\"orderBy\":[{\"field\":{\"fieldPath\":\"time\"},\"direction\":\"ASCENDING\"}],\"limit\":10,\"from\":[{\"allDescendants\":false,\"collectionId\":\"messages\"}],\"where\":{\"fieldFilter\":{\"field\":{\"fieldPath\":\"time\"},\"value\":{\"integerValue\":\"1000\"},\"op\":\"GREATER_THAN\"}}}"
    );
    assert_eq!(StructuredQuery::from_json(&tree), Ok(q));
}

#[test]
fn full_query_round_trips() {
    let q = StructuredQuery {
        order_by: Some(vec![]),
        start_at: Some(Cursor { values: Some(vec![Value::Integer(5)]), before: Some(false) }),
        end_at: Some(Cursor { values: None, before: None }),
        limit: Some(1),
        offset: Some(0),
        from: Some(vec![CollectionSelector::default()]),
        where_: Some(Filter { unary_filter: Some(is_null("f")), ..Default::default() }),
        select: Some(Projection { fields: Some(vec![FieldReference { field_path: Some("__name__".to_string()) }]) }),
    };
    let tree = q.to_json().unwrap();
    assert_eq!(StructuredQuery::from_json(&tree), Ok(q.clone()));
    let request = RunQueryRequest {
        new_transaction: Some(TransactionOptions {
            read_only: Some(ReadOnly { read_time: Some("2020-01-01T00:00:00Z".to_string()) }),
            read_write: None,
        }),
        transaction: None,
        structured_query: Some(q),
        read_time: None,
    };
    let tree = request.to_json().unwrap();
    assert_eq!(RunQueryRequest::from_json(&tree), Ok(request));
}

#[test]
fn query_reports_the_first_part_that_is_refused() {
    let q = StructuredQuery {
        start_at: Some(Cursor { values: Some(vec![Value::Unset]), before: None }),
        limit: Some(-1),
        ..Default::default()
    };
    assert_eq!(serialize(&q), Err(Error::MalformedValue));
    let q = StructuredQuery { limit: Some(-1), where_: Some(Filter::default()), ..Default::default() };
    assert_eq!(serialize(&q), Err(Error::InvalidQuery));
    assert_eq!(StructuredQuery::from_json(&Json::Array(vec![])), Err(Error::InvalidQuery));
}

#[test]
fn transaction_options_name_one_mode() {
    let both = TransactionOptions {
        read_write: Some(ReadWrite::default()),
        read_only: Some(ReadOnly::default()),
    };
    assert_eq!(serialize(&both), Err(Error::InvalidTransactionOptions));
    assert_eq!(serialize(&TransactionOptions::default()), Err(Error::InvalidTransactionOptions));
    let retry = TransactionOptions {
        read_write: Some(ReadWrite { retry_transaction: Some("dG9rZW4=".to_string()) }),
        read_only: None,
    };
    let tree = retry.to_json().unwrap();
    assert_eq!(tree.to_text(), "{\"readWrite\":{\"retryTransaction\":\"dG9rZW4=\"}}");
    assert_eq!(TransactionOptions::from_json(&tree), Ok(retry));
    let pinned = TransactionOptions {
        read_write: None,
        read_only: Some(ReadOnly { read_time: Some("2020-01-01T00:00:00Z".to_string()) }),
    };
    assert_eq!(
        serialize(&pinned).unwrap(),
        "{\"readOnly\":{\"readTime\":\"2020-01-01T00:00:00Z\"}}"
    );
    assert_eq!(TransactionOptions::from_json(&object(vec![])), Err(Error::InvalidTransactionOptions));
    let wrong = object(vec![("readOnly", Json::Null)]);
    assert_eq!(TransactionOptions::from_json(&wrong), Err(Error::InvalidTransactionOptions));
    let request = RunQueryRequest { new_transaction: Some(both), ..Default::default() };
    assert_eq!(serialize(&request), Err(Error::InvalidTransactionOptions));
}

#[test]
fn selector_and_projection_round_trip() {
    let s = CollectionSelector { all_descendants: Some(true), collection_id: None };
    assert_eq!(serialize(&s).unwrap(), "{\"allDescendants\":true}");
    assert_eq!(CollectionSelector::from_json(&s.to_json().unwrap()), Ok(s));
    let p = Projection { fields: Some(vec![]) };
    assert_eq!(serialize(&p).unwrap(), "{\"fields\":[]}");
    assert_eq!(Projection::from_json(&p.to_json().unwrap()), Ok(p));
    let wrong = object(vec![("collectionId", Json::Number("1".to_string()))]);
    assert_eq!(CollectionSelector::from_json(&wrong), Err(Error::InvalidQuery));
}

#[test]
fn copies_of_filters_and_references_are_equal_to_them() {
    let reference = FieldReference { field_path: Some("a.b".to_string()) };
    assert_eq!(reference.clone(), reference);
    let unary = is_null("x");
    assert_eq!(unary.clone(), unary);
    let filter = time_filter();
    assert_eq!(filter.clone(), filter);
    assert_eq!(filter.field_filter.clone().unwrap().value, Some(Value::Integer(1000)));
}

#[test]
fn validation_gives_the_error_that_sending_would_give() {
    assert_eq!(validate(&StructuredQuery { limit: Some(-1), ..Default::default() }), Err(Error::InvalidQuery));
    assert_eq!(validate(&StructuredQuery { limit: Some(0), ..Default::default() }), Ok(()));
    assert_eq!(validate(&Filter::default()), Err(Error::InvalidQuery));
    assert_eq!(validate(&time_filter()), Ok(()));
    assert_eq!(validate(&TransactionOptions::default()), Err(Error::InvalidTransactionOptions));
    assert_eq!(validate(&Value::Unset), Err(Error::MalformedValue));
    assert_eq!(validate(&Value::Null), Ok(()));
}

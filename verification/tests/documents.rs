use firestore_model::json::Json;
use firestore_model::{
    ArrayValue, Document, Double, Error, FieldReference, Firestore, MapValue, RunQueryResponse,
    Value, Wire, MAX_DOCUMENT_BYTES,
};

fn object(members: Vec<(&str, Json)>) -> Json {
    Json::Object(members.into_iter().map(|(k, v)| (k.to_string(), v)).collect())
}

fn document(key: &str) -> Document {
    let mut fields = MapValue::new();
    fields.insert(key.to_string(), Value::Integer(1));
    Document {
        name: Some("projects/p/databases/d/documents/c/1".to_string()),
        fields: Some(fields),
        create_time: Some("2020-01-01T00:00:00Z".to_string()),
        update_time: Some("2020-01-02T00:00:00Z".to_string()),
    }
}

#[test]
fn reserved_field_name_is_refused_unless_permitted() {
    let d = document("__reserved__");
    assert_eq!(d.validate(false), Err(Error::FieldNameReserved));
    assert_eq!(d.to_json().map(|j| j.to_text()), Err(Error::FieldNameReserved));
    assert_eq!(d.validate(true), Ok(()));
    let tree = d.to_json_with(true).unwrap();
    assert_eq!(Document::from_json(&tree), Ok(d));
    assert_eq!(document("plain").validate(false), Ok(()));
}

#[test]
fn document_is_written_with_its_times_as_they_are() {
    let d = document("n");
    let tree = d.to_json().unwrap();
    assert_eq!(
        tree.to_text(),
        "{\"fields\":{\"n\":{\"integerValue\":\"1\"}},\"updateTime\":\"2020-01-02T00:00:00Z\",\"createTime\":\"2020-01-01T00:00:00Z\",\"name\":\"projects/p/databases/d/documents/c/1\"}"
    );
    let back = Document::from_json(&tree).unwrap();
    assert_eq!(back.update_time, d.update_time);
    assert_eq!(back.create_time, d.create_time);
    assert_eq!(back, d);
}

#[test]
fn document_equality_passes_over_the_times() {
    let a = document("n");
    let mut b = document("n");
    b.update_time = Some("2021-01-01T00:00:00Z".to_string());
    b.create_time = None;
    assert_eq!(a, b);
    let mut c = document("n");
    c.name = None;
    assert_ne!(a, c);
    assert_ne!(a, document("m"));
}

#[test]
fn malformed_field_is_reported_before_a_reserved_name() {
    let mut fields = MapValue::new();
    fields.insert("__reserved__".to_string(), Value::Unset);
    let d = Document { fields: Some(fields), ..Default::default() };
    assert_eq!(d.validate(false), Err(Error::MalformedValue));
    assert_eq!(d.validate(true), Err(Error::MalformedValue));
    assert_eq!(d.estimated_size(), None);
}

#[test]
fn size_estimate_counts_the_bytes_of_the_text() {
    let d = Document::default();
    assert_eq!(d.estimated_size(), Some(2));
    let mut fields = MapValue::new();
    fields.insert("é".to_string(), Value::String("x".repeat(MAX_DOCUMENT_BYTES)));
    let large = Document { fields: Some(fields), ..Default::default() };
    let expected = "{\"fields\":{\"é\":{\"stringValue\":\"\"}}}".len() + MAX_DOCUMENT_BYTES;
    assert_eq!(large.estimated_size(), Some(expected));
    assert!(large.estimated_size().unwrap() > MAX_DOCUMENT_BYTES);
    assert!(large.to_json().is_ok());
}

#[test]
fn document_tree_of_the_wrong_shape_is_malformed() {
    assert_eq!(Document::from_json(&Json::Null), Err(Error::MalformedValue));
    let wrong = object(vec![("name", Json::Bool(true))]);
    assert_eq!(Document::from_json(&wrong), Err(Error::MalformedValue));
    let wrong = object(vec![("fields", Json::Array(vec![]))]);
    assert_eq!(Document::from_json(&wrong), Err(Error::MalformedValue));
}

#[test]
fn response_message_round_trips() {
    let r = RunQueryResponse {
        skipped_results: Some(3),
        transaction: Some("dHg=".to_string()),
        document: Some(document("n")),
        read_time: Some("2020-01-03T00:00:00Z".to_string()),
    };
    let tree = r.to_json().unwrap();
    assert_eq!(RunQueryResponse::from_json(&tree), Ok(r));
    let only_time = object(vec![("readTime", Json::String("t".to_string()))]);
    assert_eq!(
        RunQueryResponse::from_json(&only_time),
        Ok(RunQueryResponse { read_time: Some("t".to_string()), ..Default::default() })
    );
    let wrong = object(vec![("skippedResults", Json::String("3".to_string()))]);
    assert_eq!(RunQueryResponse::from_json(&wrong), Err(Error::MalformedValue));
}

#[test]
fn hub_starts_with_the_defaults_and_hands_back_what_was_set() {
    let mut hub = Firestore::new(1u8, "auth");
    assert_eq!(*hub.client(), 1u8);
    assert_eq!(*hub.auth(), "auth");
    assert_eq!(hub.user_agent("agent/2".to_string()), "google-api-rust-client/1.0.11");
    assert_eq!(hub.user_agent("agent/3".to_string()), "agent/2");
    assert_eq!(hub.base_url("https://example.test/".to_string()), "https://firestore.googleapis.com/");
    assert_eq!(hub.root_url("https://root.test/".to_string()), "https://firestore.googleapis.com/");
    assert_eq!(hub.base_url("b".to_string()), "https://example.test/");
    assert_eq!(hub.root_url("r".to_string()), "https://root.test/");
    assert_eq!(hub.user_agent("a".to_string()), "agent/3");
    *hub.client_mut() = 2u8;
    *hub.auth_mut() = "other";
    assert_eq!(*hub.auth(), "other");
    let methods = hub.projects();
    assert_eq!(*methods.hub.client(), 2u8);
}

#[test]
fn field_path_quotes_what_is_not_simple() {
    let path = |names: &[&str]| {
        FieldReference::from_segments(&names.iter().map(|n| n.to_string()).collect()).field_path
    };
    assert_eq!(path(&["foo_bar_17"]), Some("foo_bar_17".to_string()));
    assert_eq!(path(&["foo", "x&y"]), Some("foo.`x&y`".to_string()));
    assert_eq!(path(&["bak`tik"]), Some("`bak\\`tik`".to_string()));
    assert_eq!(path(&["a\\b", "_c", "9d", ""]), Some("`a\\\\b`._c.`9d`.``".to_string()));
    assert_eq!(path(&["é"]), Some("`é`".to_string()));
    assert_eq!(path(&[]), Some("".to_string()));
}

#[test]
fn errors_have_names() {
    assert_eq!(Error::MalformedValue.to_string(), "MalformedValue");
    assert_eq!(Error::InvalidQuery.to_string(), "InvalidQuery");
    assert_eq!(Error::InvalidTransactionOptions.to_string(), "InvalidTransactionOptions");
    assert_eq!(Error::FieldNameReserved.to_string(), "FieldNameReserved");
}

#[test]
fn bits_tell_the_values_that_are_not_finite() {
    assert_eq!(Double::from_bits(f64::NAN.to_bits()), Some(Double::Nan));
    assert_eq!(Double::from_bits(f64::INFINITY.to_bits()), Some(Double::Infinity));
    assert_eq!(Double::from_bits(f64::NEG_INFINITY.to_bits()), Some(Double::NegInfinity));
    assert_eq!(Double::from_bits(0x7ff0_0000_0000_0001), Some(Double::Nan));
    assert_eq!(Double::from_bits(0xfff8_0000_0000_0000), Some(Double::Nan));
    assert_eq!(Double::from_bits(1.5f64.to_bits()), None);
    assert_eq!(Double::from_bits(f64::MAX.to_bits()), None);
    assert_eq!(Double::from_bits((-0.0f64).to_bits()), None);
    assert!(f64::from_bits(Double::Nan.to_bits().unwrap()).is_nan());
    assert_eq!(Double::Infinity.to_bits().map(f64::from_bits), Some(f64::INFINITY));
    assert_eq!(Double::NegInfinity.to_bits().map(f64::from_bits), Some(f64::NEG_INFINITY));
    assert_eq!(Double::Finite("1".to_string()).to_bits(), None);
}

#[test]
fn defaults_are_the_empty_values() {
    assert_eq!(Value::default(), Value::Unset);
    assert_eq!(ArrayValue::default().values.len(), 0);
    assert_eq!(MapValue::default().len(), 0);
    assert_eq!(Document::default().name, None);
}

#[test]
fn field_path_is_read_back_into_its_names() {
    let names = |path: &str| FieldReference { field_path: Some(path.to_string()) }.segments();
    let owned = |list: &[&str]| Some(list.iter().map(|n| n.to_string()).collect::<Vec<String>>());
    assert_eq!(names("foo_bar_17"), owned(&["foo_bar_17"]));
    assert_eq!(names("foo.`x&y`"), owned(&["foo", "x&y"]));
    assert_eq!(names("`bak\\`tik`"), owned(&["bak`tik"]));
    assert_eq!(names("`a\\\\b`._c.`9d`.``"), owned(&["a\\b", "_c", "9d", ""]));
    assert_eq!(names("__name__"), owned(&["__name__"]));
    for wrong in ["", "a.", ".a", "a..b", "9a", "x&y", "`abc", "`a\\x`", "`a`b", "a b"] {
        assert_eq!(names(wrong), None, "{:?}", wrong);
    }
    assert_eq!(FieldReference::default().segments(), None);
    for list in [vec!["a"], vec!["a", "b.c", "`", "\\", ""], vec!["é", "_", "x1"]] {
        let written = FieldReference::from_segments(&list.iter().map(|n| n.to_string()).collect());
        assert_eq!(written.segments(), owned(&list));
    }
}

#[test]
fn defaults_set_nothing() {
    let q = firestore_model::StructuredQuery::default();
    assert!(q.order_by.is_none() && q.start_at.is_none() && q.end_at.is_none());
    assert!(q.limit.is_none() && q.offset.is_none() && q.from.is_none());
    assert!(q.where_.is_none() && q.select.is_none());
    let f = firestore_model::Filter::default();
    assert!(f.composite_filter.is_none() && f.field_filter.is_none() && f.unary_filter.is_none());
    let d = Document::default();
    assert!(d.fields.is_none() && d.update_time.is_none() && d.create_time.is_none() && d.name.is_none());
    let p = firestore_model::LatLng::default();
    assert!(p.latitude.is_none() && p.longitude.is_none());
    assert_eq!(firestore_model::Empty::default(), firestore_model::Empty::new());
    assert_eq!(firestore_model::TransactionOptions::default().read_only, None);
    assert_eq!(firestore_model::Cursor::default().values, None);
    assert_eq!(FieldReference::default().field_path, None);
}

use firestore_model::json::Json;
use firestore_model::{
    deserialize, serialize, ArrayValue, Cursor, Double, Error, MapValue, RunQueryResponse,
    StructuredQuery, Value,
};

fn reparsed(text: &str) -> Option<String> {
    Json::parse(text).map(|j| j.to_text())
}

#[test]
fn compact_text_is_read_back() {
    for text in [
        "null",
        "true",
        "false",
        "0",
        "-12.5e+3",
        "\"\"",
        "\"a\\\"b\\\\c\\nd\\u0001\"",
        "[]",
        "{}",
        "[1,[2,[3,[]]],{\"a\":{\"b\":[null]}}]",
        "{\"values\":[{\"stringValue\":\"x\"}],\"before\":true}",
    ] {
        assert_eq!(reparsed(text), Some(text.to_string()));
    }
}

#[test]
fn white_space_between_the_parts_is_passed_over() {
    assert_eq!(
        reparsed(" \n{ \"a\" :\t[ 1 , 2 ] ,\r\n \"b\" : { } } "),
        Some("{\"a\":[1,2],\"b\":{}}".to_string())
    );
    assert_eq!(reparsed("[ ]"), Some("[]".to_string()));
}

#[test]
fn escapes_are_resolved() {
    let tree = Json::parse("\"\\u00e9\\u00E9\\/\\b\\f\\r\\t\\ud83d\\ude00\"").unwrap();
    match tree {
        Json::String(s) => assert_eq!(s, "éé/\u{8}\u{c}\r\t😀"),
        _ => panic!("a string was expected"),
    }
    assert_eq!(reparsed("\"é😀\""), Some("\"é😀\"".to_string()));
}

#[test]
fn text_that_is_no_json_is_refused() {
    for text in [
        "",
        " ",
        "nul",
        "TRUE",
        "01",
        "1.",
        ".5",
        "+1",
        "1e",
        "-",
        "\"abc",
        "\"a\nb\"",
        "\"\\x\"",
        "\"\\u12\"",
        "\"\\ud83d\"",
        "\"\\ude00\"",
        "\"\\ud83d\\u0041\"",
        "[",
        "[1,]",
        "[1 2]",
        "[,1]",
        "{",
        "{\"a\"}",
        "{\"a\":}",
        "{\"a\":1,}",
        "{a:1}",
        "{\"a\":1 \"b\":2}",
        "1 2",
        "[]]",
        "{}}",
    ] {
        assert!(Json::parse(text).is_none(), "{:?} was accepted", text);
    }
}

#[test]
fn values_round_trip_through_text() {
    let mut map = MapValue::new();
    map.insert("k\"ey".to_string(), Value::Array(ArrayValue { values: vec![Value::Integer(i64::MIN)] }));
    map.insert("d".to_string(), Value::Double(Double::Finite("-0.25".to_string())));
    map.insert("t".to_string(), Value::String("tab\tquote\" back\\slash \u{7f} é".to_string()));
    let v = Value::Mapping(map);
    let text = serialize(&v).unwrap();
    assert_eq!(deserialize::<Value>(&text), Ok(v));
}

#[test]
fn cursor_comes_back_unchanged_from_its_text() {
    let c = Cursor { values: Some(vec![Value::String("x".to_string())]), before: Some(true) };
    let text = serialize(&c).unwrap();
    assert_eq!(text, "{\"values\":[{\"stringValue\":\"x\"}],\"before\":true}");
    assert_eq!(deserialize::<Cursor>(&text), Ok(c));
}

#[test]
fn text_of_the_wrong_shape_gives_the_error_of_the_type() {
    assert_eq!(deserialize::<Value>("{"), Err(Error::MalformedValue));
    assert_eq!(deserialize::<StructuredQuery>("not json"), Err(Error::MalformedValue));
    assert_eq!(deserialize::<StructuredQuery>("[]"), Err(Error::InvalidQuery));
    assert_eq!(deserialize::<StructuredQuery>("{\"limit\":-1}"), Err(Error::InvalidQuery));
    assert_eq!(deserialize::<Value>("{\"integerValue\":\"abc\"}"), Err(Error::MalformedValue));
    assert_eq!(
        deserialize::<StructuredQuery>("{ \"limit\" : 0 }"),
        Ok(StructuredQuery { limit: Some(0), ..Default::default() })
    );
}

#[test]
fn number_literals_are_kept_as_they_are_written() {
    for text in ["-0", "0.0", "1e5", "1E-5", "-1.25e+10", "123456789012345678901234567890", "0e0"] {
        match Json::parse(text) {
            Some(Json::Number(l)) => assert_eq!(l, text),
            _ => panic!("{:?} was not read as a number", text),
        }
    }
    assert_eq!(
        deserialize::<Value>("{\"doubleValue\": 1E-5}"),
        Ok(Value::Double(Double::Finite("1E-5".to_string())))
    );
}

#[test]
fn documents_and_responses_are_read_from_text() {
    let text = "{\"document\":{\"name\":\"projects/p/databases/d/documents/c/1\",\"fields\":{\"b\":{\"booleanValue\":true},\"a\":{\"arrayValue\":{\"values\":[{\"geoPointValue\":{\"latitude\":-12.5,\"longitude\":30}}]}}},\"createTime\":\"2020-01-01T00:00:00Z\"},\"readTime\":\"2020-01-01T00:00:01Z\",\"skippedResults\":2}";
    let response = deserialize::<RunQueryResponse>(text).unwrap();
    assert_eq!(response.skipped_results, Some(2));
    assert_eq!(response.read_time, Some("2020-01-01T00:00:01Z".to_string()));
    let document = response.document.clone().unwrap();
    let fields = document.fields.clone().unwrap();
    assert_eq!(fields.len(), 2);
    assert_eq!(fields.entries()[0].0, "a");
    assert_eq!(fields.get("b"), Some(&Value::Boolean(true)));
    let again = deserialize::<RunQueryResponse>(&serialize(&response).unwrap()).unwrap();
    assert_eq!(again, response);
    let out_of_range = "{\"geoPointValue\":{\"latitude\":-90.5}}";
    assert_eq!(deserialize::<Value>(out_of_range), Err(Error::MalformedValue));
}

#[test]
fn long_flat_arrays_and_objects_are_read() {
    let n = 200000;
    let mut text = String::from("[");
    for i in 0..n {
        if i > 0 {
            text.push(',');
        }
        text.push('1');
    }
    text.push(']');
    match Json::parse(&text) {
        Some(Json::Array(a)) => assert_eq!(a.len(), n),
        _ => panic!("an array was expected"),
    }
    let mut text = String::from("{");
    for i in 0..n {
        if i > 0 {
            text.push(',');
        }
        text.push_str("\"k\":null");
    }
    text.push('}');
    match Json::parse(&text) {
        Some(Json::Object(m)) => assert_eq!(m.len(), n),
        _ => panic!("an object was expected"),
    }
}

use firestore_model::json::Json;
use firestore_model::{serialize, ArrayValue, Double, Empty, Error, LatLng, MapValue, Value, Wire};

fn object(members: Vec<(&str, Json)>) -> Json {
    Json::Object(members.into_iter().map(|(k, v)| (k.to_string(), v)).collect())
}

fn nested(depth: u32) -> Value {
    if depth == 0 {
        return Value::String("leaf".to_string());
    }
    let mut map = MapValue::new();
    map.insert("inner".to_string(), nested(depth - 1));
    map.insert("count".to_string(), Value::Integer(depth as i64));
    Value::Array(ArrayValue { values: vec![Value::Mapping(map), Value::Null, Value::Boolean(true)] })
}

#[test]
fn value_round_trips_through_its_tree() {
    let values = vec![
        Value::Null,
        Value::Boolean(false),
        Value::Integer(-42),
        Value::Double(Double::Finite("1.5e3".to_string())),
        Value::Double(Double::Nan),
        Value::Double(Double::Infinity),
        Value::Double(Double::NegInfinity),
        Value::Timestamp("2020-01-02T03:04:05.000006Z".to_string()),
        Value::String("x".to_string()),
        Value::Bytes("AAEC".to_string()),
        Value::Reference("projects/p/databases/d/documents/c/doc".to_string()),
        Value::GeoPoint(LatLng {
            latitude: Some(Double::Finite("45.5".to_string())),
            longitude: Some(Double::Finite("-122.25".to_string())),
        }),
        Value::Array(ArrayValue { values: vec![] }),
        Value::Mapping(MapValue::new()),
        nested(5),
    ];
    for v in values {
        let tree = v.to_json().unwrap();
        assert_eq!(Value::from_json(&tree), Ok(v));
    }
}

#[test]
fn value_trees_are_written_as_the_wire_expects() {
    assert_eq!(serialize(&Value::Null).unwrap(), "{\"nullValue\":null}");
    assert_eq!(serialize(&Value::Boolean(true)).unwrap(), "{\"booleanValue\":true}");
    assert_eq!(serialize(&Value::Integer(1000)).unwrap(), "{\"integerValue\":\"1000\"}");
    assert_eq!(
        serialize(&Value::Double(Double::Finite("2.5".to_string()))).unwrap(),
        "{\"doubleValue\":2.5}"
    );
    assert_eq!(serialize(&Value::Double(Double::Nan)).unwrap(), "{\"doubleValue\":\"NaN\"}");
    assert_eq!(
        serialize(&Value::Double(Double::NegInfinity)).unwrap(),
        "{\"doubleValue\":\"-Infinity\"}"
    );
    assert_eq!(serialize(&Value::String("x".to_string())).unwrap(), "{\"stringValue\":\"x\"}");
    assert_eq!(
        serialize(&Value::Array(ArrayValue { values: vec![Value::Integer(1), Value::Null] })).unwrap(),
        "{\"arrayValue\":{\"values\":[{\"integerValue\":\"1\"},{\"nullValue\":null}]}}"
    );
    assert_eq!(
        serialize(&Value::Array(ArrayValue { values: vec![] })).unwrap(),
        "{\"arrayValue\":{}}"
    );
    assert_eq!(
        serialize(&Value::GeoPoint(LatLng {
            latitude: Some(Double::Finite("1".to_string())),
            longitude: None
        }))
        .unwrap(),
        "{\"geoPointValue\":{\"latitude\":1}}"
    );
}

#[test]
fn integer_boundaries_round_trip() {
    for i in [i64::MIN, i64::MAX, 0, -1, 1] {
        let v = Value::Integer(i);
        let tree = v.to_json().unwrap();
        assert_eq!(Value::from_json(&tree), Ok(v));
    }
    assert_eq!(
        serialize(&Value::Integer(i64::MIN)).unwrap(),
        "{\"integerValue\":\"-9223372036854775808\"}"
    );
    assert_eq!(
        serialize(&Value::Integer(i64::MAX)).unwrap(),
        "{\"integerValue\":\"9223372036854775807\"}"
    );
}

#[test]
fn integer_slot_refuses_what_is_no_integer() {
    let abc = object(vec![("integerValue", Json::String("abc".to_string()))]);
    assert_eq!(Value::from_json(&abc), Err(Error::MalformedValue));
    let too_large = object(vec![("integerValue", Json::String("9223372036854775808".to_string()))]);
    assert_eq!(Value::from_json(&too_large), Err(Error::MalformedValue));
    let number = object(vec![("integerValue", Json::Number("5".to_string()))]);
    assert_eq!(Value::from_json(&number), Err(Error::MalformedValue));
}

#[test]
fn value_with_no_kind_or_several_is_malformed() {
    assert_eq!(Value::from_json(&object(vec![])), Err(Error::MalformedValue));
    let two = object(vec![
        ("stringValue", Json::String("x".to_string())),
        ("booleanValue", Json::Bool(true)),
    ]);
    assert_eq!(Value::from_json(&two), Err(Error::MalformedValue));
    assert_eq!(Value::from_json(&Json::Null), Err(Error::MalformedValue));
    assert_eq!(Value::Unset.to_json().map(|j| j.to_text()), Err(Error::MalformedValue));
    let inside = Value::Array(ArrayValue { values: vec![Value::Integer(1), Value::Unset] });
    assert_eq!(inside.to_json().map(|j| j.to_text()), Err(Error::MalformedValue));
    assert!(!inside.is_valid());
}

#[test]
fn unknown_members_are_passed_over() {
    let tree = object(vec![("comment", Json::Null), ("stringValue", Json::String("x".to_string()))]);
    assert_eq!(Value::from_json(&tree), Ok(Value::String("x".to_string())));
}

#[test]
fn equality_tells_unset_from_null() {
    assert_eq!(Value::Unset, Value::Unset);
    assert_ne!(Value::Unset, Value::Null);
    assert_ne!(Value::Null, Value::Boolean(false));
    assert_ne!(Value::String("1".to_string()), Value::Integer(1));
    assert_ne!(Value::String("a".to_string()), Value::Bytes("a".to_string()));
    assert_eq!(nested(3), nested(3));
    assert_ne!(nested(3), nested(2));
    assert_eq!(nested(4).clone(), nested(4));
}

#[test]
fn double_holds_a_number_literal_or_a_sentinel() {
    assert!(Double::Finite("-0.5".to_string()).is_valid());
    assert!(!Double::Finite("abc".to_string()).is_valid());
    assert_eq!(
        Value::Double(Double::Finite("1.".to_string())).to_json().map(|j| j.to_text()),
        Err(Error::MalformedValue)
    );
    assert_eq!(Double::from_json(&Json::String("NaN".to_string())), Ok(Double::Nan));
    assert_eq!(Double::from_json(&Json::String("Infinity".to_string())), Ok(Double::Infinity));
    assert_eq!(Double::from_json(&Json::String("-Infinity".to_string())), Ok(Double::NegInfinity));
    assert_eq!(Double::from_json(&Json::String("nan".to_string())), Err(Error::MalformedValue));
    assert_eq!(
        Double::from_json(&Json::Number("12e-3".to_string())),
        Ok(Double::Finite("12e-3".to_string()))
    );
    assert_eq!(Double::from_json(&Json::Bool(true)), Err(Error::MalformedValue));
}

#[test]
fn geo_point_needs_finite_coordinates() {
    let p = LatLng { latitude: Some(Double::Nan), longitude: None };
    assert!(!p.is_valid());
    assert_eq!(p.to_json().map(|j| j.to_text()), Err(Error::MalformedValue));
    let tree = object(vec![("latitude", Json::String("NaN".to_string()))]);
    assert_eq!(LatLng::from_json(&tree), Err(Error::MalformedValue));
    let q = LatLng { latitude: None, longitude: Some(Double::Finite("3".to_string())) };
    assert_eq!(LatLng::from_json(&q.to_json().unwrap()), Ok(q));
}

#[test]
fn map_keeps_its_entries_in_the_order_of_their_names() {
    let mut first = MapValue::new();
    first.insert("b".to_string(), Value::Integer(1));
    first.insert("a".to_string(), Value::Integer(2));
    let mut second = MapValue::new();
    second.insert("a".to_string(), Value::Integer(2));
    second.insert("b".to_string(), Value::Integer(1));
    assert_eq!(first, second);
    let text = serialize(&first).unwrap();
    assert_eq!(text, "{\"fields\":{\"a\":{\"integerValue\":\"2\"},\"b\":{\"integerValue\":\"1\"}}}");
    assert_eq!(serialize(&first).unwrap(), text);
    assert_eq!(serialize(&second).unwrap(), text);
    assert_eq!(first.len(), 2);
    assert_eq!(first.get("a"), Some(&Value::Integer(2)));
    assert_eq!(first.get("c"), None);
    first.insert("a".to_string(), Value::Null);
    assert_eq!(first.len(), 2);
    assert_eq!(first.get("a"), Some(&Value::Null));
    assert_eq!(first.entries()[0].0, "a");
}

#[test]
fn map_names_are_compared_by_code_point() {
    let mut m = MapValue::new();
    for k in ["b", "ab", "", "a", "B", "é", "aa"] {
        m.insert(k.to_string(), Value::Null);
    }
    let keys: Vec<&str> = m.entries().iter().map(|e| e.0.as_str()).collect();
    assert_eq!(keys, vec!["", "B", "a", "aa", "ab", "b", "é"]);
}

#[test]
fn map_of_a_tree_takes_the_later_of_two_members_of_one_name() {
    let tree = object(vec![(
        "fields",
        object(vec![
            ("k", object(vec![("integerValue", Json::String("1".to_string()))])),
            ("a", object(vec![("nullValue", Json::Null)])),
            ("k", object(vec![("integerValue", Json::String("2".to_string()))])),
        ]),
    )]);
    let m = MapValue::from_json(&tree).unwrap();
    assert_eq!(m.len(), 2);
    assert_eq!(m.get("k"), Some(&Value::Integer(2)));
}

#[test]
fn map_refuses_names_that_are_no_field_names() {
    let mut m = MapValue::new();
    m.insert("".to_string(), Value::Null);
    assert!(!m.is_valid());
    assert_eq!(m.to_json().map(|j| j.to_text()), Err(Error::MalformedValue));
    let mut long = MapValue::new();
    long.insert("x".repeat(1501), Value::Null);
    assert!(!long.is_valid());
    let mut fits = MapValue::new();
    fits.insert("x".repeat(1500), Value::Null);
    assert!(fits.is_valid());
    let mut wide = MapValue::new();
    wide.insert("é".repeat(751), Value::Null);
    assert!(!wide.is_valid());
    let tree = object(vec![("fields", object(vec![("", object(vec![("nullValue", Json::Null)]))]))]);
    assert_eq!(MapValue::from_json(&tree).map(|m| m.len()), Err(Error::MalformedValue));
}

#[test]
fn reserved_names_are_found_at_any_depth() {
    let mut inner = MapValue::new();
    inner.insert("__name__".to_string(), Value::Null);
    let mut outer = MapValue::new();
    outer.insert("list".to_string(), Value::Array(ArrayValue { values: vec![Value::Mapping(inner)] }));
    assert!(outer.has_reserved_name());
    let mut plain = MapValue::new();
    plain.insert("__x_".to_string(), Value::Null);
    plain.insert("___".to_string(), Value::Null);
    assert!(!plain.has_reserved_name());
    plain.insert("____".to_string(), Value::Null);
    assert!(plain.has_reserved_name());
}

#[test]
fn geo_point_coordinates_lie_in_their_ranges() {
    let point = |lat: &str, lon: &str| LatLng {
        latitude: Some(Double::Finite(lat.to_string())),
        longitude: Some(Double::Finite(lon.to_string())),
    };
    for (lat, lon) in [
        ("90", "180"),
        ("-90", "-180"),
        ("90.000", "180.0"),
        ("0.9e2", "1.8E+2"),
        ("900e-1", "18000e-2"),
        ("0", "-0.0"),
        ("1e-400", "0.000e999999999999999999999999999999999999"),
        ("89.99999999999999999999", "179.9"),
        ("00.5e1", "0"),
    ] {
        let valid = lat != "00.5e1";
        assert_eq!(point(lat, lon).is_valid(), valid, "{} {}", lat, lon);
    }
    for (lat, lon) in [
        ("90.0001", "0"),
        ("91", "0"),
        ("-90.00000000000000000001", "0"),
        ("0", "180.5"),
        ("0", "-181"),
        ("1e2", "0"),
        ("0", "1e3"),
        ("0.0001e400", "0"),
        ("0", "1e999999999999999999999999999999999999"),
        ("9.000000001e1", "0"),
        ("100", "100"),
    ] {
        let p = point(lat, lon);
        assert!(!p.is_valid(), "{} {}", lat, lon);
        assert_eq!(p.to_json().map(|j| j.to_text()), Err(Error::MalformedValue));
    }
    assert!(point("100", "100").longitude.unwrap().is_valid());
    let tree = object(vec![("latitude", Json::Number("90.5".to_string()))]);
    assert_eq!(LatLng::from_json(&tree), Err(Error::MalformedValue));
    let tree = object(vec![("longitude", Json::Number("90.5".to_string()))]);
    assert!(LatLng::from_json(&tree).is_ok());
}

#[test]
fn array_value_round_trips() {
    let a = ArrayValue { values: vec![Value::Integer(7), Value::String("s".to_string())] };
    let tree = a.to_json().unwrap();
    assert_eq!(tree.to_text(), "{\"values\":[{\"integerValue\":\"7\"},{\"stringValue\":\"s\"}]}");
    assert_eq!(ArrayValue::from_json(&tree), Ok(a));
    let wrong = object(vec![("values", Json::Null)]);
    assert_eq!(ArrayValue::from_json(&wrong), Err(Error::MalformedValue));
}

#[test]
fn empty_message_is_the_empty_object() {
    assert_eq!(serialize(&Empty::new()).unwrap(), "{}");
    assert_eq!(Empty::from_json(&object(vec![("x", Json::Null)])), Ok(Empty::new()));
    assert_eq!(Empty::from_json(&Json::Array(vec![])), Err(Error::MalformedValue));
}

#[test]
fn doubles_are_compared_as_numbers() {
    let finite = |l: &str| Double::Finite(l.to_string());
    for (a, b) in [
        ("0.0", "-0.0"),
        ("0", "-0e5"),
        ("0.000", "0e-999999999999999999999999999999999999"),
        ("1.0", "1.00"),
        ("1", "1.0"),
        ("1", "10e-1"),
        ("1", "0.1e1"),
        ("-12.50", "-125E-1"),
        ("100", "1e2"),
        ("100", "1E+2"),
        ("1e400", "10e399"),
        ("1e1000000000000000000000000000000000", "10e999999999999999999999999999999999"),
        ("5e-1000000000000000000000000000000000", "0.5e-999999999999999999999999999999999"),
        ("12345678901234567890.12345678901234567890", "1234567890123456789012345678901234567890e-20"),
        ("1e-0", "1"),
        ("1e00000000000000000000000000000000000001", "10"),
    ] {
        assert_eq!(finite(a), finite(b), "{} {}", a, b);
        assert_eq!(finite(b), finite(a), "{} {}", b, a);
        assert_eq!(Value::Double(finite(a)), Value::Double(finite(b)));
    }
    for (a, b) in [
        ("1", "-1"),
        ("1", "2"),
        ("1", "1.0000000000000000000000000000001"),
        ("1", "10"),
        ("1e400", "1e399"),
        ("1e1000000000000000000000000000000000", "1e999999999999999999999999999999999"),
        ("1e1000000000000000000000000000000000", "1e-1000000000000000000000000000000000"),
        ("0", "1e-1000000000000000000000000000000000"),
        ("12", "21"),
        ("1.5", "15"),
        ("abc", "abd"),
        ("1", "one"),
    ] {
        assert_ne!(finite(a), finite(b), "{} {}", a, b);
        assert_ne!(finite(b), finite(a), "{} {}", b, a);
    }
    assert_eq!(finite("abc"), finite("abc"));
    assert_eq!(Double::Nan, Double::Nan);
    assert_ne!(Double::Nan, finite("0"));
    assert_ne!(Double::Infinity, Double::NegInfinity);
}

#[test]
fn points_with_zero_of_either_sign_are_equal() {
    let point = |lat: &str, lon: &str| LatLng {
        latitude: Some(Double::Finite(lat.to_string())),
        longitude: Some(Double::Finite(lon.to_string())),
    };
    let a = point("0.0", "0.0");
    let b = point("-0.0", "0.0");
    let c = LatLng::default();
    assert!(a == b);
    assert!(a != c);
    assert!(c == LatLng::default());
    assert_eq!(Value::GeoPoint(point("1.50", "2")), Value::GeoPoint(point("15e-1", "2.0")));
    let written = Value::Array(ArrayValue { values: vec![Value::Double(Double::Finite("1.0".to_string()))] });
    let read = Value::Array(ArrayValue { values: vec![Value::Double(Double::Finite("1".to_string()))] });
    assert_eq!(written, read);
    let mut m = MapValue::new();
    m.insert("x".to_string(), Value::Double(Double::Finite("2e0".to_string())));
    let mut n = MapValue::new();
    n.insert("x".to_string(), Value::Double(Double::Finite("2".to_string())));
    assert_eq!(m, n);
}

#[test]
fn map_gives_up_the_entry_that_is_removed() {
    let mut m = MapValue::new();
    m.insert("b".to_string(), Value::Integer(2));
    m.insert("a".to_string(), Value::Integer(1));
    m.insert("c".to_string(), Value::Integer(3));
    assert_eq!(m.remove("b"), Some(Value::Integer(2)));
    assert_eq!(m.len(), 2);
    assert_eq!(m.get("b"), None);
    assert_eq!(m.get("a"), Some(&Value::Integer(1)));
    assert_eq!(m.get("c"), Some(&Value::Integer(3)));
    assert_eq!(m.remove("b"), None);
    assert_eq!(m.remove("zz"), None);
    assert_eq!(m.len(), 2);
    assert_eq!(m.remove("a"), Some(Value::Integer(1)));
    assert_eq!(m.remove("c"), Some(Value::Integer(3)));
    assert_eq!(m.len(), 0);
    assert_eq!(m, MapValue::new());
    let (rest, taken) = MapValue::new().with_entry("k".to_string(), Value::Null).without_entry("k");
    assert_eq!(taken, Some(Value::Null));
    assert_eq!(rest.len(), 0);
}

#[test]
fn literals_are_measured_against_every_bound() {
    use_bounds();
}

fn use_bounds() {
    let within = firestore_model::decimal::literal_within;
    assert!(within("0", 0));
    assert!(within("-0.000e9", 0));
    assert!(!within("1e-9", 0));
    assert!(!within("0.0001", 0));
    assert!(within("1000", 1000));
    assert!(!within("1000.0000001", 1000));
    assert!(within("999.9999", 1000));
    assert!(within("4294967295", u32::MAX));
    assert!(within("-4294967295.000", u32::MAX));
    assert!(!within("4294967296", u32::MAX));
    assert!(!within("4294967295.1", u32::MAX));
    assert!(within("42949672950e-1", u32::MAX));
    assert!(within("0.42949672950e10", u32::MAX));
    assert!(!within("1e10", u32::MAX));
    assert!(within("1e9", u32::MAX));
    assert!(within("123456", 123456));
    assert!(!within("123457", 123456));
    assert!(!within("abc", 5));
    assert!(!within("", 5));
}

use firestore_model::json::Json;
use firestore_model::number::{i64_to_decimal, is_number, parse_i64};

#[test]
fn compact_text_of_nested_tree() {
    let tree = Json::Object(vec![
        ("values".to_string(), Json::Array(vec![Json::Object(vec![("stringValue".to_string(), Json::String("x".to_string()))])])),
        ("before".to_string(), Json::Bool(true)),
    ]);
    assert_eq!(tree.to_text(), "{\"values\":[{\"stringValue\":\"x\"}],\"before\":true}");
}

#[test]
fn text_escapes_quotes_and_control_characters() {
    let tree = Json::String("a\"b\\c\nd\u{1}e\u{1f}".to_string());
    assert_eq!(tree.to_text(), "\"a\\\"b\\\\c\\nd\\u0001e\\u001f\"");
}

#[test]
fn decimal_of_extreme_integers() {
    assert_eq!(i64_to_decimal(i64::MIN), "-9223372036854775808");
    assert_eq!(i64_to_decimal(i64::MAX), "9223372036854775807");
    assert_eq!(i64_to_decimal(0), "0");
    assert_eq!(parse_i64("-9223372036854775808"), Some(i64::MIN));
    assert_eq!(parse_i64("9223372036854775807"), Some(i64::MAX));
    assert_eq!(parse_i64("9223372036854775808"), None);
    assert_eq!(parse_i64("-9223372036854775809"), None);
    assert_eq!(parse_i64("abc"), None);
    assert_eq!(parse_i64(""), None);
    assert_eq!(parse_i64("-"), None);
    assert_eq!(parse_i64("007"), Some(7));
}

#[test]
fn number_literals_follow_the_grammar() {
    assert!(is_number("0"));
    assert!(is_number("-0.5e+10"));
    assert!(is_number("12E3"));
    assert!(!is_number("01"));
    assert!(!is_number("1."));
    assert!(!is_number(".5"));
    assert!(!is_number("1e"));
    assert!(!is_number("-"));
    assert!(!is_number("1 "));
}

#[test]
fn trees_are_compared_and_copied_member_by_member() {
    let tree = Json::Object(vec![
        ("a".to_string(), Json::Array(vec![Json::Number("1".to_string()), Json::Null])),
        ("b".to_string(), Json::String("s".to_string())),
    ]);
    assert_eq!(tree.clone(), tree);
    let swapped = Json::Object(vec![
        ("b".to_string(), Json::String("s".to_string())),
        ("a".to_string(), Json::Array(vec![Json::Number("1".to_string()), Json::Null])),
    ]);
    assert_ne!(swapped, tree);
    assert_ne!(Json::Number("1".to_string()), Json::String("1".to_string()));
    assert_ne!(Json::Number("1".to_string()), Json::Number("1.0".to_string()));
    assert_eq!(tree.member("b"), Some(&Json::String("s".to_string())));
    assert_eq!(tree.member("c"), None);
    assert_eq!(Json::Null.member("a"), None);
    let twice = Json::Object(vec![("k".to_string(), Json::Null), ("k".to_string(), Json::Bool(true))]);
    assert_eq!(twice.member("k"), Some(&Json::Bool(true)));
}

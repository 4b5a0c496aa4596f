use cairn::json::{parse, Json};

fn s(x: &str) -> Json {
    Json::Str(x.to_string())
}

#[test]
fn encode_scalars() {
    assert_eq!(Json::Uint(0).encode(), "0");
    assert_eq!(Json::Uint(18446744073709551615).encode(), "18446744073709551615");
    assert_eq!(Json::Bool(true).encode(), "true");
    assert_eq!(Json::Bool(false).encode(), "false");
    assert_eq!(s("plain").encode(), "\"plain\"");
}

#[test]
fn encode_escapes_per_rfc8259() {
    assert_eq!(s("a\"b\\c").encode(), "\"a\\\"b\\\\c\"");
    assert_eq!(s("\n\r\t").encode(), "\"\\n\\r\\t\"");
    assert_eq!(s("\u{1}\u{1f}\u{8}\u{c}").encode(), "\"\\u0001\\u001f\\u0008\\u000c\"");
    assert_eq!(s("é/✓").encode(), "\"é/✓\"");
}

#[test]
fn encode_containers_compact_in_order() {
    let v = Json::Object(vec![
        ("b".to_string(), Json::Array(vec![Json::Uint(1), Json::Bool(false)])),
        ("a".to_string(), Json::Object(vec![])),
        ("c".to_string(), Json::Array(vec![])),
    ]);
    assert_eq!(v.encode(), "{\"b\":[1,false],\"a\":{},\"c\":[]}");
}

#[test]
fn parse_accepts_whitespace_and_escapes() {
    let v = parse(" { \"k\" : [ 1 , true ,\"x\\u0041\\/\\b\\f\" ] , \"n\":{} }\n").unwrap();
    assert_eq!(
        v,
        Json::Object(vec![
            (
                "k".to_string(),
                Json::Array(vec![Json::Uint(1), Json::Bool(true), s("xA/\u{8}\u{c}")])
            ),
            ("n".to_string(), Json::Object(vec![])),
        ])
    );
    assert_eq!(parse("007").unwrap(), Json::Uint(7));
    assert_eq!(parse("\"\\u00e9\"").unwrap(), s("é"));
}

#[test]
fn encode_then_parse_roundtrip() {
    let v = Json::Object(vec![
        ("str".to_string(), s("q\"\\\n\u{3}é")),
        ("num".to_string(), Json::Uint(42)),
        ("arr".to_string(), Json::Array(vec![Json::Array(vec![]), Json::Object(vec![]), s("")])),
        ("b".to_string(), Json::Bool(true)),
    ]);
    assert_eq!(parse(&v.encode()).unwrap(), v);
}

#[test]
fn accessors() {
    let v = parse("{\"a\":1,\"a\":2,\"s\":\"t\",\"b\":false,\"l\":[1]}").unwrap();
    assert_eq!(v.get("a"), Some(&Json::Uint(1)));
    assert_eq!(v.get("zz"), None);
    assert_eq!(v.get("s").and_then(Json::as_str), Some("t"));
    assert_eq!(v.get("a").and_then(Json::as_uint), Some(1));
    assert_eq!(v.get("b").and_then(Json::as_bool), Some(false));
    assert_eq!(v.get("l").and_then(Json::as_array).map(|a| a.len()), Some(1));
    assert_eq!(v.as_object().map(|m| m.len()), Some(5));
    assert_eq!(Json::Uint(3).get("a"), None);
    assert_eq!(Json::Uint(3).as_str(), None);
    assert!(Json::Uint(3).as_object().is_none());
}

fn err(input: &str) -> (String, usize) {
    let e = parse(input).unwrap_err();
    (e.message, e.offset)
}

#[test]
fn parse_errors_and_offsets() {
    assert_eq!(err(""), ("expected a JSON value".to_string(), 0));
    assert_eq!(err("  -1"), ("expected a JSON value".to_string(), 2));
    assert_eq!(err("tru"), ("invalid literal".to_string(), 0));
    assert_eq!(err("18446744073709551616"), ("number out of range".to_string(), 20));
    assert_eq!(err("\"abc"), ("unterminated string".to_string(), 4));
    assert_eq!(err("\"\\x\""), ("invalid escape sequence".to_string(), 2));
    assert_eq!(err("\"\\u12G4\""), ("invalid unicode escape".to_string(), 2));
    assert_eq!(err("\"\\ud800\""), ("invalid unicode escape".to_string(), 2));
    assert_eq!(err("[1 2]"), ("expected ',' or ']'".to_string(), 3));
    assert_eq!(err("[1,]"), ("expected a JSON value".to_string(), 3));
    assert_eq!(err("{1:2}"), ("expected string key".to_string(), 1));
    assert_eq!(err("{\"a\" 1}"), ("expected ':'".to_string(), 5));
    assert_eq!(err("{\"a\":1 2}"), ("expected ',' or '}'".to_string(), 7));
    assert_eq!(err("1 x"), ("trailing characters after JSON value".to_string(), 2));
    assert_eq!(err("1.5"), ("trailing characters after JSON value".to_string(), 1));
}

#[test]
fn error_offsets_count_utf8_bytes() {
    // "é" is two bytes: the stray `x` starts at byte 5.
    assert_eq!(err("\"é\" x"), ("trailing characters after JSON value".to_string(), 5));
    let e = parse("\"é\" x").unwrap_err();
    assert_eq!(e.describe(), "JSON parse error at byte 5: trailing characters after JSON value");
}

#[test]
fn json_clone_is_equal() {
    let v = Json::Object(vec![
        ("a".to_string(), Json::Array(vec![Json::Uint(1), s("x"), Json::Bool(true)])),
        ("b".to_string(), Json::Object(vec![])),
    ]);
    let c = v.clone();
    assert_eq!(c, v);
    assert_eq!(c.encode(), v.encode());
}

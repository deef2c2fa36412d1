use ha_rs::json::{JsonValue, parse_json, render};

fn obj(members: Vec<(&str, JsonValue)>) -> JsonValue {
    JsonValue::Obj(members.into_iter().map(|(k, v)| (k.to_owned(), v)).collect())
}

#[test]
fn render_scalars() {
    assert_eq!(render(&JsonValue::Null), "null");
    assert_eq!(render(&JsonValue::Bool(true)), "true");
    assert_eq!(render(&JsonValue::Bool(false)), "false");
    assert_eq!(render(&JsonValue::Num("-12.5e3".to_owned())), "-12.5e3");
    assert_eq!(render(&JsonValue::Str("plain".to_owned())), "\"plain\"");
}

#[test]
fn render_escapes_quotes_backslashes_and_controls() {
    let v = JsonValue::Str("a\"b\\c\nd".to_owned());
    assert_eq!(render(&v), "\"a\\\"b\\\\c\\u000ad\"");
}

#[test]
fn render_array_and_object() {
    let v = JsonValue::Arr(vec![
        JsonValue::Num("1".to_owned()),
        JsonValue::Null,
        JsonValue::Str("x".to_owned()),
    ]);
    assert_eq!(render(&v), "[1,null,\"x\"]");
    let o = obj(vec![("a", JsonValue::Num("1".to_owned())), ("b", JsonValue::Bool(false))]);
    assert_eq!(render(&o), "{\"a\":1,\"b\":false}");
    assert_eq!(render(&JsonValue::Arr(Vec::new())), "[]");
    assert_eq!(render(&JsonValue::Obj(Vec::new())), "{}");
}

#[test]
fn parse_scalars() {
    assert_eq!(parse_json("null"), Some(JsonValue::Null));
    assert_eq!(parse_json(" true "), Some(JsonValue::Bool(true)));
    assert_eq!(parse_json("false"), Some(JsonValue::Bool(false)));
    assert_eq!(parse_json("-12.5e3"), Some(JsonValue::Num("-12.5e3".to_owned())));
    assert_eq!(parse_json("0"), Some(JsonValue::Num("0".to_owned())));
    assert_eq!(parse_json("\"hi\""), Some(JsonValue::Str("hi".to_owned())));
}

#[test]
fn parse_string_escapes() {
    assert_eq!(
        parse_json("\"a\\\"b\\\\c\\nd\\u0041\""),
        Some(JsonValue::Str("a\"b\\c\ndA".to_owned()))
    );
    assert_eq!(parse_json("\"\\u00e9\""), Some(JsonValue::Str("\u{00e9}".to_owned())));
}

#[test]
fn parse_nested_structures_with_whitespace() {
    let text = " { \"a\" : [ 1 , null , \"x\" ] , \"b\" : { \"c\" : true } } ";
    let expected = obj(vec![
        (
            "a",
            JsonValue::Arr(vec![
                JsonValue::Num("1".to_owned()),
                JsonValue::Null,
                JsonValue::Str("x".to_owned()),
            ]),
        ),
        ("b", obj(vec![("c", JsonValue::Bool(true))])),
    ]);
    assert_eq!(parse_json(text), Some(expected));
}

#[test]
fn parse_rejects_malformed_documents() {
    assert_eq!(parse_json(""), None);
    assert_eq!(parse_json("nul"), None);
    assert_eq!(parse_json("truex"), None);
    assert_eq!(parse_json("01"), None);
    assert_eq!(parse_json("+1"), None);
    assert_eq!(parse_json("1."), None);
    assert_eq!(parse_json("1e"), None);
    assert_eq!(parse_json("\"unterminated"), None);
    assert_eq!(parse_json("\"bad\\qescape\""), None);
    assert_eq!(parse_json("[1,]"), None);
    assert_eq!(parse_json("[1 2]"), None);
    assert_eq!(parse_json("{\"a\" 1}"), None);
    assert_eq!(parse_json("{\"a\":1,}"), None);
    assert_eq!(parse_json("{a:1}"), None);
    assert_eq!(parse_json("null extra"), None);
    assert_eq!(parse_json("\"tab\tinside\""), None);
}

#[test]
fn parse_rejects_surrogate_escapes() {
    assert_eq!(parse_json("\"\\ud800\""), None);
}

#[test]
fn parse_render_round_trip() {
    let v = obj(vec![
        ("name", JsonValue::Str("plug \"A\"\\1".to_owned())),
        ("power", JsonValue::Num("12.5".to_owned())),
        (
            "tags",
            JsonValue::Arr(vec![
                JsonValue::Str("a".to_owned()),
                JsonValue::Bool(true),
                JsonValue::Null,
                obj(vec![("deep", JsonValue::Num("-3e-2".to_owned()))]),
            ]),
        ),
        ("empty_list", JsonValue::Arr(Vec::new())),
        ("empty_map", JsonValue::Obj(Vec::new())),
    ]);
    let text = render(&v);
    assert_eq!(parse_json(text.as_str()), Some(v));
}

#[test]
fn render_output_is_valid_json_for_serde() {
    let v = obj(vec![
        ("s", JsonValue::Str("line\nbreak \"q\"".to_owned())),
        ("n", JsonValue::Num("-1.25e2".to_owned())),
        ("l", JsonValue::Arr(vec![JsonValue::Bool(false), JsonValue::Null])),
    ]);
    let text = render(&v);
    let parsed: serde_json::Value = serde_json::from_str(text.as_str()).unwrap();
    assert_eq!(parsed["s"], serde_json::Value::String("line\nbreak \"q\"".to_owned()));
    assert_eq!(parsed["n"].to_string(), "-125.0");
    assert!(parsed["l"].is_array());
}

#[test]
fn parse_agrees_with_serde_on_number_lexemes() {
    let ours = parse_json("[0.5, 1e10, -0, 3E+2]");
    let expected = JsonValue::Arr(vec![
        JsonValue::Num("0.5".to_owned()),
        JsonValue::Num("1e10".to_owned()),
        JsonValue::Num("-0".to_owned()),
        JsonValue::Num("3E+2".to_owned()),
    ]);
    assert_eq!(ours, Some(expected));
    assert!(serde_json::from_str::<serde_json::Value>("[0.5, 1e10, -0, 3E+2]").is_ok());
}

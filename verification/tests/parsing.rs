//! The parsing engine, from single tokens up to whole documents.

use json_parser::parsers;
use json_parser::parsers::{chars_of, parse_number_at, parse_pair, parse_string_body};
use json_parser::{parse_json, ErrorKind, Mapping, Number, Value};

fn num(text: &str) -> Value {
    Value::Number(Number::from_text(String::from(text)).unwrap())
}

#[test]
fn parse_string() {
    let chars = chars_of("\"Hallo Welt!\"");
    let string_test = parse_string_body(&chars, 1);
    assert_eq!(string_test, Ok((chars.len(), String::from("Hallo Welt!"))))
}

#[test]
fn parse_string_pair() {
    let pair_string = "\"manufacturer\": \"BMW\"";
    let chars = chars_of(pair_string);
    let pair_test = parse_pair(&chars, 0, 16);
    assert_eq!(
        pair_test,
        Ok((
            chars.len(),
            String::from("manufacturer"),
            Value::String(String::from("BMW"))
        ))
    )
}

#[test]
fn parse_literal_true() {
    let chars = chars_of("true");
    let literal_test = parsers::parse_value(&chars, 0, 16);
    assert_eq!(literal_test, Ok((4, Value::Bool(true))))
}

#[test]
fn parse_value() {
    let chars = chars_of("null");
    let value_test = parsers::parse_value(&chars, 0, 16);
    assert_eq!(value_test, Ok((4, Value::Null)))
}

#[test]
fn parse_number() {
    let chars = chars_of("-42.24e+10");
    let (end, token) = parse_number_at(&chars, 0).unwrap();
    assert_eq!(end, chars.len());
    assert_eq!(token.parse::<f64>().unwrap(), -42.24e+10);
}

#[test]
fn parse_array() {
    let chars = chars_of("[\"BMW\", \"Jaguar\"]");
    let array_test = parsers::parse_array(&chars, 0, 16);
    assert_eq!(
        array_test,
        Ok((
            chars.len(),
            vec![
                Value::String(String::from("BMW")),
                Value::String(String::from("Jaguar"))
            ]
        ))
    )
}

#[test]
fn parse_object() {
    let object_string =
        "{ \"manufacturer\": \"BMW\", \"model\": \"1 Series\", \"hatchback\": true, \"hp\": 143 }";
    let chars = chars_of(object_string);
    let object_test = parsers::parse_object(&chars, 0, 16);

    let mut map = Mapping::new();
    map.insert(String::from("manufacturer"), Value::String(String::from("BMW")));
    map.insert(String::from("model"), Value::String(String::from("1 Series")));
    map.insert(String::from("hatchback"), Value::Bool(true));
    map.insert(String::from("hp"), num("143"));

    assert_eq!(object_test, Ok((chars.len(), map)))
}

#[test]
fn escape_decoding() {
    // "a\\b\"c" decodes to: a backslash b quote c
    let chars = chars_of("\"a\\\\b\\\"c\"");
    let r = parsers::parse_value(&chars, 0, 16).unwrap();
    assert_eq!(r, (chars.len(), Value::String(String::from("a\\b\"c"))));
}

#[test]
fn escape_full_set() {
    let chars = chars_of("\"\\n\\t\\r\\/\\b\\f\"");
    let r = parsers::parse_value(&chars, 0, 16).unwrap();
    assert_eq!(
        r.1,
        Value::String(String::from("\n\t\r/\u{0008}\u{000C}"))
    );
}

#[test]
fn number_range() {
    for (text, expected) in [("-42.24e+10", -42.24e+10), ("0", 0.0), ("143", 143.0)] {
        let chars = chars_of(text);
        let (end, token) = parse_number_at(&chars, 0).unwrap();
        assert_eq!(end, chars.len());
        assert_eq!(token.parse::<f64>().unwrap(), expected);
    }
}

#[test]
fn nested_structure() {
    let doc = "{\"manufacturer\":\"BMW\",\"model\":\"1 Series\",\"hatchback\":true,\"hp\":143}";
    let map = parse_json(doc).unwrap();
    assert_eq!(
        map.get("manufacturer").unwrap().as_string().unwrap(),
        "BMW"
    );
    assert_eq!(map.get("model").unwrap().as_string().unwrap(), "1 Series");
    assert_eq!(map.get("hatchback").unwrap().as_bool().unwrap(), true);
    assert_eq!(
        map.get("hp")
            .unwrap()
            .as_f64()
            .unwrap()
            .text()
            .parse::<f64>()
            .unwrap(),
        143.0
    );
    assert!(map.get("missing").is_none());
}

#[test]
fn array_order_preserved() {
    let forward = chars_of("[\"BMW\",\"Jaguar\"]");
    let backward = chars_of("[\"Jaguar\",\"BMW\"]");
    let text = |s: &str| Value::String(String::from(s));
    let (_, f) = parsers::parse_array(&forward, 0, 16).unwrap();
    let (_, b) = parsers::parse_array(&backward, 0, 16).unwrap();
    assert_eq!(f, vec![text("BMW"), text("Jaguar")]);
    assert_eq!(b, vec![text("Jaguar"), text("BMW")]);
}

#[test]
fn empty_containers() {
    let map = parse_json("{}").unwrap();
    assert_eq!(map, Mapping::new());
    let spaced = parse_json("{ }").unwrap();
    assert_eq!(spaced, Mapping::new());
    let chars = chars_of("[]");
    assert_eq!(parsers::parse_array(&chars, 0, 16), Ok((2, vec![])));
}

#[test]
fn duplicate_keys_last_write_wins() {
    let map = parse_json("{\"a\":1,\"a\":2}").unwrap();
    assert_eq!(
        map.get("a")
            .unwrap()
            .as_f64()
            .unwrap()
            .text()
            .parse::<f64>()
            .unwrap(),
        2.0
    );
    let mut expected = Mapping::new();
    expected.insert(String::from("a"), num("2"));
    assert_eq!(map, expected);
}

#[test]
fn malformed_inputs_fail() {
    // a member without a value
    let e = parse_json("{\"a\":}").unwrap_err();
    assert_eq!(e.kind, ErrorKind::ExpectedValue);
    assert_eq!(e.pos, 5);
    // a document whose root is not an object
    let e = parse_json("\"unterminated").unwrap_err();
    assert_eq!(e.kind, ErrorKind::ExpectedObject);
    // the same text as a value: the closing quote is missing
    let chars = chars_of("\"unterminated");
    let e = parsers::parse_value(&chars, 0, 16).unwrap_err();
    assert_eq!(e.kind, ErrorKind::UnterminatedString);
    assert_eq!(e.pos, chars.len());
    // the closing brace is missing
    let e = parse_json("{\"a\":1").unwrap_err();
    assert_eq!(e.kind, ErrorKind::ExpectedCommaOrBrace);
    assert_eq!(e.pos, 6);
}

#[test]
fn error_kinds() {
    assert_eq!(parse_json("42").unwrap_err().kind, ErrorKind::ExpectedObject);
    assert_eq!(parse_json("{,}").unwrap_err().kind, ErrorKind::ExpectedPairOrBrace);
    assert_eq!(parse_json("{\"a\":1,}").unwrap_err().kind, ErrorKind::ExpectedPair);
    assert_eq!(parse_json("{\"a\" 1}").unwrap_err().kind, ErrorKind::ExpectedColon);
    assert_eq!(parse_json("{\"a\":1;}").unwrap_err().kind, ErrorKind::ExpectedCommaOrBrace);
    assert_eq!(
        parse_json("{\"a\":[1 2]}").unwrap_err().kind,
        ErrorKind::ExpectedCommaOrBracket
    );
    assert_eq!(parse_json("{\"a").unwrap_err().kind, ErrorKind::UnterminatedString);
    assert_eq!(parse_json("{\"a\\x\":1}").unwrap_err().kind, ErrorKind::BadEscape);
    let e = parse_json("{} x").unwrap_err();
    assert_eq!(e.kind, ErrorKind::TrailingText);
    assert_eq!(e.pos, 3);
}

#[test]
fn too_deep_nesting() {
    let mut doc = String::from("{\"a\":");
    for _ in 0..300 {
        doc.push('[');
    }
    let e = parse_json(&doc).unwrap_err();
    assert_eq!(e.kind, ErrorKind::TooDeep);
}

#[test]
fn whitespace_around_structure() {
    let doc = " { \"a\" : [ 1 , true , null ] , \"b\" : { } } ";
    let map = parse_json(doc).unwrap();
    let items = map.get("a").unwrap().as_vec().unwrap();
    assert_eq!(items, vec![num("1"), Value::Bool(true), Value::Null]);
    assert!(map.get("b").unwrap().as_map().unwrap().get("x").is_none());
}

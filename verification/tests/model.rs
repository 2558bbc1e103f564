//! The value model: accessors answer on their own variant and no other.

use json_parser::{Number, Value};

#[test]
fn test_string() {
    let test = Value::String(String::from("ABC"));
    let string = test.as_string();

    assert_eq!("ABC", string.unwrap())
}

#[test]
fn test_float() {
    let test = Value::Number(Number::from_text(String::from("13.37")).unwrap());
    let float = test.as_f64();

    assert_eq!(13.37, float.unwrap().text().parse::<f64>().unwrap());
}

#[test]
fn test_vec() {
    let array = Value::Array(vec![
        Value::Null,
        Value::Bool(true),
        Value::String(String::from("ABC")),
    ]);
    let vec = array.as_vec();

    assert_eq!(
        vec![
            Value::Null,
            Value::Bool(true),
            Value::String(String::from("ABC"))
        ],
        vec.unwrap()
    )
}

#[test]
fn test_bool() {
    let test = Value::Bool(true);
    let b = test.as_bool();

    assert_eq!(true, b.unwrap());
}

#[test]
fn test_failure() {
    let test = Value::String(String::from("Not a bool!"));
    let fail = test.as_bool();

    assert_eq!(None, fail)
}

#[test]
fn test_variant_accessors() {
    let s = Value::String(String::from("x"));
    assert!(s.as_string().is_some());
    assert!(s.as_f64().is_none());
    assert!(s.as_map().is_none());
    assert!(s.as_vec().is_none());
    assert!(s.as_bool().is_none());

    let n = Value::Number(Number::from_text(String::from("1")).unwrap());
    assert!(n.as_string().is_none());
    assert!(n.as_f64().is_some());
    assert!(n.as_map().is_none());
    assert!(n.as_vec().is_none());
    assert!(n.as_bool().is_none());

    let a = Value::Array(vec![]);
    assert!(a.as_string().is_none());
    assert!(a.as_f64().is_none());
    assert!(a.as_map().is_none());
    assert!(a.as_vec().is_some());
    assert!(a.as_bool().is_none());

    let b = Value::Bool(false);
    assert!(b.as_string().is_none());
    assert!(b.as_f64().is_none());
    assert!(b.as_map().is_none());
    assert!(b.as_vec().is_none());
    assert!(b.as_bool().is_some());

    let z = Value::Null;
    assert!(z.as_string().is_none());
    assert!(z.as_f64().is_none());
    assert!(z.as_map().is_none());
    assert!(z.as_vec().is_none());
    assert!(z.as_bool().is_none());
}

#[test]
fn test_number_from_text() {
    assert!(Number::from_text(String::from("143")).is_some());
    assert!(Number::from_text(String::from("0")).is_some());
    assert!(Number::from_text(String::from("-42.24e+10")).is_some());
    // the exponent's digit run may be empty
    assert!(Number::from_text(String::from("1e")).is_some());
    // a leading zero only stands alone, and zero takes no sign
    assert!(Number::from_text(String::from("01")).is_none());
    assert!(Number::from_text(String::from("-0")).is_none());
    assert!(Number::from_text(String::from("")).is_none());
    assert!(Number::from_text(String::from("abc")).is_none());
}

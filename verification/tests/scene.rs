use copilot::scene::bind::{node_address, AddressError};
use copilot::scene::{parse, Document, ParseError, Problem, Value};

fn doc(text: &str) -> Document {
    parse(text).unwrap()
}

fn at(at: usize, problem: Problem) -> ParseError {
    ParseError { at, problem }
}

#[test]
fn values_are_read_children_first() {
    let d = doc(r#"{"a": [1, "x", true, null], "b": false}"#);
    assert_eq!(d.root, d.values.len() - 1);
    let a = d.get(d.root, "a").unwrap();
    let items = d.items(a).unwrap();
    assert_eq!(items.len(), 4);
    assert_eq!(d.values[items[0]], Value::Number("1".into()));
    assert_eq!(d.text(items[1]), Some("x"));
    assert_eq!(d.values[items[2]], Value::Bool(true));
    assert_eq!(d.values[items[3]], Value::Null);
    assert_eq!(d.values[d.get(d.root, "b").unwrap()], Value::Bool(false));
    assert_eq!(d.get(d.root, "c"), None);
}

#[test]
fn comments_and_trailing_commas_are_allowed() {
    let d = doc("// heading\n{ /* inline */ \"k\": [1, 2,], }\n// tail");
    let k = d.get(d.root, "k").unwrap();
    assert_eq!(d.items(k).unwrap().len(), 2);
}

#[test]
fn escapes_are_resolved() {
    let d = doc(r#""a\"b\\c\/d\n\t\u00e9\ud83d\ude00""#);
    assert_eq!(d.text(d.root), Some("a\"b\\c/d\n\té😀"));
}

#[test]
fn numbers_are_kept_as_written() {
    let d = doc("[-0.5e+3, 0, 12.25, 7E2]");
    let items = d.items(d.root).unwrap();
    let texts: Vec<Value> = items.iter().map(|&i| d.values[i].clone()).collect();
    assert_eq!(
        texts,
        vec![
            Value::Number("-0.5e+3".into()),
            Value::Number("0".into()),
            Value::Number("12.25".into()),
            Value::Number("7E2".into()),
        ]
    );
}

#[test]
fn broken_text_is_refused_with_its_place() {
    assert_eq!(parse("").unwrap_err(), at(0, Problem::End));
    assert_eq!(parse("{").unwrap_err(), at(1, Problem::End));
    assert_eq!(parse("[1 2]").unwrap_err(), at(3, Problem::Unexpected));
    assert_eq!(parse("tru").unwrap_err(), at(0, Problem::Unexpected));
    assert_eq!(parse("01").unwrap_err(), at(1, Problem::Trailing));
    assert_eq!(parse("-").unwrap_err(), at(0, Problem::BadNumber));
    assert_eq!(parse("1.").unwrap_err(), at(0, Problem::BadNumber));
    assert_eq!(parse(r#""\q""#).unwrap_err(), at(1, Problem::BadEscape));
    assert_eq!(parse(r#""\ud800x""#).unwrap_err(), at(1, Problem::BadEscape));
    assert_eq!(parse("/* open").unwrap_err(), at(0, Problem::UnclosedComment));
    assert_eq!(parse("[1] x").unwrap_err(), at(4, Problem::Trailing));
    assert_eq!(parse("{\"a\" 1}").unwrap_err(), at(5, Problem::Unexpected));
    assert_eq!(parse("\"a\nb\"").unwrap_err(), at(2, Problem::Unexpected));
}

#[test]
fn nesting_deeper_than_the_limit_is_refused() {
    let deep = "[".repeat(33) + &"]".repeat(33);
    assert_eq!(parse(&deep).unwrap_err(), at(32, Problem::TooDeep));
    let fine = "[".repeat(32) + &"]".repeat(32);
    assert!(parse(&fine).is_ok());
}

#[test]
fn node_addresses_are_numbers_or_hex_strings() {
    let d = doc(r#"[2, "0x02", "0X2", 255, "0xff", 0, 256, "2", 1.5, "0x100", null]"#);
    let items = d.items(d.root).unwrap().to_vec();
    let got: Vec<Result<u8, AddressError>> = items.iter().map(|&i| node_address(&d, i)).collect();
    assert_eq!(
        got,
        vec![
            Ok(2),
            Ok(2),
            Ok(2),
            Err(AddressError::Reserved(255)),
            Err(AddressError::Reserved(255)),
            Err(AddressError::Reserved(0)),
            Err(AddressError::Unreadable),
            Err(AddressError::Unreadable),
            Err(AddressError::Unreadable),
            Err(AddressError::Unreadable),
            Err(AddressError::Unreadable),
        ]
    );
}

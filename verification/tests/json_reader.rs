use kanban_stale_cards::json::{parse, Value};

fn text(v: Option<&Value>) -> Option<&str> {
    v.and_then(|x| x.as_str())
}

fn err(input: &str) -> String {
    match parse(input) {
        Ok(_) => panic!("expected an error for {:?}", input),
        Err(e) => e,
    }
}

#[test]
fn parses_nested_document() {
    let v = parse(" { \"a\": [1, -2.5e3, true, false, null], \"b\": {\"c\": \"d\"} } ").unwrap();
    let a = v.get("a").unwrap().as_array().unwrap();
    assert_eq!(a.len(), 5);
    match &a[0] {
        Value::Number(t) => assert_eq!(t, "1"),
        _ => panic!("number expected"),
    }
    match &a[1] {
        Value::Number(t) => assert_eq!(t, "-2.5e3"),
        _ => panic!("number expected"),
    }
    assert_eq!(a[2].as_bool(), Some(true));
    assert_eq!(a[3].as_bool(), Some(false));
    assert!(matches!(a[4], Value::Null));
    assert_eq!(text(v.get("b").unwrap().get("c")), Some("d"));
}

#[test]
fn get_returns_first_duplicate_and_none_for_non_objects() {
    let v = parse("{\"k\": \"first\", \"k\": \"second\"}").unwrap();
    assert_eq!(text(v.get("k")), Some("first"));
    assert!(v.get("missing").is_none());
    let arr = parse("[1]").unwrap();
    assert!(arr.get("k").is_none());
    assert!(arr.as_str().is_none());
    assert!(v.as_array().is_none());
    assert!(v.as_bool().is_none());
}

#[test]
fn empty_containers() {
    assert_eq!(parse("[]").unwrap().as_array().unwrap().len(), 0);
    assert!(matches!(parse("{ }").unwrap(), Value::Object(ref p) if p.is_empty()));
}

#[test]
fn string_escapes() {
    let v = parse(r#""a\"b\\c\/d\b\f\n\r\t""#).unwrap();
    assert_eq!(v.as_str(), Some("a\"b\\c/d\u{8}\u{c}\n\r\t"));
}

#[test]
fn unicode_escapes_and_surrogate_pairs() {
    assert_eq!(parse(r#""\u00e9\u0041""#).unwrap().as_str(), Some("éA"));
    assert_eq!(parse(r#""\ud83d\ude00""#).unwrap().as_str(), Some("😀"));
    assert_eq!(parse(r#""\uD83D\uDE00""#).unwrap().as_str(), Some("😀"));
    // a lone low surrogate is dropped
    assert_eq!(parse(r#""x\udc00y""#).unwrap().as_str(), Some("xy"));
    // a high surrogate followed by a non-low-surrogate escape wraps around 16 bits
    assert_eq!(parse(r#""\ud800\u0041""#).unwrap().as_str(), Some("\u{12441}"));
}

#[test]
fn string_errors() {
    assert_eq!(err("\"abc"), "unterminated string");
    assert_eq!(err("\"a\\q\""), "invalid escape sequence in string");
    assert_eq!(err("\"a\\"), "invalid escape sequence in string");
    assert_eq!(err("\"\\u12\""), "invalid hex digit in \\u escape");
    assert_eq!(err("\"\\u12"), "unexpected end of input in \\u escape");
    assert_eq!(err("\"\\ud800x\""), "expected low surrogate after high surrogate");
    assert_eq!(err("\"\\ud800\\x\""), "expected low surrogate after high surrogate");
}

#[test]
fn literal_errors() {
    assert_eq!(err("tru"), "invalid literal near position 3");
    assert_eq!(err("trUe"), "invalid literal near position 3");
    assert_eq!(err("  nul"), "invalid literal near position 5");
    assert_eq!(err("fals!"), "invalid literal near position 5");
}

#[test]
fn number_errors_and_edges() {
    assert_eq!(err("-"), "invalid number '-': invalid float literal");
    assert_eq!(err("1e"), "invalid number '1e': invalid float literal");
    assert_eq!(err("[-e5]"), "invalid number '-e5': invalid float literal");
    assert!(parse("1.").is_ok());
    assert!(parse("-.5").is_ok());
    assert!(parse("1E+9").is_ok());
}

#[test]
fn structure_errors() {
    assert_eq!(err(""), "unexpected end of input");
    assert_eq!(err("   "), "unexpected end of input");
    assert_eq!(err("@"), "unexpected character '@' at position 0");
    assert_eq!(err("[1,]"), "unexpected character ']' at position 3");
    assert_eq!(err("[1 2]"), "expected ',' or ']' in array");
    assert_eq!(err("[1"), "expected ',' or ']' in array");
    assert_eq!(err("{1:2}"), "expected string key in object");
    assert_eq!(err("{\"a\" 2}"), "expected ':' after object key");
    assert_eq!(err("{\"a\":2 \"b\":3}"), "expected ',' or '}' in object");
    assert_eq!(err("{\"a\":2,}"), "expected string key in object");
    assert_eq!(err("[1] x"), "unexpected trailing data at position 4");
}

#[test]
fn whitespace_is_unicode_white_space() {
    let v = parse("\u{a0}\u{3000}[\u{2028}true\u{85}]\u{200a}").unwrap();
    assert_eq!(v.as_array().unwrap()[0].as_bool(), Some(true));
}

use haversine_processor::json::{parse, parse_from_string, skip_spaces, JSONValue, ParseError};

fn num(t: &str) -> JSONValue {
    JSONValue::Number(t.to_string())
}

#[test]
fn unterminated_object_is_malformed() {
    let r = parse_from_string("{".to_string());
    assert_eq!(r, Err(ParseError::MalformedObject { position: 1 }));
}

#[test]
fn truncated_keyword_is_unknown() {
    let r = parse_from_string("tru".to_string());
    assert_eq!(r, Err(ParseError::UnknownKeyword { position: 0 }));
}

#[test]
fn empty_text_ends_unexpectedly() {
    let r = parse_from_string("   ".to_string());
    assert_eq!(r, Err(ParseError::UnexpectedEnd { position: 3 }));
}

#[test]
fn unhandled_character() {
    let r = parse_from_string("  @".to_string());
    assert_eq!(
        r,
        Err(ParseError::UnexpectedCharacter { position: 2, character: '@' })
    );
}

#[test]
fn keywords() {
    assert_eq!(parse_from_string("true".to_string()), Ok(JSONValue::Boolean(true)));
    assert_eq!(parse_from_string(" false".to_string()), Ok(JSONValue::Boolean(false)));
    assert_eq!(parse_from_string("null".to_string()), Ok(JSONValue::Null));
}

#[test]
fn string_is_taken_verbatim() {
    let r = parse_from_string("\"a\\b c\"".to_string());
    assert_eq!(r, Ok(JSONValue::String("a\\b c".to_string())));
}

#[test]
fn unterminated_string() {
    let r = parse_from_string("\"abc".to_string());
    assert_eq!(r, Err(ParseError::UnexpectedEnd { position: 4 }));
}

#[test]
fn number_keeps_its_numeral() {
    let r = parse_from_string("-12.5e3,".to_string());
    assert_eq!(r, Ok(num("-12.5e3")));
}

#[test]
fn nested_document() {
    let text = " { \"a\" : [1, \"x\", {\"b\": null}], \"c\": true } ";
    let expected = JSONValue::Object(vec![
        (
            "a".to_string(),
            JSONValue::Array(vec![
                num("1"),
                JSONValue::String("x".to_string()),
                JSONValue::Object(vec![("b".to_string(), JSONValue::Null)]),
            ]),
        ),
        ("c".to_string(), JSONValue::Boolean(true)),
    ]);
    assert_eq!(parse_from_string(text.to_string()), Ok(expected));
}

#[test]
fn empty_object_and_array() {
    assert_eq!(parse_from_string("{ }".to_string()), Ok(JSONValue::Object(vec![])));
    assert_eq!(parse_from_string("[\n]".to_string()), Ok(JSONValue::Array(vec![])));
}

#[test]
fn unicode_whitespace_is_skipped() {
    let r = parse_from_string("\u{3000}\u{a0}\t[\u{2028}1 ]".to_string());
    assert_eq!(r, Ok(JSONValue::Array(vec![num("1")])));
}

#[test]
fn missing_colon_in_object() {
    let r = parse_from_string("{\"a\" 1}".to_string());
    assert_eq!(r, Err(ParseError::MalformedObject { position: 5 }));
}

#[test]
fn unquoted_key_in_object() {
    let r = parse_from_string("{a: 1}".to_string());
    assert_eq!(r, Err(ParseError::MalformedObject { position: 1 }));
}

#[test]
fn missing_comma_in_object() {
    let r = parse_from_string("{\"a\": 1 \"b\": 2}".to_string());
    assert_eq!(r, Err(ParseError::MalformedObject { position: 8 }));
}

#[test]
fn missing_comma_in_array() {
    let r = parse_from_string("[1 2]".to_string());
    assert_eq!(r, Err(ParseError::MalformedArray { position: 3 }));
}

#[test]
fn unterminated_array() {
    assert_eq!(
        parse_from_string("[".to_string()),
        Err(ParseError::MalformedArray { position: 1 })
    );
    assert_eq!(
        parse_from_string("[1,".to_string()),
        Err(ParseError::UnexpectedEnd { position: 3 })
    );
}

#[test]
fn parsing_twice_gives_the_same_tree() {
    let text = "{\"pairs\": [{\"x0\": 1, \"y0\": 2, \"x1\": 3, \"y1\": 4}]}";
    let a = parse_from_string(text.to_string());
    let b = parse_from_string(text.to_string());
    assert!(a.is_ok());
    assert_eq!(a, b);
}

#[test]
fn error_position_is_reported() {
    let e = parse_from_string("[1, @]".to_string()).unwrap_err();
    assert_eq!(e.position(), 4);
}

#[test]
fn malformed_numbers() {
    for text in ["1.2.3", "-", "1e", "+-1", "1e+", "-.e5", "2e3e4"] {
        assert_eq!(
            parse_from_string(text.to_string()),
            Err(ParseError::MalformedNumber { position: 0 }),
            "{text}"
        );
    }
    assert_eq!(
        parse_from_string("[0, 1..]".to_string()),
        Err(ParseError::MalformedNumber { position: 4 })
    );
}

#[test]
fn decimal_numerals() {
    for text in ["1.", "-0.5", "1E5", "+3", "2e-3", "7.25e+10", "00"] {
        assert_eq!(parse_from_string(text.to_string()), Ok(num(text)), "{text}");
    }
}

#[test]
fn cursor_advances_past_each_value() {
    let chars: Vec<char> = " [1, 2] true \"k\" ".chars().collect();
    let mut offset: usize = 0;
    skip_spaces(&chars, &mut offset);
    assert_eq!(offset, 1);
    let mut offset: usize = 0;
    let mut ends = Vec::new();
    while parse(&chars, &mut offset).is_ok() {
        ends.push(offset);
    }
    assert_eq!(ends, vec![7, 12, 16]);
    assert_eq!(offset, 17);
}

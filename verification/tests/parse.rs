use json_scan::{json_parse, JsonParser, JsonType, ParseError};

fn expect_event(ev: &json_scan::Event, path: &[u8], kind: JsonType, value: &[u8]) {
    assert_eq!(ev.path, path.to_vec());
    assert_eq!(ev.kind, kind);
    assert_eq!(ev.value, value.to_vec());
}

#[test]
fn test_number() {
    let data = b"1234.56";
    let events = json_parse(data.to_vec()).expect("failed to parse");
    assert_eq!(events.len(), 1);
    expect_event(&events[0], b"$", JsonType::Number, b"1234.56");
}

#[test]
fn string_scalar() {
    let events = json_parse(b"\"hello\"".to_vec()).unwrap();
    assert_eq!(events.len(), 1);
    expect_event(&events[0], b"$", JsonType::String, b"hello");
}

#[test]
fn true_scalar() {
    let events = json_parse(b"true".to_vec()).unwrap();
    assert_eq!(events.len(), 1);
    expect_event(&events[0], b"$", JsonType::True, b"");
}

#[test]
fn false_scalar() {
    let events = json_parse(b"false".to_vec()).unwrap();
    assert_eq!(events.len(), 1);
    expect_event(&events[0], b"$", JsonType::False, b"");
}

#[test]
fn null_scalar() {
    let events = json_parse(b"null".to_vec()).unwrap();
    assert_eq!(events.len(), 1);
    expect_event(&events[0], b"$", JsonType::Null, b"");
}

#[test]
fn whitespace_before_scalar() {
    let events = json_parse(b"  \t\r\n 7".to_vec()).unwrap();
    assert_eq!(events.len(), 1);
    expect_event(&events[0], b"$", JsonType::Number, b"7");
}

#[test]
fn malformed_number_is_passed_through() {
    let events = json_parse(b"--".to_vec()).unwrap();
    assert_eq!(events.len(), 1);
    expect_event(&events[0], b"$", JsonType::Number, b"--");
}

#[test]
fn number_stops_at_first_foreign_byte() {
    let events = json_parse(b"1e5x".to_vec()).unwrap();
    assert_eq!(events.len(), 1);
    expect_event(&events[0], b"$", JsonType::Number, b"1e5");
}

#[test]
fn nested_object_event_order_and_paths() {
    let events = json_parse(b"{\"a\":1,\"b\":[2,3]}".to_vec()).unwrap();
    assert_eq!(events.len(), 5);
    expect_event(&events[0], b"$.a", JsonType::Number, b"1");
    expect_event(&events[1], b"$.b[0]", JsonType::Number, b"2");
    expect_event(&events[2], b"$.b[1]", JsonType::Number, b"3");
    expect_event(&events[3], b"$.b", JsonType::Array, b"3");
    expect_event(&events[4], b"$", JsonType::Object, b"3");
}

#[test]
fn empty_array() {
    let events = json_parse(b"[]".to_vec()).unwrap();
    assert_eq!(events.len(), 1);
    expect_event(&events[0], b"$", JsonType::Array, b"");
}

#[test]
fn empty_object() {
    let events = json_parse(b"{}".to_vec()).unwrap();
    assert_eq!(events.len(), 1);
    expect_event(&events[0], b"$", JsonType::Object, b"");
}

#[test]
fn composite_value_text_is_last_scalar_text() {
    let events = json_parse(b"{\"a\":\"z\"}".to_vec()).unwrap();
    assert_eq!(events.len(), 2);
    expect_event(&events[0], b"$.a", JsonType::String, b"z");
    expect_event(&events[1], b"$", JsonType::Object, b"z");
}

#[test]
fn deep_nesting_paths() {
    let events = json_parse(b"{\"a\":{\"b\":[[1]]}}".to_vec()).unwrap();
    assert_eq!(events.len(), 5);
    expect_event(&events[0], b"$.a.b[0][0]", JsonType::Number, b"1");
    expect_event(&events[1], b"$.a.b[0]", JsonType::Array, b"1");
    expect_event(&events[2], b"$.a.b", JsonType::Array, b"1");
    expect_event(&events[3], b"$.a", JsonType::Object, b"1");
    expect_event(&events[4], b"$", JsonType::Object, b"1");
}

#[test]
fn array_indexes_past_ten() {
    let events = json_parse(b"[0,1,2,3,4,5,6,7,8,9,10,11]".to_vec()).unwrap();
    assert_eq!(events.len(), 13);
    expect_event(&events[10], b"$[10]", JsonType::Number, b"10");
    expect_event(&events[11], b"$[11]", JsonType::Number, b"11");
    expect_event(&events[12], b"$", JsonType::Array, b"11");
}

#[test]
fn escaped_quote_is_copied_verbatim() {
    // bytes: "a\"b" — the backslash is dropped, the quote kept
    let events = json_parse(b"\"a\\\"b\"".to_vec()).unwrap();
    assert_eq!(events.len(), 1);
    expect_event(&events[0], b"$", JsonType::String, b"a\"b");
}

#[test]
fn escaped_backslash_is_copied_verbatim() {
    // bytes: "a\\b" — the first backslash is dropped, the second is the
    // escaped byte and is copied through, then b follows unescaped
    let events = json_parse(b"\"a\\\\b\"".to_vec()).unwrap();
    assert_eq!(events.len(), 1);
    expect_event(&events[0], b"$", JsonType::String, b"a\\b");
}

#[test]
fn quote_after_escaped_backslash_terminates() {
    // bytes: "a\\" — the escape applies to exactly the second backslash,
    // so the closing quote is unescaped and ends the string
    let events = json_parse(b"\"a\\\\\"".to_vec()).unwrap();
    assert_eq!(events.len(), 1);
    expect_event(&events[0], b"$", JsonType::String, b"a\\");
}

#[test]
fn unterminated_string_fails_without_event() {
    let mut parser = JsonParser::new(b"\"abc".to_vec());
    let res = parser.read_value();
    assert_eq!(res, Err(ParseError::UnterminatedString));
    assert_eq!(parser.events().len(), 0);
}

#[test]
fn trailing_comma_in_array_fails() {
    let res = json_parse(b"[1,]".to_vec());
    assert_eq!(res, Err(ParseError::InvalidChar { got: b']' }));
}

#[test]
fn array_missing_comma_fails() {
    let res = json_parse(b"[1 2]".to_vec());
    assert_eq!(res, Err(ParseError::InvalidChar { got: b'2' }));
}

#[test]
fn array_leading_comma_fails() {
    let res = json_parse(b"[,1]".to_vec());
    assert_eq!(res, Err(ParseError::InvalidChar { got: b',' }));
}

#[test]
fn unterminated_array_fails() {
    let res = json_parse(b"[1".to_vec());
    assert_eq!(res, Err(ParseError::EndOfArray));
}

#[test]
fn unterminated_object_fails() {
    let res = json_parse(b"{\"a\":1".to_vec());
    assert_eq!(res, Err(ParseError::EndOfObject));
}

#[test]
fn empty_input_fails() {
    let res = json_parse(Vec::new());
    assert_eq!(res, Err(ParseError::UnexpectedEnd));
}

#[test]
fn unexpected_byte_fails() {
    let res = json_parse(b"x".to_vec());
    assert_eq!(res, Err(ParseError::UnexpectedChar { got: b'x' }));
}

#[test]
fn literal_mismatch_fails() {
    let res = json_parse(b"trux".to_vec());
    assert_eq!(res, Err(ParseError::LiteralMismatch { expected: b'e', got: b'x' }));
}

#[test]
fn literal_cut_short_fails() {
    let res = json_parse(b"tr".to_vec());
    assert_eq!(res, Err(ParseError::LiteralEnd { expected: b'u' }));
}

#[test]
fn object_missing_colon_fails() {
    let res = json_parse(b"{\"a\"1}".to_vec());
    assert_eq!(res, Err(ParseError::UnexpectedChar { got: b'1' }));
}

#[test]
fn object_second_key_without_colon_fails() {
    let res = json_parse(b"{\"a\"\"b\"}".to_vec());
    assert_eq!(res, Err(ParseError::ExpectedColon));
}

#[test]
fn object_colon_without_key_fails() {
    let res = json_parse(b"{:1}".to_vec());
    assert_eq!(res, Err(ParseError::ExpectedKey));
}

#[test]
fn object_empty_key_counts_as_no_key() {
    let res = json_parse(b"{\"\":1}".to_vec());
    assert_eq!(res, Err(ParseError::ExpectedKey));
}

#[test]
fn events_of_completed_siblings_survive_a_failure() {
    let mut parser = JsonParser::new(b"{\"a\":1,\"b\":x}".to_vec());
    let res = parser.read_value();
    assert_eq!(res, Err(ParseError::UnexpectedChar { got: b'x' }));
    let events = parser.events();
    assert_eq!(events.len(), 1);
    expect_event(&events[0], b"$.a", JsonType::Number, b"1");
}

#[test]
fn reparsing_yields_identical_events() {
    let data = b"{\"a\":[true,null,\"x\"],\"b\":-1.5e3}";
    let first = json_parse(data.to_vec()).unwrap();
    let second = json_parse(data.to_vec()).unwrap();
    assert_eq!(first.len(), second.len());
    for k in 0..first.len() {
        assert_eq!(first[k].path, second[k].path);
        assert_eq!(first[k].kind, second[k].kind);
        assert_eq!(first[k].value, second[k].value);
    }
}

#[test]
fn path_buffer_is_restored_after_nested_values() {
    // after a whole nested document, a second value parsed by the same
    // parser is located at `$` again
    let mut parser = JsonParser::new(b"{\"a\":{\"b\":[[1]]}} 7".to_vec());
    parser.read_value().unwrap();
    parser.read_value().unwrap();
    let events = parser.events();
    assert_eq!(events.len(), 6);
    expect_event(&events[0], b"$.a.b[0][0]", JsonType::Number, b"1");
    expect_event(&events[5], b"$", JsonType::Number, b"7");
}

#[test]
fn object_closes_even_with_a_pending_key() {
    // a `}` always completes the object, even right after a key
    let events = json_parse(b"{\"a\"}".to_vec()).unwrap();
    assert_eq!(events.len(), 1);
    expect_event(&events[0], b"$", JsonType::Object, b"");
}

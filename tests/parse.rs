use json_parser::cursor::Cursor;
use json_parser::error::ParseError;
use json_parser::parser::{
    match_char, parse, parse_array, parse_bool, parse_number, parse_object, parse_string,
    parse_value, strip_whitespace,
};
use json_parser::value::Value;

fn cursor(text: &str) -> Cursor {
    Cursor::new(text.chars().collect())
}

fn text(s: &str) -> Value {
    Value::String(s.to_string())
}

fn entry(k: &str, v: Value) -> (String, Value) {
    (k.to_string(), v)
}

#[test]
fn test_1() {
    let src = "{}\n";
    let parsed = parse(src);
    let expectation = Value::Object(vec![]);
    assert_eq!(parsed, Ok(expectation));
}

#[test]
fn test_2() {
    let src = "{\n    \"key\": \"value\"\n}\n";
    let parsed = parse(src);
    let body = vec![entry("key", text("value"))];
    let expectation = Value::Object(body);
    assert_eq!(parsed, Ok(expectation));
}

#[test]
fn test_3() {
    let src = "{\n  \"key1\": true,\n  \"key2\": false,\n  \"key3\": \"value\",\n  \"key4\": 101\n}\n";
    let parsed = parse(src);
    let body = vec![
        entry("key1", Value::True),
        entry("key2", Value::False),
        entry("key3", text("value")),
        entry("key4", Value::Number(101)),
    ];
    let expectation = Value::Object(body);
    assert_eq!(parsed, Ok(expectation));
}

#[test]
fn test_4() {
    let src = "{\n  \"key\": \"value\",\n  \"key1\": 101,\n  \"key2\": {},\n  \"key3\": []\n}\n";
    let parsed = parse(src);
    let body = vec![
        entry("key", text("value")),
        entry("key1", Value::Number(101)),
        entry("key2", Value::Object(vec![])),
        entry("key3", Value::Array(vec![])),
    ];
    let expectation = Value::Object(body);
    assert_eq!(parsed, Ok(expectation));
}

#[test]
fn test_5() {
    let src = "{\n    \"title\": \"Rust\",\n    \"year\": 2023,\n    \"live\": true,\n    \"organizers\": [\"vbi\", \"techfest\"],\n    \"presenter\": {\n      \"name\": \"Dung\",\n      \"age\": 27,\n      \"occupation\": \"Engineer\"\n    }\n}\n";
    let parsed = parse(src);
    let payload_org = vec![text("vbi"), text("techfest")];
    let payload_presenter = vec![
        entry("name", text("Dung")),
        entry("age", Value::Number(27)),
        entry("occupation", text("Engineer")),
    ];
    let body = vec![
        entry("title", text("Rust")),
        entry("year", Value::Number(2023)),
        entry("live", Value::True),
        entry("organizers", Value::Array(payload_org)),
        entry("presenter", Value::Object(payload_presenter)),
    ];
    let expectation = Value::Object(body);
    assert_eq!(parsed, Ok(expectation));
}

#[test]
fn empty_object_is_empty_mapping() {
    assert_eq!(parse("{}"), Ok(Value::Object(vec![])));
}

#[test]
fn empty_array_is_empty_sequence() {
    let mut src = cursor("[]");
    assert_eq!(parse_array(&mut src), Ok(Value::Array(vec![])));
    let mut src = cursor("[]");
    assert_eq!(parse_value(&mut src), Ok(Value::Array(vec![])));
    assert_eq!(src.peek(), None);
}

#[test]
fn single_string_entry() {
    assert_eq!(
        parse("{\"key\":\"value\"}"),
        Ok(Value::Object(vec![entry("key", text("value"))]))
    );
}

#[test]
fn scalar_entries_are_typed() {
    assert_eq!(
        parse("{\"key1\":true,\"key2\":false,\"key3\":\"value\",\"key4\":101}"),
        Ok(Value::Object(vec![
            entry("key1", Value::True),
            entry("key2", Value::False),
            entry("key3", text("value")),
            entry("key4", Value::Number(101)),
        ]))
    );
}

#[test]
fn duplicate_key_last_write_wins() {
    assert_eq!(
        parse("{\"a\":1,\"a\":2}"),
        Ok(Value::Object(vec![entry("a", Value::Number(2))]))
    );
    assert_eq!(
        parse("{\"a\":1,\"b\":2,\"a\":3}"),
        Ok(Value::Object(vec![
            entry("a", Value::Number(3)),
            entry("b", Value::Number(2)),
        ]))
    );
}

#[test]
fn nested_empty_members() {
    assert_eq!(
        parse("{\"key\":\"value\",\"key1\":101,\"key2\":{},\"key3\":[]}"),
        Ok(Value::Object(vec![
            entry("key", text("value")),
            entry("key1", Value::Number(101)),
            entry("key2", Value::Object(vec![])),
            entry("key3", Value::Array(vec![])),
        ]))
    );
}

#[test]
fn maybe_is_an_invalid_literal() {
    let mut src = cursor("maybe");
    assert_eq!(parse_value(&mut src), Err(ParseError::InvalidLiteral));
    let mut src = cursor("maybe");
    assert_eq!(parse_bool(&mut src), Err(ParseError::InvalidLiteral));
}

#[test]
fn missing_closing_brace_is_accepted() {
    assert_eq!(
        parse("{\"k\":1"),
        Ok(Value::Object(vec![entry("k", Value::Number(1))]))
    );
}

#[test]
fn stripping_twice_changes_nothing() {
    let once: Vec<char> = strip_whitespace(" {\t\"a b\" :\n 1 }\r\n");
    let again: String = once.iter().collect();
    assert_eq!(strip_whitespace(&again), once);
    assert_eq!(once, "{\"ab\":1}".chars().collect::<Vec<char>>());
}

#[test]
fn unicode_white_space_is_removed() {
    let once = strip_whitespace("a\u{a0}b\u{3000}c\u{2028}d");
    assert_eq!(once, vec!['a', 'b', 'c', 'd']);
    assert_eq!(strip_whitespace(""), Vec::<char>::new());
}

#[test]
fn white_space_inside_strings_is_removed() {
    assert_eq!(
        parse("{\"a b\": \"c d\"}"),
        Ok(Value::Object(vec![entry("ab", text("cd"))]))
    );
}

#[test]
fn top_level_must_be_an_object() {
    assert_eq!(parse("[]"), Err(ParseError::ExpectedChar('{')));
    assert_eq!(parse(""), Err(ParseError::ExpectedChar('{')));
    assert_eq!(parse("maybe"), Err(ParseError::ExpectedChar('{')));
}

#[test]
fn literal_last_in_object_swallows_the_brace() {
    assert_eq!(parse("{\"a\":true}"), Err(ParseError::InvalidLiteral));
    assert_eq!(
        parse("{\"a\":true,\"b\":1}"),
        Ok(Value::Object(vec![entry("a", Value::True), entry("b", Value::Number(1))]))
    );
}

#[test]
fn missing_colon_is_reported() {
    assert_eq!(parse("{\"a\" 1}"), Err(ParseError::ExpectedChar(':')));
}

#[test]
fn key_must_be_a_string() {
    assert_eq!(parse("{a:1}"), Err(ParseError::ExpectedChar('"')));
}

#[test]
fn unterminated_string_is_reported() {
    let mut src = cursor("\"abc");
    assert_eq!(parse_string(&mut src), Err(ParseError::ExpectedChar('"')));
}

#[test]
fn string_keeps_backslashes() {
    let mut src = cursor("\"a\\nb\"x");
    assert_eq!(parse_string(&mut src), Ok(text("a\\nb")));
    assert_eq!(src.peek(), Some('x'));
}

#[test]
fn array_requires_closing_bracket() {
    let mut src = cursor("[1,2");
    assert_eq!(parse_array(&mut src), Err(ParseError::ExpectedChar(']')));
    let mut src = cursor("{\"a\":[1,2}");
    assert_eq!(parse_object(&mut src), Err(ParseError::ExpectedChar(']')));
}

#[test]
fn array_of_mixed_values() {
    let mut src = cursor("[1,\"x\",[],{},false,2]");
    assert_eq!(
        parse_array(&mut src),
        Ok(Value::Array(vec![
            Value::Number(1),
            text("x"),
            Value::Array(vec![]),
            Value::Object(vec![]),
            Value::False,
            Value::Number(2),
        ]))
    );
    assert_eq!(src.peek(), None);
}

#[test]
fn numbers_read_every_digit() {
    let mut src = cursor("0071x");
    assert_eq!(parse_number(&mut src), Ok(Value::Number(71)));
    assert_eq!(src.peek(), Some('x'));
    let mut src = cursor("9223372036854775807");
    assert_eq!(parse_number(&mut src), Ok(Value::Number(i64::MAX)));
}

#[test]
fn numbers_too_large_overflow() {
    let mut src = cursor("9223372036854775808");
    assert_eq!(parse_number(&mut src), Err(ParseError::NumericOverflow));
    assert_eq!(
        parse("{\"n\":123456789012345678901234567890}"),
        Err(ParseError::NumericOverflow)
    );
}

#[test]
fn match_char_consumes_only_on_match() {
    let mut src = cursor("ab");
    assert_eq!(match_char(&mut src, 'b'), Err(ParseError::ExpectedChar('b')));
    assert_eq!(src.peek(), Some('a'));
    assert_eq!(match_char(&mut src, 'a'), Ok(()));
    assert_eq!(src.peek(), Some('b'));
    assert_eq!(match_char(&mut src, 'b'), Ok(()));
    assert_eq!(match_char(&mut src, 'b'), Err(ParseError::ExpectedChar('b')));
}

#[test]
fn cursor_next_if_and_peek() {
    let mut src = cursor("a,");
    assert_eq!(src.next_if(|c| c == ','), None);
    assert_eq!(src.next_if(|c| c != ','), Some('a'));
    assert_eq!(src.next_if_eq('x'), None);
    assert_eq!(src.next_if_eq(','), Some(','));
    assert_eq!(src.peek(), None);
    assert_eq!(src.next_if(|_| true), None);
}

#[test]
fn literals_true_and_false() {
    let mut src = cursor("true,1");
    assert_eq!(parse_value(&mut src), Ok(Value::True));
    assert_eq!(src.peek(), Some(','));
    let mut src = cursor("false");
    assert_eq!(parse_value(&mut src), Ok(Value::False));
    let mut src = cursor("");
    assert_eq!(parse_value(&mut src), Err(ParseError::InvalidLiteral));
    let mut src = cursor("null,");
    assert_eq!(parse_value(&mut src), Err(ParseError::InvalidLiteral));
}

#[test]
fn only_unicode_white_space_is_removed() {
    let kept = strip_whitespace("\u{85}\u{200b}x\u{1680}\u{1c}\u{202f}y\u{205f}");
    assert_eq!(kept, vec!['\u{200b}', 'x', '\u{1c}', 'y']);
}

#[test]
fn failed_literal_consumes_its_token() {
    let mut src = cursor("maybe");
    assert_eq!(parse_bool(&mut src), Err(ParseError::InvalidLiteral));
    assert_eq!(src.peek(), None);
    let mut src = cursor("false]");
    assert_eq!(parse_value(&mut src), Err(ParseError::InvalidLiteral));
    assert_eq!(src.peek(), None);
    let mut src = cursor("nope,1");
    assert_eq!(parse_value(&mut src), Err(ParseError::InvalidLiteral));
    assert_eq!(src.peek(), Some(','));
}

#[test]
fn wrong_first_character_consumes_nothing() {
    let mut src = cursor("x\"");
    assert_eq!(parse_string(&mut src), Err(ParseError::ExpectedChar('"')));
    assert_eq!(src.peek(), Some('x'));
    let mut src = cursor("[}");
    assert_eq!(parse_object(&mut src), Err(ParseError::ExpectedChar('{')));
    assert_eq!(src.peek(), Some('['));
    let mut src = cursor("{]");
    assert_eq!(parse_array(&mut src), Err(ParseError::ExpectedChar('[')));
    assert_eq!(src.peek(), Some('{'));
}

#[test]
fn unterminated_string_consumes_to_the_end() {
    let mut src = cursor("\"abc");
    assert_eq!(parse_value(&mut src), Err(ParseError::ExpectedChar('"')));
    assert_eq!(src.peek(), None);
}

#[test]
fn failed_array_stops_where_bracket_was_expected() {
    let mut src = cursor("[1,2}x");
    assert_eq!(parse_array(&mut src), Err(ParseError::ExpectedChar(']')));
    assert_eq!(src.peek(), Some('}'));
}

#[test]
fn overflow_consumes_the_whole_run() {
    let mut src = cursor("99999999999999999999,");
    assert_eq!(parse_number(&mut src), Err(ParseError::NumericOverflow));
    assert_eq!(src.peek(), Some(','));
}

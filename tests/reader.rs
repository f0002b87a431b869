use json_reader::{parse, tokenize, JsonParser, JsonToken, JsonTokenizer, JsonValue, ParseError, TokenizeError};

fn read(text: &str) -> JsonValue {
    let tokens = tokenize(text).expect("tokens");
    parse(&tokens).expect("value")
}

fn num(s: &str) -> JsonValue {
    JsonValue::Number(s.to_string())
}

#[test]
fn object_with_nested_array() {
    let v = read("{\"a\":1,\"b\":[true,false,null]}");
    assert_eq!(
        v,
        JsonValue::Object(vec![
            ("a".to_string(), num("1")),
            (
                "b".to_string(),
                JsonValue::Array(vec![JsonValue::Bool(true), JsonValue::Bool(false), JsonValue::Null])
            ),
        ])
    );
}

#[test]
fn array_of_numbers() {
    assert_eq!(read("[1,2,3]"), JsonValue::Array(vec![num("1"), num("2"), num("3")]));
}

#[test]
fn unterminated_object_is_unexpected_end() {
    let tokens = tokenize("{\"a\":1").unwrap();
    assert_eq!(parse(&tokens), Err(ParseError::UnexpectedEnd));
}

#[test]
fn truncated_keyword_reports_missing_position() {
    assert_eq!(tokenize("tru"), Err(TokenizeError::UnexpectedCharacter('\0', 4)));
}

#[test]
fn doubled_comma_is_unexpected_comma() {
    let tokens = tokenize("[1,,2]").unwrap();
    assert_eq!(parse(&tokens), Err(ParseError::UnexpectedToken(JsonToken::Comma)));
}

#[test]
fn scalar_literals() {
    assert_eq!(read("true"), JsonValue::Bool(true));
    assert_eq!(read("false"), JsonValue::Bool(false));
    assert_eq!(read("null"), JsonValue::Null);
    assert_eq!(read("42"), num("42"));
    assert_eq!(read("3.25"), num("3.25"));
    assert_eq!(read("\"hi there\""), JsonValue::String("hi there".to_string()));
}

#[test]
fn number_text_is_kept_exactly() {
    assert_eq!(tokenize("7."), Ok(vec![JsonToken::Number("7.".to_string())]));
    assert_eq!(
        tokenize("12.5]"),
        Ok(vec![JsonToken::Number("12.5".to_string()), JsonToken::RightBracket])
    );
}

#[test]
fn rendered_tree_reads_back() {
    let text = "{ \"k\" : [ 1 , { \"x\" : null } , \"s\" ] , \"k\" : 2.5 } ";
    let v = read(text);
    assert_eq!(
        v,
        JsonValue::Object(vec![
            (
                "k".to_string(),
                JsonValue::Array(vec![
                    num("1"),
                    JsonValue::Object(vec![("x".to_string(), JsonValue::Null)]),
                    JsonValue::String("s".to_string()),
                ])
            ),
            ("k".to_string(), num("2.5")),
        ])
    );
}

#[test]
fn whitespace_between_tokens_changes_nothing() {
    let a = read("[1,{\"a\":true},\"b\"]");
    let b = read(" [ \n1\t,\t\t{ \"a\"\n:\r\ntrue }  ,\n\"b\" ]\n");
    assert_eq!(a, b);
}

#[test]
fn two_dots_in_a_number_fail() {
    assert_eq!(tokenize("[1.2.3]"), Err(TokenizeError::UnexpectedCharacter(']', 6)));
    assert_eq!(tokenize("1..2"), Err(TokenizeError::UnexpectedCharacter('\0', 4)));
}

#[test]
fn unterminated_string_reports_text_length() {
    assert_eq!(tokenize("[\"abc"), Err(TokenizeError::UnexpectedCharacter('"', 5)));
}

#[test]
fn keyword_mismatch_reports_character_and_position() {
    assert_eq!(tokenize("[trux]"), Err(TokenizeError::UnexpectedCharacter('x', 5)));
    assert_eq!(tokenize("nul"), Err(TokenizeError::UnexpectedCharacter('\0', 4)));
}

#[test]
fn unknown_characters_are_skipped() {
    assert_eq!(tokenize("-@1"), Ok(vec![JsonToken::Number("1".to_string())]));
    assert_eq!(tokenize(""), Ok(vec![]));
}

#[test]
fn strings_keep_backslashes() {
    assert_eq!(
        tokenize("\"a\\nb\""),
        Ok(vec![JsonToken::String("a\\nb".to_string())])
    );
}

#[test]
fn trailing_tokens_are_ignored_and_trailing_commas_accepted() {
    assert_eq!(read("1 2"), num("1"));
    assert_eq!(read("[1,]"), JsonValue::Array(vec![num("1")]));
    assert_eq!(read("{\"a\":null,}"), JsonValue::Object(vec![("a".to_string(), JsonValue::Null)]));
}

#[test]
fn empty_containers() {
    assert_eq!(read("[]"), JsonValue::Array(vec![]));
    assert_eq!(read("{}"), JsonValue::Object(vec![]));
}

#[test]
fn parse_errors_name_the_offending_token() {
    let t = tokenize("{1:2}").unwrap();
    assert_eq!(parse(&t), Err(ParseError::UnexpectedToken(JsonToken::Number("1".to_string()))));
    let t = tokenize("{\"a\" 2}").unwrap();
    assert_eq!(parse(&t), Err(ParseError::UnexpectedToken(JsonToken::Number("2".to_string()))));
    let t = tokenize("[1 2]").unwrap();
    assert_eq!(parse(&t), Err(ParseError::UnexpectedToken(JsonToken::Number("2".to_string()))));
    let t = tokenize("]").unwrap();
    assert_eq!(parse(&t), Err(ParseError::UnexpectedToken(JsonToken::RightBracket)));
    assert_eq!(parse(&[]), Err(ParseError::UnexpectedEnd));
    let t = tokenize("[1").unwrap();
    assert_eq!(parse(&t), Err(ParseError::UnexpectedEnd));
}

#[test]
fn cursors_step_one_at_a_time() {
    let mut tk = JsonTokenizer::new("ab");
    assert_eq!(tk.next(), Some('a'));
    assert_eq!(tk.next(), Some('b'));
    assert_eq!(tk.next(), None);
    assert_eq!(tk.next(), None);
    let toks = vec![JsonToken::Null, JsonToken::Comma];
    let mut p = JsonParser::new(&toks);
    assert_eq!(p.next(), Some(&JsonToken::Null));
    assert_eq!(p.parse(), Err(ParseError::UnexpectedToken(JsonToken::Comma)));
    assert_eq!(p.next(), None);
}

#[test]
fn tokenizer_method_matches_entry_point() {
    let mut tk = JsonTokenizer::new("{\"a\":[1]}");
    assert_eq!(tk.tokenize(), tokenize("{\"a\":[1]}"));
}

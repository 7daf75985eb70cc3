use json_parser::value::find_member;
use json_parser::{
    array, characters, insert_member, json, json_value, key_value, object, parse_document,
    Context, ErrorKind, Failure, JsonValue, ParseError,
};

fn number(literal: &str) -> JsonValue {
    JsonValue::Number(literal.to_string())
}

fn text(s: &str) -> JsonValue {
    JsonValue::String(s.to_string())
}

fn fatal(kind: ErrorKind, offset: usize, context: Context) -> Failure {
    Failure::Fatal(ParseError { kind, offset, context: Some(context) })
}

fn error(kind: ErrorKind, offset: usize, context: Context) -> ParseError {
    ParseError { kind, offset, context: Some(context) }
}

fn float_of(value: &JsonValue) -> f64 {
    match value {
        JsonValue::Number(literal) => literal.parse::<f64>().unwrap(),
        other => panic!("no number: {:?}", other),
    }
}

#[test]
fn empty_array() {
    assert_eq!(parse_document("[]"), Ok((JsonValue::Array(vec![]), String::new())));
    assert_eq!(array(&characters("[]"), 0), Ok((vec![], 2)));
}

#[test]
fn empty_object() {
    assert_eq!(parse_document("{}"), Ok((JsonValue::Object(vec![]), String::new())));
    assert_eq!(object(&characters("{}"), 0), Ok((vec![], 2)));
}

#[test]
fn empty_aggregates_with_interior_whitespace() {
    assert_eq!(parse_document("[ ]"), Ok((JsonValue::Array(vec![]), String::new())));
    assert_eq!(parse_document("{ }"), Ok((JsonValue::Object(vec![]), String::new())));
    assert_eq!(parse_document("[ \t\r\n ]"), Ok((JsonValue::Array(vec![]), String::new())));
    assert_eq!(parse_document("{\n\n}"), Ok((JsonValue::Object(vec![]), String::new())));
}

#[test]
fn array_keeps_order_and_mixed_types() {
    assert_eq!(
        parse_document("[ false , 1 , \"two\" ]"),
        Ok((
            JsonValue::Array(vec![JsonValue::Boolean(false), number("1"), text("two")]),
            String::new()
        ))
    );
    assert_eq!(
        array(&characters("[1,1,[null,[]]]x"), 0),
        Ok((
            vec![
                number("1"),
                number("1"),
                JsonValue::Array(vec![JsonValue::Null, JsonValue::Array(vec![])])
            ],
            15
        ))
    );
}

#[test]
fn duplicate_keys_last_wins() {
    let (value, rest) = parse_document("{\"a\":1,\"a\":2}").unwrap();
    assert_eq!(rest, "");
    assert_eq!(value, JsonValue::Object(vec![("a".to_string(), number("2"))]));
    assert_eq!(float_of(value.get("a").unwrap()), 2.0);
}

#[test]
fn duplicate_key_keeps_its_place() {
    let (value, _) = parse_document("{\"a\":1,\"b\":2,\"a\":3}").unwrap();
    assert_eq!(
        value,
        JsonValue::Object(vec![("a".to_string(), number("3")), ("b".to_string(), number("2"))])
    );
    assert_eq!(value.get("a"), Some(&number("3")));
    assert_eq!(value.get("b"), Some(&number("2")));
    assert_eq!(value.get("c"), None);
}

#[test]
fn insert_member_sets_and_overwrites() {
    let mut members: Vec<(String, JsonValue)> = Vec::new();
    insert_member(&mut members, "x".to_string(), JsonValue::Null);
    insert_member(&mut members, "y".to_string(), JsonValue::Boolean(true));
    insert_member(&mut members, "x".to_string(), number("5"));
    assert_eq!(
        members,
        vec![("x".to_string(), number("5")), ("y".to_string(), JsonValue::Boolean(true))]
    );
}

#[test]
fn find_member_gives_the_first_index() {
    let members = vec![
        ("a".to_string(), JsonValue::Null),
        ("b".to_string(), JsonValue::Boolean(true)),
        ("a".to_string(), JsonValue::Boolean(false)),
    ];
    assert_eq!(find_member(&members, &"a".to_string()), Some(0));
    assert_eq!(find_member(&members, &"b".to_string()), Some(1));
    assert_eq!(find_member(&members, &"c".to_string()), None);
    assert_eq!(find_member(&Vec::new(), &"a".to_string()), None);
}

#[test]
fn get_on_other_values_is_none() {
    assert_eq!(JsonValue::Null.get("a"), None);
    assert_eq!(JsonValue::Array(vec![text("a")]).get("a"), None);
    assert_eq!(text("a").get("a"), None);
}

#[test]
fn clone_keeps_the_value() {
    let (value, _) = parse_document("{\"a\":[1,{\"b\":null}],\"c\":\"d\",\"e\":true}").unwrap();
    assert_eq!(value.clone(), value);
}

#[test]
fn key_value_parses_one_member() {
    assert_eq!(
        key_value(&characters("\"k\" : [1] ,"), 0),
        Ok((("k".to_string(), JsonValue::Array(vec![number("1")])), 9))
    );
    assert_eq!(
        key_value(&characters("k:1"), 0),
        Err(Failure::Recoverable(ParseError {
            kind: ErrorKind::UnexpectedToken,
            offset: 0,
            context: None
        }))
    );
}

#[test]
fn unterminated_array() {
    assert_eq!(
        parse_document("[1, 2"),
        Err(error(ErrorKind::UnterminatedArray, 5, Context::Array))
    );
    assert_eq!(
        json_value(&characters("[1, 2"), 0),
        Err(fatal(ErrorKind::UnterminatedArray, 5, Context::Array))
    );
    assert_eq!(parse_document("["), Err(error(ErrorKind::UnterminatedArray, 1, Context::Array)));
    assert_eq!(parse_document("[1,"), Err(error(ErrorKind::UnterminatedArray, 3, Context::Array)));
    assert_eq!(
        parse_document("[1, [2, 3]"),
        Err(error(ErrorKind::UnterminatedArray, 10, Context::Array))
    );
}

#[test]
fn unterminated_string_is_not_tried_as_another_value() {
    assert_eq!(
        parse_document("\"abc"),
        Err(error(ErrorKind::UnterminatedString, 4, Context::String))
    );
    assert_eq!(
        parse_document("[\"abc"),
        Err(error(ErrorKind::UnterminatedString, 5, Context::String))
    );
    assert_eq!(
        parse_document("{\"abc"),
        Err(error(ErrorKind::UnterminatedString, 5, Context::String))
    );
}

#[test]
fn unterminated_object() {
    assert_eq!(parse_document("{"), Err(error(ErrorKind::UnterminatedObject, 1, Context::Object)));
    assert_eq!(
        parse_document("{\"a\":1"),
        Err(error(ErrorKind::UnterminatedObject, 6, Context::Object))
    );
    assert_eq!(
        parse_document("{\"a\""),
        Err(error(ErrorKind::UnterminatedObject, 4, Context::Object))
    );
    assert_eq!(
        parse_document("{\"a\": "),
        Err(error(ErrorKind::UnterminatedObject, 6, Context::Object))
    );
    assert_eq!(
        parse_document("{\"a\":1, "),
        Err(error(ErrorKind::UnterminatedObject, 8, Context::Object))
    );
}

#[test]
fn missing_colon() {
    assert_eq!(
        parse_document("{\"a\" 1}"),
        Err(error(ErrorKind::MissingColon, 5, Context::Object))
    );
    assert_eq!(
        parse_document("{\"a\",\"b\"}"),
        Err(error(ErrorKind::MissingColon, 4, Context::Object))
    );
}

#[test]
fn missing_comma_or_closer() {
    assert_eq!(
        parse_document("[1 2]"),
        Err(error(ErrorKind::MissingCommaOrCloser, 3, Context::Array))
    );
    assert_eq!(
        parse_document("{\"a\":1 \"b\":2}"),
        Err(error(ErrorKind::MissingCommaOrCloser, 7, Context::Object))
    );
    assert_eq!(
        parse_document("[1}"),
        Err(error(ErrorKind::MissingCommaOrCloser, 2, Context::Array))
    );
}

#[test]
fn trailing_comma_is_refused() {
    assert_eq!(
        parse_document("[1,]"),
        Err(error(ErrorKind::UnexpectedToken, 3, Context::Array))
    );
    assert_eq!(
        parse_document("{\"a\":1,}"),
        Err(error(ErrorKind::UnexpectedToken, 7, Context::Object))
    );
    assert_eq!(parse_document("[,]"), Err(error(ErrorKind::UnexpectedToken, 1, Context::Array)));
}

#[test]
fn unexpected_token() {
    let nothing = ParseError { kind: ErrorKind::UnexpectedToken, offset: 0, context: None };
    assert_eq!(parse_document("x"), Err(nothing));
    assert_eq!(parse_document(""), Err(nothing));
    assert_eq!(
        parse_document("  ?"),
        Err(ParseError { kind: ErrorKind::UnexpectedToken, offset: 2, context: None })
    );
    assert_eq!(
        parse_document("[tru]"),
        Err(error(ErrorKind::UnexpectedToken, 1, Context::Array))
    );
    assert_eq!(
        parse_document("{\"a\": x}"),
        Err(error(ErrorKind::UnexpectedToken, 6, Context::Object))
    );
    assert_eq!(
        parse_document("{a:1}"),
        Err(error(ErrorKind::UnexpectedToken, 1, Context::Object))
    );
    assert_eq!(
        json_value(&characters("-"), 0),
        Err(Failure::Recoverable(nothing))
    );
}

#[test]
fn inner_failure_keeps_the_innermost_label() {
    assert_eq!(
        parse_document("[{\"a\":\"\\q\"}]"),
        Err(error(ErrorKind::InvalidEscape, 7, Context::String))
    );
    assert_eq!(
        parse_document("[{\"a\" 1}]"),
        Err(error(ErrorKind::MissingColon, 6, Context::Object))
    );
    assert_eq!(
        parse_document("{\"a\":[1 2]}"),
        Err(error(ErrorKind::MissingCommaOrCloser, 8, Context::Array))
    );
}

#[test]
fn failure_helpers() {
    let inner = ParseError { kind: ErrorKind::InvalidEscape, offset: 3, context: None };
    assert_eq!(Failure::Recoverable(inner).error(), inner);
    assert!(!Failure::Recoverable(inner).is_fatal());
    assert!(Failure::Fatal(inner).is_fatal());
    let committed = Failure::Recoverable(inner).commit(Context::String);
    assert_eq!(committed, fatal(ErrorKind::InvalidEscape, 3, Context::String));
    assert_eq!(committed.commit(Context::Array), committed);
    assert_eq!(inner.within(Context::Object).context, Some(Context::Object));
    assert_eq!(Context::String.label(), "string");
    assert_eq!(Context::Array.label(), "array");
    assert_eq!(Context::Object.label(), "object");
}

#[test]
fn document_allows_surrounding_whitespace() {
    assert_eq!(parse_document(" \n null \t"), Ok((JsonValue::Null, String::new())));
    assert_eq!(json(&characters("  true  x"), 0), Ok((JsonValue::Boolean(true), 8)));
}

#[test]
fn document_hands_back_what_is_left() {
    assert_eq!(parse_document("null x"), Ok((JsonValue::Null, "x".to_string())));
    assert_eq!(
        parse_document("[1] [2]"),
        Ok((JsonValue::Array(vec![number("1")]), "[2]".to_string()))
    );
    assert_eq!(parse_document("01"), Ok((number("0"), "1".to_string())));
    assert_eq!(parse_document("nullnull"), Ok((JsonValue::Null, "null".to_string())));
}

#[test]
fn parses_the_sample_document() {
    let input = r#"
  {
    "null" : null,
    "true"  :true ,
    "false":  false  ,
    "number" : 123e4 ,
    "string" : " abc 123 " ,
    "array" : [ false , 1 , "two" ] ,
    "object" : { "a" : 1.0 , "b" : "c" } ,
    "empty_array" : [  ] ,
    "empty_object" : {   }
  }
  "#;
    let (value, rest) = parse_document(input).unwrap();
    assert_eq!(rest, "");
    assert_eq!(
        value,
        JsonValue::Object(vec![
            ("null".to_string(), JsonValue::Null),
            ("true".to_string(), JsonValue::Boolean(true)),
            ("false".to_string(), JsonValue::Boolean(false)),
            ("number".to_string(), number("123e4")),
            ("string".to_string(), text(" abc 123 ")),
            (
                "array".to_string(),
                JsonValue::Array(vec![JsonValue::Boolean(false), number("1"), text("two")])
            ),
            (
                "object".to_string(),
                JsonValue::Object(vec![
                    ("a".to_string(), number("1.0")),
                    ("b".to_string(), text("c"))
                ])
            ),
            ("empty_array".to_string(), JsonValue::Array(vec![])),
            ("empty_object".to_string(), JsonValue::Object(vec![])),
        ])
    );
    assert_eq!(float_of(value.get("number").unwrap()), 1230000.0);
    match value.get("array").unwrap() {
        JsonValue::Array(items) => assert_eq!(float_of(&items[1]), 1.0),
        other => panic!("no array: {:?}", other),
    }
    assert_eq!(float_of(value.get("object").unwrap().get("a").unwrap()), 1.0);
}

#[test]
fn compact_sample_document() {
    let input = r#"{ "null":null, "true":true, "false":false, "number":123e4,
  "string":" abc 123 ", "array":[false,1,"two"],
  "object":{"a":1.0,"b":"c"}, "empty_array":[], "empty_object":{} }"#;
    let (value, rest) = parse_document(input).unwrap();
    assert_eq!(rest, "");
    match &value {
        JsonValue::Object(members) => assert_eq!(members.len(), 9),
        other => panic!("no object: {:?}", other),
    }
    assert_eq!(value.get("null"), Some(&JsonValue::Null));
    assert_eq!(value.get("true"), Some(&JsonValue::Boolean(true)));
    assert_eq!(value.get("false"), Some(&JsonValue::Boolean(false)));
    assert_eq!(float_of(value.get("number").unwrap()), 1230000.0);
    assert_eq!(value.get("string"), Some(&text(" abc 123 ")));
    assert_eq!(value.get("empty_array"), Some(&JsonValue::Array(vec![])));
    assert_eq!(value.get("empty_object"), Some(&JsonValue::Object(vec![])));
}

#[test]
fn deep_nesting() {
    let depth = 200;
    let input = format!("{}{}", "[".repeat(depth), "]".repeat(depth));
    let (mut value, rest) = parse_document(&input).unwrap();
    assert_eq!(rest, "");
    let mut seen = 0;
    while let JsonValue::Array(mut items) = value {
        seen += 1;
        if items.is_empty() {
            break;
        }
        assert_eq!(items.len(), 1);
        value = items.pop().unwrap();
    }
    assert_eq!(seen, depth);
}

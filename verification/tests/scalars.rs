use json_parser::scalar::{collect, is_char_at, peek, tag};
use json_parser::{
    boolean, characters, json_value, null, number, ws, ErrorKind, Failure, JsonValue, ParseError,
};

fn unexpected(offset: usize) -> Failure {
    Failure::Recoverable(ParseError { kind: ErrorKind::UnexpectedToken, offset, context: None })
}

fn float_of(value: &JsonValue) -> f64 {
    match value {
        JsonValue::Number(literal) => literal.parse::<f64>().unwrap(),
        other => panic!("no number: {:?}", other),
    }
}

fn parsed_number(input: &str) -> (f64, usize) {
    let text = characters(input);
    let (value, next) = json_value(&text, 0).unwrap();
    (float_of(&value), next)
}

#[test]
fn characters_keeps_every_character_in_order() {
    assert_eq!(characters("a\u{e9}\u{1F600}b"), vec!['a', '\u{e9}', '\u{1F600}', 'b']);
    assert_eq!(characters(""), Vec::<char>::new());
}

#[test]
fn collect_copies_the_range() {
    let text = characters("hello world");
    assert_eq!(collect(&text, 6, 11), "world");
    assert_eq!(collect(&text, 3, 3), "");
}

#[test]
fn peek_reads_without_moving() {
    let text = characters("ab");
    assert_eq!(peek(&text, 0), Some('a'));
    assert_eq!(peek(&text, 1), Some('b'));
    assert_eq!(peek(&text, 2), None);
    assert_eq!(peek(&text, 99), None);
    assert!(is_char_at(&text, 1, 'b'));
    assert!(!is_char_at(&text, 1, 'a'));
    assert!(!is_char_at(&text, 2, 'a'));
}

#[test]
fn tag_matches_only_the_whole_literal() {
    let text = characters("xtrue");
    assert!(tag(&text, 1, "true"));
    assert!(!tag(&text, 0, "true"));
    assert!(!tag(&text, 2, "true"));
    assert!(!tag(&text, 1, "truer"));
    assert!(tag(&text, 5, ""));
    assert!(!tag(&text, 6, ""));
}

#[test]
fn ws_skips_the_four_whitespace_characters() {
    let text = characters(" \t\r\nx ");
    assert_eq!(ws(&text, 0), 4);
    assert_eq!(ws(&text, 2), 4);
    assert_eq!(ws(&text, 4), 4);
    assert_eq!(ws(&text, 5), 6);
    assert_eq!(ws(&text, 6), 6);
}

#[test]
fn ws_leaves_other_blanks_alone() {
    let text = characters("\u{b}\u{c}\u{a0}");
    assert_eq!(ws(&text, 0), 0);
}

#[test]
fn null_takes_exactly_four_characters() {
    let text = characters("nullx");
    assert_eq!(null(&text, 0), Ok(4));
    assert_eq!(json_value(&text, 0), Ok((JsonValue::Null, 4)));
}

#[test]
fn null_fails_recoverably_elsewhere() {
    let text = characters("nul");
    assert_eq!(null(&text, 0), Err(unexpected(0)));
    let text = characters(" null");
    assert_eq!(null(&text, 0), Err(unexpected(0)));
    assert_eq!(null(&text, 1), Ok(5));
    let text = characters("Null");
    assert_eq!(null(&text, 0), Err(unexpected(0)));
}

#[test]
fn booleans_take_exactly_their_literal() {
    let text = characters("true,");
    assert_eq!(boolean(&text, 0), Ok((true, 4)));
    assert_eq!(json_value(&text, 0), Ok((JsonValue::Boolean(true), 4)));
    let text = characters("falsetto");
    assert_eq!(boolean(&text, 0), Ok((false, 5)));
    assert_eq!(json_value(&text, 0), Ok((JsonValue::Boolean(false), 5)));
}

#[test]
fn boolean_fails_recoverably_elsewhere() {
    let text = characters("tru");
    assert_eq!(boolean(&text, 0), Err(unexpected(0)));
    let text = characters("fals");
    assert_eq!(boolean(&text, 0), Err(unexpected(0)));
    assert_eq!(boolean(&text, 4), Err(unexpected(4)));
}

#[test]
fn number_with_exponent() {
    assert_eq!(parsed_number("123e4"), (1230000.0, 5));
}

#[test]
fn number_with_fraction() {
    assert_eq!(parsed_number("1.0"), (1.0, 3));
}

#[test]
fn number_negative_zero() {
    let (value, next) = parsed_number("-0");
    assert_eq!(value, 0.0);
    assert!(value.is_sign_negative());
    assert_eq!(next, 2);
}

#[test]
fn number_keeps_its_literal() {
    let text = characters("-12.50E-3,");
    assert_eq!(number(&text, 0), Ok(("-12.50E-3".to_string(), 9)));
    let text = characters("7");
    assert_eq!(number(&text, 0), Ok(("7".to_string(), 1)));
    let text = characters("x1e+2");
    assert_eq!(number(&text, 1), Ok(("1e+2".to_string(), 5)));
}

#[test]
fn number_stops_where_the_literal_ends() {
    let text = characters("01");
    assert_eq!(number(&text, 0), Ok(("0".to_string(), 1)));
    let text = characters("1.");
    assert_eq!(number(&text, 0), Ok(("1".to_string(), 1)));
    let text = characters("1.e5");
    assert_eq!(number(&text, 0), Ok(("1".to_string(), 1)));
    let text = characters("1e");
    assert_eq!(number(&text, 0), Ok(("1".to_string(), 1)));
    let text = characters("1e+");
    assert_eq!(number(&text, 0), Ok(("1".to_string(), 1)));
    let text = characters("1.5e3.2");
    assert_eq!(number(&text, 0), Ok(("1.5e3".to_string(), 5)));
    let text = characters("12abc");
    assert_eq!(number(&text, 0), Ok(("12".to_string(), 2)));
}

#[test]
fn number_rejects_what_is_no_number() {
    for input in ["", "-", "-x", "+1", ".5", "e5", "inf", "nan", "x"] {
        let text = characters(input);
        assert_eq!(
            number(&text, 0),
            Err(Failure::Recoverable(ParseError {
                kind: ErrorKind::InvalidNumberLiteral,
                offset: 0,
                context: None,
            })),
            "{:?}",
            input
        );
    }
}

#[test]
fn large_numbers_saturate_when_converted() {
    let (value, next) = parsed_number("1e999");
    assert!(value.is_infinite());
    assert_eq!(next, 5);
}

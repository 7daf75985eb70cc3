use json_parser::{
    character, characters, json_value, string, u16_hex, unicode_escape, Context, ErrorKind,
    Failure, JsonValue, ParseError,
};

fn recoverable(kind: ErrorKind, offset: usize) -> Failure {
    Failure::Recoverable(ParseError { kind, offset, context: None })
}

fn fatal(kind: ErrorKind, offset: usize) -> Failure {
    Failure::Fatal(ParseError { kind, offset, context: Some(Context::String) })
}

fn decoded(input: &str) -> Result<(String, usize), Failure> {
    string(&characters(input), 0)
}

#[test]
fn plain_string() {
    assert_eq!(decoded("\" abc 123 \""), Ok((" abc 123 ".to_string(), 11)));
    assert_eq!(decoded("\"\""), Ok((String::new(), 2)));
}

#[test]
fn string_stops_at_the_closing_quote() {
    assert_eq!(decoded("\"ab\"cd\""), Ok(("ab".to_string(), 4)));
}

#[test]
fn newline_escape_decodes_to_line_feed() {
    assert_eq!(decoded("\"a\\nb\""), Ok(("a\nb".to_string(), 6)));
    let (s, _) = decoded("\"a\\nb\"").unwrap();
    assert_eq!(s.chars().collect::<Vec<char>>(), vec!['a', '\u{a}', 'b']);
}

#[test]
fn each_short_escape_decodes_to_one_character() {
    let (s, next) = decoded("\"\\\"\\\\\\/\\b\\f\\n\\r\\t\"").unwrap();
    assert_eq!(
        s.chars().collect::<Vec<char>>(),
        vec!['"', '\\', '/', '\u{8}', '\u{c}', '\u{a}', '\u{d}', '\u{9}']
    );
    assert_eq!(next, 18);
}

#[test]
fn short_escapes_one_by_one() {
    let table = [
        ('"', '"'),
        ('\\', '\\'),
        ('/', '/'),
        ('b', '\u{8}'),
        ('f', '\u{c}'),
        ('n', '\n'),
        ('r', '\r'),
        ('t', '\t'),
    ];
    for (letter, value) in table {
        let text = vec!['\\', letter, 'x'];
        assert_eq!(character(&text, 0), Ok((value, 2)));
    }
}

#[test]
fn raw_characters_stand_for_themselves() {
    assert_eq!(decoded("\"a\nb\tc\""), Ok(("a\nb\tc".to_string(), 7)));
    assert_eq!(decoded("\"\u{e9}\u{1F600}\""), Ok(("\u{e9}\u{1F600}".to_string(), 4)));
    let text = characters("x");
    assert_eq!(character(&text, 0), Ok(('x', 1)));
}

#[test]
fn character_refuses_the_quote_and_the_end() {
    let text = characters("\"");
    assert_eq!(character(&text, 0), Err(recoverable(ErrorKind::UnexpectedToken, 0)));
    assert_eq!(character(&text, 1), Err(recoverable(ErrorKind::UnexpectedToken, 1)));
}

#[test]
fn u16_hex_reads_four_digits_of_either_case() {
    assert_eq!(u16_hex(&characters("0041"), 0), Ok((0x41, 4)));
    assert_eq!(u16_hex(&characters("ffff"), 0), Ok((0xFFFF, 4)));
    assert_eq!(u16_hex(&characters("AbCd"), 0), Ok((0xABCD, 4)));
    assert_eq!(u16_hex(&characters("xx12345"), 2), Ok((0x1234, 6)));
    assert_eq!(u16_hex(&characters("0000"), 0), Ok((0, 4)));
}

#[test]
fn u16_hex_rejects_anything_else() {
    for input in ["", "123", "12g4", "+123", "-123", " 123", "12 4"] {
        assert_eq!(
            u16_hex(&characters(input), 0),
            Err(recoverable(ErrorKind::InvalidUnicodeEscape, 0)),
            "{:?}",
            input
        );
    }
}

#[test]
fn unicode_escape_of_a_scalar_value() {
    assert_eq!(unicode_escape(&characters("0041"), 0), Ok(('A', 4)));
    assert_eq!(unicode_escape(&characters("00e9"), 0), Ok(('\u{e9}', 4)));
    assert_eq!(unicode_escape(&characters("D7FF"), 0), Ok(('\u{D7FF}', 4)));
    assert_eq!(unicode_escape(&characters("E000"), 0), Ok(('\u{E000}', 4)));
    assert_eq!(unicode_escape(&characters("FFFF"), 0), Ok(('\u{FFFF}', 4)));
    assert_eq!(decoded("\"\\u0041\\u00e9\""), Ok(("A\u{e9}".to_string(), 14)));
}

#[test]
fn surrogate_pair_decodes_to_one_scalar() {
    assert_eq!(decoded("\"\\uD83D\\uDE00\""), Ok(("\u{1F600}".to_string(), 14)));
    assert_eq!(unicode_escape(&characters("D83D\\uDE00"), 0), Ok(('\u{1F600}', 10)));
}

#[test]
fn surrogate_pair_follows_the_formula() {
    let pairs = [(0xD800u32, 0xDC00u32), (0xDBFF, 0xDFFF), (0xD83D, 0xDE00), (0xD800, 0xDFFF)];
    for (high, low) in pairs {
        let input = format!("{:04X}\\u{:04x}", high, low);
        let expected = char::from_u32(((high - 0xD800) << 10) + (low - 0xDC00) + 0x10000).unwrap();
        assert_eq!(unicode_escape(&characters(&input), 0), Ok((expected, 10)));
    }
    assert_eq!(unicode_escape(&characters("D800\\uDC00"), 0), Ok(('\u{10000}', 10)));
    assert_eq!(unicode_escape(&characters("DBFF\\uDFFF"), 0), Ok(('\u{10FFFF}', 10)));
}

#[test]
fn lone_high_surrogate_is_invalid() {
    assert_eq!(decoded("\"\\uD800\""), Err(fatal(ErrorKind::InvalidUnicodeEscape, 1)));
    assert_eq!(decoded("\"ab\\uD800x\""), Err(fatal(ErrorKind::InvalidUnicodeEscape, 3)));
    assert_eq!(decoded("\"\\uD800"), Err(fatal(ErrorKind::InvalidUnicodeEscape, 1)));
    assert_eq!(
        json_value(&characters("\"\\uD800\""), 0),
        Err(fatal(ErrorKind::InvalidUnicodeEscape, 1))
    );
}

#[test]
fn high_surrogate_needs_a_low_surrogate() {
    assert_eq!(decoded("\"\\uD800\\u0041\""), Err(fatal(ErrorKind::InvalidUnicodeEscape, 1)));
    assert_eq!(decoded("\"\\uD800\\uD800\""), Err(fatal(ErrorKind::InvalidUnicodeEscape, 1)));
    assert_eq!(decoded("\"\\uD800\\n\""), Err(fatal(ErrorKind::InvalidUnicodeEscape, 1)));
    assert_eq!(decoded("\"\\uD800 \\uDC00\""), Err(fatal(ErrorKind::InvalidUnicodeEscape, 1)));
}

#[test]
fn lone_low_surrogate_is_invalid() {
    assert_eq!(decoded("\"\\uDC00\""), Err(fatal(ErrorKind::InvalidUnicodeEscape, 1)));
    assert_eq!(decoded("\"\\uDFFF\\uD800\""), Err(fatal(ErrorKind::InvalidUnicodeEscape, 1)));
    assert_eq!(
        unicode_escape(&characters("DC00"), 0),
        Err(recoverable(ErrorKind::InvalidUnicodeEscape, 0))
    );
}

#[test]
fn malformed_hex_is_invalid() {
    assert_eq!(decoded("\"\\u12\""), Err(fatal(ErrorKind::InvalidUnicodeEscape, 1)));
    assert_eq!(decoded("\"\\u12G4\""), Err(fatal(ErrorKind::InvalidUnicodeEscape, 1)));
    assert_eq!(decoded("\"\\u+123\""), Err(fatal(ErrorKind::InvalidUnicodeEscape, 1)));
    assert_eq!(decoded("\"\\u"), Err(fatal(ErrorKind::InvalidUnicodeEscape, 1)));
}

#[test]
fn unknown_escape_is_invalid() {
    assert_eq!(decoded("\"a\\qb\""), Err(fatal(ErrorKind::InvalidEscape, 2)));
    assert_eq!(decoded("\"\\U0041\""), Err(fatal(ErrorKind::InvalidEscape, 1)));
    assert_eq!(decoded("\"abc\\"), Err(fatal(ErrorKind::InvalidEscape, 4)));
    let text = characters("\\q");
    assert_eq!(character(&text, 0), Err(recoverable(ErrorKind::InvalidEscape, 0)));
}

#[test]
fn unterminated_string() {
    assert_eq!(decoded("\"abc"), Err(fatal(ErrorKind::UnterminatedString, 4)));
    assert_eq!(decoded("\""), Err(fatal(ErrorKind::UnterminatedString, 1)));
    assert_eq!(decoded("\"abc\\\""), Err(fatal(ErrorKind::UnterminatedString, 6)));
    assert_eq!(
        json_value(&characters("\"abc"), 0),
        Err(fatal(ErrorKind::UnterminatedString, 4))
    );
}

#[test]
fn string_without_opening_quote_is_recoverable() {
    assert_eq!(decoded("abc\""), Err(recoverable(ErrorKind::UnexpectedToken, 0)));
    assert_eq!(decoded(""), Err(recoverable(ErrorKind::UnexpectedToken, 0)));
    assert_eq!(string(&characters("abc"), 7), Err(recoverable(ErrorKind::UnexpectedToken, 7)));
}

#[test]
fn string_value() {
    assert_eq!(
        json_value(&characters("\"two\" "), 0),
        Ok((JsonValue::String("two".to_string()), 5))
    );
}

//! The grammar, as functions of a text and an offset into it.
//!
//! Each production yields either its value with the offset that follows it, or
//! the failure with which it stops. These functions are the definition that
//! the executable parser is proved against.

use crate::error::{fatal, recoverable, Context, ErrorKind, Failure};
use crate::value::{with_member, Json};
use vstd::prelude::*;

verus! {

/// The character at offset `pos`, or `None` where the text has ended.
pub open spec fn at(text: Seq<char>, pos: int) -> Option<char> {
    if 0 <= pos < text.len() {
        Some(text[pos])
    } else {
        None
    }
}

/// The characters that may stand between tokens: space, tab, carriage return
/// and line feed.
pub open spec fn is_ws(c: char) -> bool {
    c == ' ' || c == '\t' || c == '\r' || c == '\n'
}

/// The offset of the first character at or after `pos` that is no whitespace.
pub open spec fn spec_ws(text: Seq<char>, pos: int) -> int
    decreases text.len() - pos,
{
    if at(text, pos) matches Some(c) && is_ws(c) {
        spec_ws(text, pos + 1)
    } else {
        pos
    }
}

/// `literal` stands in `text` at offset `pos`. `lemma_starts_with` says what
/// that means character by character.
#[verifier::opaque]
pub open spec fn starts_with(text: Seq<char>, pos: int, literal: Seq<char>) -> bool {
    0 <= pos && pos + literal.len() <= text.len() && text.subrange(pos, pos + literal.len())
        == literal
}

/// The characters of `null`.
pub open spec fn null_literal() -> Seq<char> {
    seq!['n', 'u', 'l', 'l']
}

/// The characters of `true`.
pub open spec fn true_literal() -> Seq<char> {
    seq!['t', 'r', 'u', 'e']
}

/// The characters of `false`.
pub open spec fn false_literal() -> Seq<char> {
    seq!['f', 'a', 'l', 's', 'e']
}

/// The literal `null`.
pub open spec fn spec_null(text: Seq<char>, pos: int) -> Result<int, Failure> {
    if starts_with(text, pos, null_literal()) {
        Ok(pos + 4)
    } else {
        Err(recoverable(ErrorKind::UnexpectedToken, pos))
    }
}

/// The literals `true` and `false`.
pub open spec fn spec_boolean(text: Seq<char>, pos: int) -> Result<(bool, int), Failure> {
    if starts_with(text, pos, true_literal()) {
        Ok((true, pos + 4))
    } else if starts_with(text, pos, false_literal()) {
        Ok((false, pos + 5))
    } else {
        Err(recoverable(ErrorKind::UnexpectedToken, pos))
    }
}

/// The decimal digits.
pub open spec fn is_digit(c: char) -> bool {
    '0' <= c && c <= '9'
}

/// A decimal digit stands at offset `pos`.
pub open spec fn digit_at(text: Seq<char>, pos: int) -> bool {
    at(text, pos) matches Some(c) && is_digit(c)
}

/// The offset of the first character at or after `pos` that is no digit.
pub open spec fn digits_end(text: Seq<char>, pos: int) -> int
    decreases text.len() - pos,
{
    if digit_at(text, pos) {
        digits_end(text, pos + 1)
    } else {
        pos
    }
}

/// The end of the integer part that starts at `pos`: a single `0`, or a
/// digit from 1 to 9 and the digits that follow it.
pub open spec fn integer_end(text: Seq<char>, pos: int) -> Option<int> {
    if at(text, pos) == Some('0') {
        Some(pos + 1)
    } else if digit_at(text, pos) {
        Some(digits_end(text, pos + 1))
    } else {
        None
    }
}

/// The end of the fraction that starts at `pos`: a point and at least one
/// digit. Where none stands there, `pos` itself.
pub open spec fn fraction_end(text: Seq<char>, pos: int) -> int {
    if at(text, pos) == Some('.') && digit_at(text, pos + 1) {
        digits_end(text, pos + 2)
    } else {
        pos
    }
}

/// The end of the exponent that starts at `pos`: `e` or `E`, an optional
/// sign, and at least one digit. Where none stands there, `pos` itself.
pub open spec fn exponent_end(text: Seq<char>, pos: int) -> int {
    if at(text, pos) == Some('e') || at(text, pos) == Some('E') {
        let digits = if at(text, pos + 1) == Some('+') || at(text, pos + 1) == Some('-') {
            pos + 2
        } else {
            pos + 1
        };
        if digit_at(text, digits) {
            digits_end(text, digits + 1)
        } else {
            pos
        }
    } else {
        pos
    }
}

/// The end of the longest number literal that starts at `pos`: an optional
/// minus sign, an integer part, an optional fraction, an optional exponent.
pub open spec fn number_end(text: Seq<char>, pos: int) -> Option<int> {
    let start = if at(text, pos) == Some('-') {
        pos + 1
    } else {
        pos
    };
    match integer_end(text, start) {
        Some(end) => Some(exponent_end(text, fraction_end(text, end))),
        None => None,
    }
}

/// `literal` is a number literal from its first character to its last.
pub open spec fn is_number_literal(literal: Seq<char>) -> bool {
    number_end(literal, 0) == Some(literal.len() as int)
}

/// A number: the characters of its literal.
pub open spec fn spec_number(text: Seq<char>, pos: int) -> Result<(Seq<char>, int), Failure> {
    match number_end(text, pos) {
        Some(end) => Ok((text.subrange(pos, end), end)),
        None => Err(recoverable(ErrorKind::InvalidNumberLiteral, pos)),
    }
}

/// The value of a hexadecimal digit.
pub open spec fn hex_value(c: char) -> Option<int> {
    if '0' <= c && c <= '9' {
        Some(c as int - '0' as int)
    } else if 'a' <= c && c <= 'f' {
        Some(c as int - 'a' as int + 10)
    } else if 'A' <= c && c <= 'F' {
        Some(c as int - 'A' as int + 10)
    } else {
        None
    }
}

/// The value of the hexadecimal digit at offset `pos`.
pub open spec fn hex_at(text: Seq<char>, pos: int) -> Option<int> {
    match at(text, pos) {
        Some(c) => hex_value(c),
        None => None,
    }
}

/// The UTF-16 code unit that the four hexadecimal digits at `pos` spell.
pub open spec fn spec_u16_hex(text: Seq<char>, pos: int) -> Result<(u16, int), Failure> {
    match (hex_at(text, pos), hex_at(text, pos + 1), hex_at(text, pos + 2), hex_at(text, pos + 3)) {
        (Some(a), Some(b), Some(c), Some(d)) => Ok(
            ((((a * 16 + b) * 16 + c) * 16 + d) as u16, pos + 4),
        ),
        _ => Err(recoverable(ErrorKind::InvalidUnicodeEscape, pos)),
    }
}

/// The code units that begin a surrogate pair.
pub open spec fn is_high_surrogate(unit: u16) -> bool {
    0xD800 <= unit < 0xDC00
}

/// The code units that end a surrogate pair.
pub open spec fn is_low_surrogate(unit: u16) -> bool {
    0xDC00 <= unit < 0xE000
}

/// The scalar value that a high and a low surrogate spell together.
pub open spec fn combine_surrogates(high: u16, low: u16) -> u32 {
    ((((high - 0xD800) as u32) << 10) + (low - 0xDC00) + 0x10000) as u32
}

/// What follows `\u`: four hexadecimal digits that spell a scalar value, or a
/// high surrogate, `\u` and a low surrogate.
pub open spec fn spec_unicode_escape(text: Seq<char>, pos: int) -> Result<(char, int), Failure> {
    match spec_u16_hex(text, pos) {
        Ok((unit, next)) => if !is_high_surrogate(unit) && !is_low_surrogate(unit) {
            Ok((unit as char, next))
        } else if is_high_surrogate(unit) && at(text, pos + 4) == Some('\\') && at(text, pos + 5)
            == Some('u') {
            match spec_u16_hex(text, pos + 6) {
                Ok((low, end)) => if is_low_surrogate(low) {
                    Ok((combine_surrogates(unit, low) as char, end))
                } else {
                    Err(recoverable(ErrorKind::InvalidUnicodeEscape, pos))
                },
                Err(_) => Err(recoverable(ErrorKind::InvalidUnicodeEscape, pos)),
            }
        } else {
            Err(recoverable(ErrorKind::InvalidUnicodeEscape, pos))
        },
        Err(e) => Err(e),
    }
}

/// The character that a one-letter escape stands for.
pub open spec fn short_escape(c: char) -> Option<char> {
    if c == '"' || c == '\\' || c == '/' {
        Some(c)
    } else if c == 'b' {
        Some('\u{8}')
    } else if c == 'f' {
        Some('\u{c}')
    } else if c == 'n' {
        Some('\n')
    } else if c == 'r' {
        Some('\r')
    } else if c == 't' {
        Some('\t')
    } else {
        None
    }
}

/// One character of a string's body: any character but the quote, where a
/// backslash begins an escape. A failure of an escape is reported at its
/// backslash.
pub open spec fn spec_character(text: Seq<char>, pos: int) -> Result<(char, int), Failure> {
    match at(text, pos) {
        Some(c) => if c == '"' {
            Err(recoverable(ErrorKind::UnexpectedToken, pos))
        } else if c != '\\' {
            Ok((c, pos + 1))
        } else {
            match at(text, pos + 1) {
                Some(e) => if e == 'u' {
                    match spec_unicode_escape(text, pos + 2) {
                        Ok(decoded) => Ok(decoded),
                        Err(_) => Err(recoverable(ErrorKind::InvalidUnicodeEscape, pos)),
                    }
                } else {
                    match short_escape(e) {
                        Some(d) => Ok((d, pos + 2)),
                        None => Err(recoverable(ErrorKind::InvalidEscape, pos)),
                    }
                },
                None => Err(recoverable(ErrorKind::InvalidEscape, pos)),
            }
        },
        None => Err(recoverable(ErrorKind::UnexpectedToken, pos)),
    }
}

/// The rest of a string whose opening quote has been consumed, `decoded`
/// being what its body gave so far.
pub open spec fn spec_string_body(text: Seq<char>, pos: int, decoded: Seq<char>) -> Result<
    (Seq<char>, int),
    Failure,
>
    decreases text.len() - pos,
{
    match at(text, pos) {
        Some(c) => if c == '"' {
            Ok((decoded, pos + 1))
        } else {
            match spec_character(text, pos) {
                Ok((d, next)) => {
                    proof {
                        lemma_character_bounds(text, pos);
                    }
                    spec_string_body(text, next, decoded.push(d))
                },
                Err(f) => Err(f.spec_commit(Context::String)),
            }
        },
        None => Err(fatal(ErrorKind::UnterminatedString, pos, Some(Context::String))),
    }
}

/// A string: a quote, the body, a quote. Without the opening quote the
/// failure is recoverable; after it every failure is fatal.
pub open spec fn spec_string(text: Seq<char>, pos: int) -> Result<(Seq<char>, int), Failure> {
    if at(text, pos) == Some('"') {
        spec_string_body(text, pos + 1, Seq::empty())
    } else {
        Err(recoverable(ErrorKind::UnexpectedToken, pos))
    }
}

/// The kind that reports the end of the text inside `context`.
pub open spec fn unterminated(context: Context) -> ErrorKind {
    match context {
        Context::String => ErrorKind::UnterminatedString,
        Context::Array => ErrorKind::UnterminatedArray,
        Context::Object => ErrorKind::UnterminatedObject,
    }
}

/// The fatal failure for a token of `context` that does not stand at `pos`:
/// the construct is unterminated where the text has ended, and `otherwise`
/// where another character stands there.
pub open spec fn expected(
    text: Seq<char>,
    pos: int,
    context: Context,
    otherwise: ErrorKind,
) -> Failure {
    if at(text, pos) is None {
        fatal(unterminated(context), pos, Some(context))
    } else {
        fatal(otherwise, pos, Some(context))
    }
}

/// The dispatcher: the first of `null`, a boolean, a string, a number, an
/// array and an object that stands at `pos`. A fatal failure of an
/// alternative ends the parse; where every alternative fails recoverably,
/// no value starts at `pos`.
pub open spec fn spec_json_value(text: Seq<char>, pos: int) -> Result<(Json, int), Failure>
    decreases text.len() - pos, 2int,
{
    if let Ok(next) = spec_null(text, pos) {
        Ok((Json::Null, next))
    } else if let Ok((b, next)) = spec_boolean(text, pos) {
        Ok((Json::Boolean(b), next))
    } else {
        match spec_string(text, pos) {
            Ok((s, next)) => Ok((Json::String(s), next)),
            Err(Failure::Fatal(e)) => Err(Failure::Fatal(e)),
            Err(Failure::Recoverable(_)) => match spec_number(text, pos) {
                Ok((literal, next)) => Ok((Json::Number(literal), next)),
                Err(_) => match spec_array(text, pos) {
                    Ok((items, next)) => Ok((Json::Array(items), next)),
                    Err(Failure::Fatal(e)) => Err(Failure::Fatal(e)),
                    Err(Failure::Recoverable(_)) => match spec_object(text, pos) {
                        Ok((members, next)) => Ok((Json::Object(members), next)),
                        Err(Failure::Fatal(e)) => Err(Failure::Fatal(e)),
                        Err(Failure::Recoverable(_)) => Err(
                            recoverable(ErrorKind::UnexpectedToken, pos),
                        ),
                    },
                },
            },
        }
    }
}

/// An array: `[`, elements separated by commas, `]`, with whitespace allowed
/// around every token. Without the opening bracket the failure is
/// recoverable; after it every failure is fatal.
pub open spec fn spec_array(text: Seq<char>, pos: int) -> Result<(Seq<Json>, int), Failure>
    decreases text.len() - pos, 1int,
{
    if at(text, pos) == Some('[') {
        let first = spec_ws(text, pos + 1);
        proof {
            lemma_ws_bounds(text, pos + 1);
        }
        if at(text, first) == Some(']') {
            Ok((Seq::empty(), first + 1))
        } else {
            spec_elements(text, first, Seq::empty())
        }
    } else {
        Err(recoverable(ErrorKind::UnexpectedToken, pos))
    }
}

/// The elements of an array from the one that is due at `pos`, up to and
/// with the closing bracket, `items` being the elements before it.
///
/// An element never ends where it began (`lemma_value_bounds`): the test on
/// its end only shows that the recursion ends.
pub open spec fn spec_elements(text: Seq<char>, pos: int, items: Seq<Json>) -> Result<
    (Seq<Json>, int),
    Failure,
>
    decreases text.len() - pos, 3int,
{
    match spec_json_value(text, pos) {
        Ok((item, end)) => {
            let after = spec_ws(text, end);
            proof {
                lemma_ws_bounds(text, end);
                lemma_ws_bounds(text, after + 1);
            }
            if at(text, after) == Some(']') {
                Ok((items.push(item), after + 1))
            } else if at(text, after) == Some(',') && pos < end {
                spec_elements(text, spec_ws(text, after + 1), items.push(item))
            } else {
                Err(expected(text, after, Context::Array, ErrorKind::MissingCommaOrCloser))
            }
        },
        Err(Failure::Fatal(e)) => Err(Failure::Fatal(e)),
        Err(Failure::Recoverable(_)) => Err(
            expected(text, pos, Context::Array, ErrorKind::UnexpectedToken),
        ),
    }
}

/// A member of an object: a string, a colon, a value, with whitespace allowed
/// around the colon. Without the key's opening quote the failure is
/// recoverable; after it every failure is fatal.
pub open spec fn spec_key_value(text: Seq<char>, pos: int) -> Result<
    ((Seq<char>, Json), int),
    Failure,
>
    decreases text.len() - pos, 3int,
{
    match spec_string(text, pos) {
        Ok((key, end)) => {
            let colon = spec_ws(text, end);
            if at(text, colon) == Some(':') {
                let start = spec_ws(text, colon + 1);
                proof {
                    lemma_string_bounds(text, pos);
                    lemma_ws_bounds(text, end);
                    lemma_ws_bounds(text, colon + 1);
                }
                match spec_json_value(text, start) {
                    Ok((value, next)) => Ok(((key, value), next)),
                    Err(Failure::Fatal(e)) => Err(Failure::Fatal(e)),
                    Err(Failure::Recoverable(_)) => Err(
                        expected(text, start, Context::Object, ErrorKind::UnexpectedToken),
                    ),
                }
            } else {
                Err(expected(text, colon, Context::Object, ErrorKind::MissingColon))
            }
        },
        Err(f) => Err(f),
    }
}

/// An object: `{`, members separated by commas, `}`, with whitespace allowed
/// around every token. Without the opening brace the failure is recoverable;
/// after it every failure is fatal.
pub open spec fn spec_object(text: Seq<char>, pos: int) -> Result<
    (Seq<(Seq<char>, Json)>, int),
    Failure,
>
    decreases text.len() - pos, 1int,
{
    if at(text, pos) == Some('{') {
        let first = spec_ws(text, pos + 1);
        proof {
            lemma_ws_bounds(text, pos + 1);
        }
        if at(text, first) == Some('}') {
            Ok((Seq::empty(), first + 1))
        } else {
            spec_members(text, first, Seq::empty())
        }
    } else {
        Err(recoverable(ErrorKind::UnexpectedToken, pos))
    }
}

/// The members of an object from the one that is due at `pos`, up to and
/// with the closing brace, `members` being what the members before it gave.
/// A key that occurred before takes the new value.
///
/// A member never ends where it began (`lemma_key_value_bounds`): the test
/// on its end only shows that the recursion ends.
pub open spec fn spec_members(text: Seq<char>, pos: int, members: Seq<(Seq<char>, Json)>) -> Result<
    (Seq<(Seq<char>, Json)>, int),
    Failure,
>
    decreases text.len() - pos, 4int,
{
    match spec_key_value(text, pos) {
        Ok(((key, value), end)) => {
            let after = spec_ws(text, end);
            proof {
                lemma_ws_bounds(text, end);
                lemma_ws_bounds(text, after + 1);
            }
            if at(text, after) == Some('}') {
                Ok((with_member(members, key, value), after + 1))
            } else if at(text, after) == Some(',') && pos < end {
                spec_members(text, spec_ws(text, after + 1), with_member(members, key, value))
            } else {
                Err(expected(text, after, Context::Object, ErrorKind::MissingCommaOrCloser))
            }
        },
        Err(Failure::Fatal(e)) => Err(Failure::Fatal(e)),
        Err(Failure::Recoverable(_)) => Err(
            expected(text, pos, Context::Object, ErrorKind::UnexpectedToken),
        ),
    }
}

/// A document: a value with whitespace allowed before and after it. What
/// follows the trailing whitespace is left unread.
pub open spec fn spec_json(text: Seq<char>, pos: int) -> Result<(Json, int), Failure> {
    match spec_json_value(text, spec_ws(text, pos)) {
        Ok((value, end)) => Ok((value, spec_ws(text, end))),
        Err(f) => Err(f),
    }
}

/// A literal that stands at `pos` lies within the text, and begins with the
/// character at `pos`.
pub proof fn lemma_starts_with(text: Seq<char>, pos: int, literal: Seq<char>)
    requires
        starts_with(text, pos, literal),
    ensures
        0 <= pos,
        pos + literal.len() <= text.len(),
        forall|i: int| 0 <= i < literal.len() ==> text[pos + i] == #[trigger] literal[i],
{
    reveal(starts_with);
    assert forall|i: int| 0 <= i < literal.len() implies text[pos + i] == #[trigger] literal[i] by {
        assert(text.subrange(pos, pos + literal.len())[i] == text[pos + i]);
    }
}

/// Skipping whitespace moves forward, stays within the text, passes over
/// whitespace only and stops before the first character that is none.
pub proof fn lemma_ws_bounds(text: Seq<char>, pos: int)
    ensures
        pos <= spec_ws(text, pos),
        pos <= text.len() ==> spec_ws(text, pos) <= text.len(),
        forall|i: int|
            pos <= i < spec_ws(text, pos) ==> 0 <= i < text.len() && is_ws(#[trigger] text[i]),
        !(at(text, spec_ws(text, pos)) matches Some(c) && is_ws(c)),
    decreases text.len() - pos,
{
    if at(text, pos) matches Some(c) && is_ws(c) {
        lemma_ws_bounds(text, pos + 1);
    }
}

/// A run of digits moves forward, stays within the text, passes over digits
/// only and stops before the first character that is none.
pub proof fn lemma_digits_bounds(text: Seq<char>, pos: int)
    ensures
        pos <= digits_end(text, pos),
        pos <= text.len() ==> digits_end(text, pos) <= text.len(),
        forall|i: int| pos <= i < digits_end(text, pos) ==> digit_at(text, i),
        !digit_at(text, digits_end(text, pos)),
    decreases text.len() - pos,
{
    if digit_at(text, pos) {
        lemma_digits_bounds(text, pos + 1);
    }
}

/// A character of a string's body takes at least one character of the text.
pub proof fn lemma_character_bounds(text: Seq<char>, pos: int)
    ensures
        spec_character(text, pos) matches Ok((_, next)) ==> pos < next <= text.len(),
{
}

/// A string's body ends within the text, after the offset at which it began.
pub proof fn lemma_string_body_bounds(text: Seq<char>, pos: int, decoded: Seq<char>)
    ensures
        spec_string_body(text, pos, decoded) matches Ok((_, next)) ==> pos < next <= text.len(),
    decreases text.len() - pos,
{
    if let Some(c) = at(text, pos) {
        if c != '"' {
            if let Ok((d, next)) = spec_character(text, pos) {
                lemma_string_body_bounds(text, next, decoded.push(d));
            }
        }
    }
}

/// A string takes at least its two quotes.
pub proof fn lemma_string_bounds(text: Seq<char>, pos: int)
    ensures
        spec_string(text, pos) matches Ok((_, next)) ==> pos + 2 <= next <= text.len(),
{
    lemma_string_body_bounds(text, pos + 1, Seq::empty());
}

/// A number literal is not empty and ends within the text.
pub proof fn lemma_number_bounds(text: Seq<char>, pos: int)
    ensures
        number_end(text, pos) matches Some(end) ==> pos < end <= text.len(),
{
    let start = if at(text, pos) == Some('-') {
        pos + 1
    } else {
        pos
    };
    if let Some(end) = integer_end(text, start) {
        lemma_digits_bounds(text, start + 1);
        let fraction = fraction_end(text, end);
        lemma_digits_bounds(text, end + 2);
        lemma_digits_bounds(text, fraction + 2);
        lemma_digits_bounds(text, fraction + 3);
    }
}

/// A run of digits that ends within a part of the text is the same run in
/// that part alone.
proof fn lemma_digits_within(text: Seq<char>, from: int, to: int, pos: int)
    requires
        0 <= from <= pos <= to <= text.len(),
        digits_end(text, pos) <= to,
    ensures
        digits_end(text.subrange(from, to), pos - from) == digits_end(text, pos) - from,
    decreases text.len() - pos,
{
    let part = text.subrange(from, to);
    if digit_at(text, pos) {
        lemma_digits_bounds(text, pos + 1);
        assert(part[pos - from] == text[pos]);
        lemma_digits_within(text, from, to, pos + 1);
    } else if pos < to {
        assert(part[pos - from] == text[pos]);
    }
}

/// A part of the text has the characters of the text, and ends where the
/// part ends.
proof fn lemma_part(text: Seq<char>, from: int, to: int, pos: int)
    requires
        0 <= from <= pos,
        from <= to <= text.len(),
    ensures
        at(text.subrange(from, to), pos - from) == if pos < to {
            at(text, pos)
        } else {
            None
        },
{
    if pos < to {
        assert(text.subrange(from, to)[pos - from] == text[pos]);
    }
}

/// An integer part that ends within a part of the text is the same in that
/// part alone.
proof fn lemma_integer_within(text: Seq<char>, from: int, to: int, pos: int)
    requires
        0 <= from <= pos <= to <= text.len(),
        integer_end(text, pos) matches Some(end) && end <= to,
    ensures
        integer_end(text.subrange(from, to), pos - from) == Some(
            integer_end(text, pos)->0 - from,
        ),
{
    lemma_part(text, from, to, pos);
    lemma_digits_bounds(text, pos + 1);
    if at(text, pos) != Some('0') {
        lemma_digits_within(text, from, to, pos + 1);
    }
}

/// A fraction that ends within a part of the text is the same in that part
/// alone.
proof fn lemma_fraction_within(text: Seq<char>, from: int, to: int, pos: int)
    requires
        0 <= from <= pos <= to <= text.len(),
        fraction_end(text, pos) <= to,
    ensures
        fraction_end(text.subrange(from, to), pos - from) == fraction_end(text, pos) - from,
{
    lemma_part(text, from, to, pos);
    lemma_part(text, from, to, pos + 1);
    lemma_digits_bounds(text, pos + 2);
    if at(text, pos) == Some('.') && digit_at(text, pos + 1) {
        lemma_digits_within(text, from, to, pos + 2);
    }
}

/// An exponent that ends within a part of the text is the same in that part
/// alone.
proof fn lemma_exponent_within(text: Seq<char>, from: int, to: int, pos: int)
    requires
        0 <= from <= pos <= to <= text.len(),
        exponent_end(text, pos) <= to,
    ensures
        exponent_end(text.subrange(from, to), pos - from) == exponent_end(text, pos) - from,
{
    lemma_part(text, from, to, pos);
    lemma_part(text, from, to, pos + 1);
    lemma_part(text, from, to, pos + 2);
    if at(text, pos) == Some('e') || at(text, pos) == Some('E') {
        let digits = if at(text, pos + 1) == Some('+') || at(text, pos + 1) == Some('-') {
            pos + 2
        } else {
            pos + 1
        };
        lemma_digits_bounds(text, digits + 1);
        if digit_at(text, digits) {
            lemma_digits_within(text, from, to, digits + 1);
        }
    }
}

/// The characters that a number takes are a number literal by themselves.
pub proof fn lemma_number_literal(text: Seq<char>, pos: int)
    ensures
        spec_number(text, pos) matches Ok((literal, _)) ==> is_number_literal(literal),
{
    if let Some(end) = number_end(text, pos) {
        lemma_number_bounds(text, pos);
        let start = if at(text, pos) == Some('-') {
            pos + 1
        } else {
            pos
        };
        let integer = integer_end(text, start)->0;
        let fraction = fraction_end(text, integer);
        lemma_digits_bounds(text, start + 1);
        lemma_digits_bounds(text, integer + 2);
        lemma_digits_bounds(text, fraction + 2);
        lemma_digits_bounds(text, fraction + 3);
        lemma_part(text, pos, end, pos);
        lemma_integer_within(text, pos, end, start);
        lemma_fraction_within(text, pos, end, integer);
        lemma_exponent_within(text, pos, end, fraction);
    }
}

/// A value is not empty and ends within the text.
pub proof fn lemma_value_bounds(text: Seq<char>, pos: int)
    ensures
        spec_json_value(text, pos) matches Ok((_, next)) ==> pos < next <= text.len(),
    decreases text.len() - pos, 2int,
{
    if let Ok(next) = spec_null(text, pos) {
        lemma_starts_with(text, pos, null_literal());
    } else if let Ok((b, next)) = spec_boolean(text, pos) {
        if b {
            lemma_starts_with(text, pos, true_literal());
        } else {
            lemma_starts_with(text, pos, false_literal());
        }
    } else {
        match spec_string(text, pos) {
            Ok(_) => {
                lemma_string_bounds(text, pos);
            },
            Err(Failure::Fatal(_)) => {},
            Err(Failure::Recoverable(_)) => match spec_number(text, pos) {
                Ok(_) => {
                    lemma_number_bounds(text, pos);
                },
                Err(_) => match spec_array(text, pos) {
                    Ok(_) => {
                        lemma_array_bounds(text, pos);
                    },
                    Err(Failure::Fatal(_)) => {},
                    Err(Failure::Recoverable(_)) => {
                        lemma_object_bounds(text, pos);
                    },
                },
            },
        }
    }
}

/// An array is not empty and ends within the text.
pub proof fn lemma_array_bounds(text: Seq<char>, pos: int)
    ensures
        spec_array(text, pos) matches Ok((_, next)) ==> pos < next <= text.len(),
    decreases text.len() - pos, 1int,
{
    if at(text, pos) == Some('[') {
        lemma_ws_bounds(text, pos + 1);
        lemma_elements_bounds(text, spec_ws(text, pos + 1), Seq::empty());
    }
}

/// The elements of an array end within the text, after the offset at which
/// they began.
pub proof fn lemma_elements_bounds(text: Seq<char>, pos: int, items: Seq<Json>)
    ensures
        spec_elements(text, pos, items) matches Ok((_, next)) ==> pos < next <= text.len(),
    decreases text.len() - pos, 3int,
{
    lemma_value_bounds(text, pos);
    if let Ok((item, end)) = spec_json_value(text, pos) {
        let after = spec_ws(text, end);
        lemma_ws_bounds(text, end);
        lemma_ws_bounds(text, after + 1);
        if at(text, after) == Some(',') {
            lemma_elements_bounds(text, spec_ws(text, after + 1), items.push(item));
        }
    }
}

/// A member is not empty and ends within the text.
pub proof fn lemma_key_value_bounds(text: Seq<char>, pos: int)
    ensures
        spec_key_value(text, pos) matches Ok((_, next)) ==> pos < next <= text.len(),
    decreases text.len() - pos, 3int,
{
    lemma_string_bounds(text, pos);
    if let Ok((key, end)) = spec_string(text, pos) {
        let colon = spec_ws(text, end);
        lemma_ws_bounds(text, end);
        if at(text, colon) == Some(':') {
            lemma_ws_bounds(text, colon + 1);
            lemma_value_bounds(text, spec_ws(text, colon + 1));
        }
    }
}

/// An object is not empty and ends within the text.
pub proof fn lemma_object_bounds(text: Seq<char>, pos: int)
    ensures
        spec_object(text, pos) matches Ok((_, next)) ==> pos < next <= text.len(),
    decreases text.len() - pos, 1int,
{
    if at(text, pos) == Some('{') {
        lemma_ws_bounds(text, pos + 1);
        lemma_members_bounds(text, spec_ws(text, pos + 1), Seq::empty());
    }
}

/// The members of an object end within the text, after the offset at which
/// they began.
pub proof fn lemma_members_bounds(text: Seq<char>, pos: int, members: Seq<(Seq<char>, Json)>)
    ensures
        spec_members(text, pos, members) matches Ok((_, next)) ==> pos < next <= text.len(),
    decreases text.len() - pos, 4int,
{
    lemma_key_value_bounds(text, pos);
    if let Ok(((key, value), end)) = spec_key_value(text, pos) {
        let after = spec_ws(text, end);
        lemma_ws_bounds(text, end);
        lemma_ws_bounds(text, after + 1);
        if at(text, after) == Some(',') {
            lemma_members_bounds(
                text,
                spec_ws(text, after + 1),
                with_member(members, key, value),
            );
        }
    }
}

} // verus!

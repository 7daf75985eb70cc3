//! Values, arrays, objects and documents.

use crate::error::{Context, ErrorKind, Failure, ParseError};
use crate::laws::law_well_formed;
use crate::grammar::{
    expected, spec_array, spec_elements, spec_json, spec_json_value, spec_key_value,
    spec_members, spec_object,
};
use crate::scalar::{boolean, is_char_at, null, number, peek, ws};
use crate::strings::string;
use crate::value::{
    insert_member, lemma_values_view_push, members_view, values_view, JsonValue,
};
use vstd::prelude::*;

verus! {

/// The fatal failure for a token of `context` that does not stand at `pos`:
/// the construct is unterminated where the text has ended, and the failure has
/// the kind `otherwise` where another character stands there.
pub fn missing(text: &[char], pos: usize, context: Context, otherwise: ErrorKind) -> (f: Failure)
    ensures
        f == expected(text@, pos as int, context, otherwise),
{
    let kind = match peek(text, pos) {
        Some(_) => otherwise,
        None => match context {
            Context::String => ErrorKind::UnterminatedString,
            Context::Array => ErrorKind::UnterminatedArray,
            Context::Object => ErrorKind::UnterminatedObject,
        },
    };
    Failure::Fatal(ParseError { kind, offset: pos, context: Some(context) })
}

/// Parses the value that starts at `pos`, trying `null`, a boolean, a string,
/// a number, an array and an object in this order. The first that succeeds
/// gives the value and the offset after it. A fatal failure of a string, an
/// array or an object is returned as it is, and nothing else is tried. Where
/// every alternative fails recoverably the failure is recoverable, with
/// `UnexpectedToken` at `pos`.
pub fn json_value(text: &[char], pos: usize) -> (r: Result<(JsonValue, usize), Failure>)
    ensures
        match spec_json_value(text@, pos as int) {
            Ok((value, next)) => r matches Ok((v, n)) && v@ == value && n == next && pos < n
                <= text@.len() && v@.well_formed(),
            Err(f) => r == Err::<(JsonValue, usize), Failure>(f),
        },
    decreases text@.len() - pos, 2int,
{
    proof {
        law_well_formed(text@, pos as int);
    }
    match null(text, pos) {
        Ok(next) => {
            return Ok((JsonValue::Null, next));
        },
        Err(_) => {},
    }
    match boolean(text, pos) {
        Ok((b, next)) => {
            return Ok((JsonValue::Boolean(b), next));
        },
        Err(_) => {},
    }
    match string(text, pos) {
        Ok((s, next)) => {
            return Ok((JsonValue::String(s), next));
        },
        Err(Failure::Fatal(e)) => {
            return Err(Failure::Fatal(e));
        },
        Err(Failure::Recoverable(_)) => {},
    }
    match number(text, pos) {
        Ok((literal, next)) => {
            return Ok((JsonValue::Number(literal), next));
        },
        Err(_) => {},
    }
    match array(text, pos) {
        Ok((items, next)) => {
            return Ok((JsonValue::Array(items), next));
        },
        Err(Failure::Fatal(e)) => {
            return Err(Failure::Fatal(e));
        },
        Err(Failure::Recoverable(_)) => {},
    }
    match object(text, pos) {
        Ok((members, next)) => Ok((JsonValue::Object(members), next)),
        Err(Failure::Fatal(e)) => Err(Failure::Fatal(e)),
        Err(Failure::Recoverable(_)) => Err(
            Failure::Recoverable(
                ParseError { kind: ErrorKind::UnexpectedToken, offset: pos, context: None },
            ),
        ),
    }
}

/// Parses an array: `[`, values separated by commas, `]`, with whitespace
/// allowed around every token, and no comma after the last value. Without a
/// `[` at `pos` the failure is recoverable, with `UnexpectedToken` at `pos`.
/// After the bracket every failure is fatal. That of a value inside is
/// returned as it is. The array's own are labelled `array`:
/// `UnterminatedArray` where the text ends, `UnexpectedToken` where a value is
/// due and none starts, `MissingCommaOrCloser` where a value is followed by
/// neither a comma nor `]`.
pub fn array(text: &[char], pos: usize) -> (r: Result<(Vec<JsonValue>, usize), Failure>)
    ensures
        match spec_array(text@, pos as int) {
            Ok((items, next)) => r matches Ok((v, n)) && values_view(v@) == items && n == next
                && pos < n <= text@.len(),
            Err(f) => r == Err::<(Vec<JsonValue>, usize), Failure>(f),
        },
    decreases text@.len() - pos, 1int,
{
    if !is_char_at(text, pos, '[') {
        return Err(
            Failure::Recoverable(
                ParseError { kind: ErrorKind::UnexpectedToken, offset: pos, context: None },
            ),
        );
    }
    let mut items: Vec<JsonValue> = Vec::new();
    let mut p = ws(text, pos + 1);
    assert(values_view(items@) =~= Seq::empty());
    if is_char_at(text, p, ']') {
        return Ok((items, p + 1));
    }
    loop
        invariant
            pos < p <= text@.len(),
            spec_array(text@, pos as int) == spec_elements(text@, p as int, values_view(items@)),
        decreases text@.len() - p,
    {
        match json_value(text, p) {
            Ok((item, end)) => {
                let after = ws(text, end);
                proof {
                    lemma_values_view_push(items@, item);
                }
                items.push(item);
                if is_char_at(text, after, ']') {
                    return Ok((items, after + 1));
                } else if is_char_at(text, after, ',') {
                    p = ws(text, after + 1);
                } else {
                    return Err(
                        missing(text, after, Context::Array, ErrorKind::MissingCommaOrCloser),
                    );
                }
            },
            Err(Failure::Fatal(e)) => {
                return Err(Failure::Fatal(e));
            },
            Err(Failure::Recoverable(_)) => {
                return Err(missing(text, p, Context::Array, ErrorKind::UnexpectedToken));
            },
        }
    }
}

/// Parses a member of an object: a string, a colon, a value, with whitespace
/// allowed around the colon. Without a quote at `pos` the failure is
/// recoverable, with `UnexpectedToken` at `pos`. After the quote every failure
/// is fatal. That of the key or of the value is returned as it is. The
/// member's own are labelled `object`: `UnterminatedObject` where the text
/// ends, `MissingColon` where the key is followed by another character than
/// a colon, `UnexpectedToken` where no value starts after the colon.
pub fn key_value(text: &[char], pos: usize) -> (r: Result<((String, JsonValue), usize), Failure>)
    ensures
        match spec_key_value(text@, pos as int) {
            Ok(((key, value), next)) => r matches Ok(((k, v), n)) && k@ == key && v@ == value
                && n == next && pos < n <= text@.len(),
            Err(f) => r == Err::<((String, JsonValue), usize), Failure>(f),
        },
    decreases text@.len() - pos, 3int,
{
    let (key, end) = match string(text, pos) {
        Ok(found) => found,
        Err(f) => {
            return Err(f);
        },
    };
    let colon = ws(text, end);
    if !is_char_at(text, colon, ':') {
        return Err(missing(text, colon, Context::Object, ErrorKind::MissingColon));
    }
    let start = ws(text, colon + 1);
    match json_value(text, start) {
        Ok((value, next)) => Ok(((key, value), next)),
        Err(Failure::Fatal(e)) => Err(Failure::Fatal(e)),
        Err(Failure::Recoverable(_)) => Err(
            missing(text, start, Context::Object, ErrorKind::UnexpectedToken),
        ),
    }
}

/// Parses an object: `{`, members separated by commas, `}`, with whitespace
/// allowed around every token, and no comma after the last member. The
/// members come out in the order in which their keys first occur; a key that
/// occurs again keeps its place and takes the later value. Without a `{` at
/// `pos` the failure is recoverable, with `UnexpectedToken` at `pos`. After
/// the brace every failure is fatal. That of a member is returned as it is.
/// The object's own are labelled `object`: `UnterminatedObject` where the text
/// ends, `UnexpectedToken` where a member is due and no key starts,
/// `MissingCommaOrCloser` where a member is followed by neither a comma
/// nor `}`.
pub fn object(text: &[char], pos: usize) -> (r: Result<(Vec<(String, JsonValue)>, usize), Failure>)
    ensures
        match spec_object(text@, pos as int) {
            Ok((members, next)) => r matches Ok((m, n)) && members_view(m@) == members && n
                == next && pos < n <= text@.len(),
            Err(f) => r == Err::<(Vec<(String, JsonValue)>, usize), Failure>(f),
        },
    decreases text@.len() - pos, 1int,
{
    if !is_char_at(text, pos, '{') {
        return Err(
            Failure::Recoverable(
                ParseError { kind: ErrorKind::UnexpectedToken, offset: pos, context: None },
            ),
        );
    }
    let mut members: Vec<(String, JsonValue)> = Vec::new();
    let mut p = ws(text, pos + 1);
    assert(members_view(members@) =~= Seq::empty());
    if is_char_at(text, p, '}') {
        return Ok((members, p + 1));
    }
    loop
        invariant
            pos < p <= text@.len(),
            spec_object(text@, pos as int) == spec_members(
                text@,
                p as int,
                members_view(members@),
            ),
        decreases text@.len() - p,
    {
        match key_value(text, p) {
            Ok(((key, value), end)) => {
                let after = ws(text, end);
                insert_member(&mut members, key, value);
                if is_char_at(text, after, '}') {
                    return Ok((members, after + 1));
                } else if is_char_at(text, after, ',') {
                    p = ws(text, after + 1);
                } else {
                    return Err(
                        missing(text, after, Context::Object, ErrorKind::MissingCommaOrCloser),
                    );
                }
            },
            Err(Failure::Fatal(e)) => {
                return Err(Failure::Fatal(e));
            },
            Err(Failure::Recoverable(_)) => {
                return Err(missing(text, p, Context::Object, ErrorKind::UnexpectedToken));
            },
        }
    }
}

/// Parses a document: whitespace, one value, whitespace. Returns the value
/// and the offset at which the trailing whitespace ends; what stands there is
/// left unread. Fails as `json_value` does at the first character after the
/// leading whitespace.
pub fn json(text: &[char], pos: usize) -> (r: Result<(JsonValue, usize), Failure>)
    ensures
        match spec_json(text@, pos as int) {
            Ok((value, next)) => r matches Ok((v, n)) && v@ == value && n == next && pos < n
                <= text@.len() && v@.well_formed(),
            Err(f) => r == Err::<(JsonValue, usize), Failure>(f),
        },
{
    let start = ws(text, pos);
    match json_value(text, start) {
        Ok((value, end)) => Ok((value, ws(text, end))),
        Err(f) => Err(f),
    }
}

} // verus!

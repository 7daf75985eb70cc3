//! The entry point.

use crate::error::ParseError;
use crate::grammar::spec_json;
use crate::parser::json;
use crate::scalar::collect;
use crate::value::JsonValue;
use vstd::prelude::*;

verus! {

/// The characters of `input`, in order.
pub fn characters(input: &str) -> (text: Vec<char>)
    ensures
        text@ == input@,
{
    let mut text: Vec<char> = Vec::new();
    let chars = input.chars();
    for c in iter: chars
        invariant
            text@ == iter.seq().subrange(0, iter.index() as int),
    {
        text.push(c);
    }
    text
}

/// Parses `input` as a JSON document: whitespace, one value, whitespace.
/// Returns the value together with what is left of `input` after the trailing
/// whitespace; the rest is empty where the document is all of `input`. Fails
/// with the error of the first failure, whose offset counts the characters
/// before it.
pub fn parse_document(input: &str) -> (r: Result<(JsonValue, String), ParseError>)
    ensures
        match spec_json(input@, 0) {
            Ok((value, end)) => r matches Ok((v, rest)) && v@ == value && v@.well_formed()
                && rest@ == input@.subrange(end, input@.len() as int),
            Err(f) => r == Err::<(JsonValue, String), ParseError>(f.spec_error()),
        },
{
    let text = characters(input);
    match json(text.as_slice(), 0) {
        Ok((value, end)) => Ok((value, collect(text.as_slice(), end, text.len()))),
        Err(f) => Err(f.error()),
    }
}

} // verus!

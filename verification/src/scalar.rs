//! Whitespace and the scalar literals: `null`, the booleans and numbers.

use crate::error::{ErrorKind, Failure, ParseError};
use crate::grammar::{
    at, digit_at, digits_end, false_literal, is_ws, lemma_digits_bounds, lemma_number_bounds,
    lemma_starts_with, lemma_ws_bounds, null_literal, number_end, spec_boolean, spec_null,
    spec_number, spec_ws, starts_with, true_literal,
};
use vstd::prelude::*;

verus! {

/// The character at offset `pos`, or `None` where the text has ended.
pub fn peek(text: &[char], pos: usize) -> (c: Option<char>)
    ensures
        c == at(text@, pos as int),
        c is Some ==> pos < usize::MAX,
{
    if pos < text.len() {
        Some(text[pos])
    } else {
        None
    }
}

/// Whether the character `c` stands at offset `pos`.
pub fn is_char_at(text: &[char], pos: usize, c: char) -> (b: bool)
    ensures
        b == (at(text@, pos as int) == Some(c)),
        b ==> pos < usize::MAX,
{
    pos < text.len() && text[pos] == c
}

/// Whether `c` is a space, a tab, a carriage return or a line feed.
pub fn is_whitespace(c: char) -> (b: bool)
    ensures
        b == is_ws(c),
{
    c == ' ' || c == '\t' || c == '\r' || c == '\n'
}

/// The characters of `text` from offset `from` up to `to`, as a string.
pub fn collect(text: &[char], from: usize, to: usize) -> (s: String)
    requires
        from <= to <= text.len(),
    ensures
        s@ == text@.subrange(from as int, to as int),
{
    let mut s = String::new();
    let mut i: usize = from;
    while i < to
        invariant
            from <= i <= to <= text.len(),
            s@ == text@.subrange(from as int, i as int),
        decreases to - i,
    {
        s.push(text[i]);
        proof {
            assert(text@.subrange(from as int, i as int).push(text@[i as int])
                =~= text@.subrange(from as int, i + 1));
        }
        i = i + 1;
    }
    s
}

/// Whether `literal` stands in `text` at offset `pos`.
pub fn tag(text: &[char], pos: usize, literal: &str) -> (b: bool)
    ensures
        b == starts_with(text@, pos as int, literal@),
        b ==> pos + literal@.len() <= usize::MAX,
{
    proof {
        reveal(starts_with);
    }
    let n = literal.unicode_len();
    if pos > text.len() || text.len() - pos < n {
        return false;
    }
    let mut i: usize = 0;
    while i < n
        invariant
            i <= n,
            n == literal@.len(),
            pos + n <= text.len(),
            forall|j: int| 0 <= j < i ==> text@[pos + j] == literal@[j],
        decreases n - i,
    {
        if text[pos + i] != literal.get_char(i) {
            proof {
                reveal(starts_with);
                assert(text@.subrange(pos as int, pos + n)[i as int] == text@[pos + i]);
            }
            return false;
        }
        i = i + 1;
    }
    proof {
        reveal(starts_with);
        assert(text@.subrange(pos as int, pos + n) =~= literal@);
    }
    true
}

/// Skips whitespace: returns the offset of the first character at or after
/// `pos` that is no whitespace. It never fails, and returns `pos` itself where
/// no whitespace stands there.
pub fn ws(text: &[char], pos: usize) -> (next: usize)
    ensures
        next == spec_ws(text@, pos as int),
        pos <= next,
        pos <= text.len() ==> next <= text.len(),
        forall|i: int| pos <= i < next ==> 0 <= i < text.len() && is_ws(#[trigger] text@[i]),
        !(at(text@, next as int) matches Some(c) && is_ws(c)),
{
    let mut p = pos;
    while p < text.len() && is_whitespace(text[p])
        invariant
            pos <= p,
            spec_ws(text@, pos as int) == spec_ws(text@, p as int),
        decreases text.len() - p,
    {
        p = p + 1;
    }
    proof {
        lemma_ws_bounds(text@, pos as int);
    }
    p
}

/// Parses the literal `null`. Succeeds, with the offset after the literal,
/// exactly where the four characters stand at `pos`; fails recoverably with
/// `UnexpectedToken` at `pos` otherwise.
pub fn null(text: &[char], pos: usize) -> (r: Result<usize, Failure>)
    ensures
        match spec_null(text@, pos as int) {
            Ok(next) => r matches Ok(n) && n == next && pos < n <= text@.len(),
            Err(f) => r == Err::<usize, Failure>(f),
        },
{
    proof {
        reveal_strlit("null");
        assert("null"@ =~= null_literal());
    }
    if tag(text, pos, "null") {
        proof {
            lemma_starts_with(text@, pos as int, null_literal());
        }
        Ok(pos + 4)
    } else {
        Err(
            Failure::Recoverable(
                ParseError { kind: ErrorKind::UnexpectedToken, offset: pos, context: None },
            ),
        )
    }
}

/// Parses `true` or `false`. Succeeds, with the truth value and the offset
/// after the literal, exactly where one of the two stands at `pos`; fails
/// recoverably with `UnexpectedToken` at `pos` otherwise.
pub fn boolean(text: &[char], pos: usize) -> (r: Result<(bool, usize), Failure>)
    ensures
        match spec_boolean(text@, pos as int) {
            Ok((b, next)) => r matches Ok((rb, n)) && rb == b && n == next && pos < n
                <= text@.len(),
            Err(f) => r == Err::<(bool, usize), Failure>(f),
        },
{
    proof {
        reveal_strlit("true");
        reveal_strlit("false");
        assert("true"@ =~= true_literal());
        assert("false"@ =~= false_literal());
    }
    if tag(text, pos, "true") {
        proof {
            lemma_starts_with(text@, pos as int, true_literal());
        }
        Ok((true, pos + 4))
    } else if tag(text, pos, "false") {
        proof {
            lemma_starts_with(text@, pos as int, false_literal());
        }
        Ok((false, pos + 5))
    } else {
        Err(
            Failure::Recoverable(
                ParseError { kind: ErrorKind::UnexpectedToken, offset: pos, context: None },
            ),
        )
    }
}

/// Whether a decimal digit stands at offset `pos`.
pub fn is_digit_at(text: &[char], pos: usize) -> (b: bool)
    ensures
        b == digit_at(text@, pos as int),
        b ==> pos < usize::MAX,
{
    pos < text.len() && '0' <= text[pos] && text[pos] <= '9'
}

/// The offset of the first character at or after `pos` that is no digit.
pub fn digits(text: &[char], pos: usize) -> (next: usize)
    ensures
        next == digits_end(text@, pos as int),
        pos <= next,
        pos <= text.len() ==> next <= text.len(),
{
    let mut p = pos;
    while is_digit_at(text, p)
        invariant
            pos <= p,
            digits_end(text@, pos as int) == digits_end(text@, p as int),
        decreases text.len() - p,
    {
        p = p + 1;
    }
    proof {
        lemma_digits_bounds(text@, pos as int);
    }
    p
}

/// The end of the number literal that starts at `pos`, if one starts there.
pub fn scan_number(text: &[char], pos: usize) -> (r: Option<usize>)
    ensures
        match number_end(text@, pos as int) {
            Some(end) => r matches Some(e) && e == end && pos < e <= text.len(),
            None => r is None,
        },
{
    proof {
        lemma_number_bounds(text@, pos as int);
    }
    let start = if is_char_at(text, pos, '-') {
        pos + 1
    } else {
        pos
    };
    let integer = if is_char_at(text, start, '0') {
        start + 1
    } else if is_digit_at(text, start) {
        digits(text, start + 1)
    } else {
        return None;
    };
    let fraction = if is_char_at(text, integer, '.') && is_digit_at(text, integer + 1) {
        digits(text, integer + 2)
    } else {
        integer
    };
    if is_char_at(text, fraction, 'e') || is_char_at(text, fraction, 'E') {
        let exponent = if is_char_at(text, fraction + 1, '+') || is_char_at(
            text,
            fraction + 1,
            '-',
        ) {
            fraction + 2
        } else {
            fraction + 1
        };
        if is_digit_at(text, exponent) {
            Some(digits(text, exponent + 1))
        } else {
            Some(fraction)
        }
    } else {
        Some(fraction)
    }
}

/// Parses a number: an optional minus sign, an integer part without a
/// needless leading zero, an optional fraction and an optional exponent. The
/// longest such literal that starts at `pos` is taken and returned as it
/// stands; where none starts there the failure is recoverable, with
/// `InvalidNumberLiteral` at `pos`.
pub fn number(text: &[char], pos: usize) -> (r: Result<(String, usize), Failure>)
    ensures
        match spec_number(text@, pos as int) {
            Ok((literal, next)) => r matches Ok((s, n)) && s@ == literal && n == next && pos < n
                <= text@.len(),
            Err(f) => r == Err::<(String, usize), Failure>(f),
        },
{
    match scan_number(text, pos) {
        Some(end) => Ok((collect(text, pos, end), end)),
        None => Err(
            Failure::Recoverable(
                ParseError { kind: ErrorKind::InvalidNumberLiteral, offset: pos, context: None },
            ),
        ),
    }
}

} // verus!

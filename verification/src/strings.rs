//! String literals and the escapes inside them.

use crate::error::{Context, ErrorKind, Failure, ParseError};
use crate::grammar::{
    combine_surrogates, hex_at, is_high_surrogate, is_low_surrogate, lemma_character_bounds,
    short_escape, spec_character, spec_string, spec_string_body, spec_u16_hex,
    spec_unicode_escape,
};
use crate::scalar::{is_char_at, peek};
use crate::std_specs::is_scalar_value;
use vstd::prelude::*;

verus! {

/// The value of the hexadecimal digit at offset `pos`, if one stands there.
pub fn hex_digit_at(text: &[char], pos: usize) -> (r: Option<u16>)
    ensures
        match hex_at(text@, pos as int) {
            Some(v) => r == Some(v as u16) && 0 <= v < 16,
            None => r is None,
        },
        r is Some ==> pos < usize::MAX,
{
    match peek(text, pos) {
        Some(c) => {
            let code = c as u32;
            if '0' <= c && c <= '9' {
                Some((code - '0' as u32) as u16)
            } else if 'a' <= c && c <= 'f' {
                Some((code - 'a' as u32 + 10) as u16)
            } else if 'A' <= c && c <= 'F' {
                Some((code - 'A' as u32 + 10) as u16)
            } else {
                None
            }
        },
        None => None,
    }
}

/// Parses exactly four hexadecimal digits, of either case, into the UTF-16
/// code unit that they spell. Fails recoverably with `InvalidUnicodeEscape`
/// at `pos` where fewer than four characters are left or one of the four is no
/// hexadecimal digit.
pub fn u16_hex(text: &[char], pos: usize) -> (r: Result<(u16, usize), Failure>)
    ensures
        match spec_u16_hex(text@, pos as int) {
            Ok((unit, next)) => r matches Ok((u, n)) && u == unit && n == next && n == pos + 4,
            Err(f) => r == Err::<(u16, usize), Failure>(f),
        },
{
    let failure = Failure::Recoverable(
        ParseError { kind: ErrorKind::InvalidUnicodeEscape, offset: pos, context: None },
    );
    let a = match hex_digit_at(text, pos) {
        Some(v) => v,
        None => {
            return Err(failure);
        },
    };
    let b = match hex_digit_at(text, pos + 1) {
        Some(v) => v,
        None => {
            return Err(failure);
        },
    };
    let c = match hex_digit_at(text, pos + 2) {
        Some(v) => v,
        None => {
            return Err(failure);
        },
    };
    let d = match hex_digit_at(text, pos + 3) {
        Some(v) => v,
        None => {
            return Err(failure);
        },
    };
    Ok((((a * 16 + b) * 16 + c) * 16 + d, pos + 4))
}

/// The high and the low surrogate of a pair spell a scalar value above
/// U+FFFF, which is the sum of 0x10000, the low ten bits of the high surrogate
/// times 0x400, and the low ten bits of the low surrogate.
pub proof fn lemma_combine_surrogates(high: u16, low: u16)
    requires
        is_high_surrogate(high),
        is_low_surrogate(low),
    ensures
        ((high - 0xD800) as u32) << 10 == (high - 0xD800) * 0x400,
        combine_surrogates(high, low) == (high - 0xD800) * 0x400 + (low - 0xDC00) + 0x10000,
        0x10000 <= combine_surrogates(high, low) <= 0x10FFFF,
        is_scalar_value(combine_surrogates(high, low)),
{
    let ten = (high - 0xD800) as u32;
    assert(ten < 0x400 ==> (ten << 10) == ten * 0x400) by (bit_vector);
}

/// Decodes what follows `\u`. Four hexadecimal digits outside the surrogate
/// range give the character with that code point. A high surrogate must be
/// followed at once by `\u` and a low surrogate, and the two give one
/// character. Anything else fails recoverably with `InvalidUnicodeEscape`
/// at `pos`: malformed digits, a low surrogate that stands first, a high
/// surrogate without its partner.
pub fn unicode_escape(text: &[char], pos: usize) -> (r: Result<(char, usize), Failure>)
    ensures
        match spec_unicode_escape(text@, pos as int) {
            Ok((c, next)) => r matches Ok((rc, n)) && rc == c && n == next,
            Err(f) => r == Err::<(char, usize), Failure>(f),
        },
{
    let failure = Failure::Recoverable(
        ParseError { kind: ErrorKind::InvalidUnicodeEscape, offset: pos, context: None },
    );
    let (unit, next) = match u16_hex(text, pos) {
        Ok(found) => found,
        Err(f) => {
            return Err(f);
        },
    };
    if unit < 0xD800 || unit >= 0xE000 {
        match char::from_u32(unit as u32) {
            Some(c) => Ok((c, next)),
            None => Err(failure),
        }
    } else if unit < 0xDC00 && is_char_at(text, pos + 4, '\\') && is_char_at(text, pos + 5, 'u') {
        match u16_hex(text, pos + 6) {
            Ok((low, end)) => {
                if 0xDC00 <= low && low < 0xE000 {
                    proof {
                        lemma_combine_surrogates(unit, low);
                    }
                    let high_ten: u32 = (unit - 0xD800) as u32;
                    let low_ten: u32 = (low - 0xDC00) as u32;
                    assert(high_ten < 0x400 ==> (high_ten << 10) == high_ten * 0x400)
                        by (bit_vector);
                    match char::from_u32((high_ten << 10) + low_ten + 0x10000) {
                        Some(c) => Ok((c, end)),
                        None => Err(failure),
                    }
                } else {
                    Err(failure)
                }
            },
            Err(_) => Err(failure),
        }
    } else {
        Err(failure)
    }
}

/// The character that a one-letter escape stands for, if `c` is one of the
/// eight: the quote, the backslash and the slash stand for themselves, and
/// `b`, `f`, `n`, `r`, `t` for backspace, form feed, line feed, carriage
/// return and tab.
pub fn unescape(c: char) -> (r: Option<char>)
    ensures
        r == short_escape(c),
{
    if c == '"' || c == '\\' || c == '/' {
        Some(c)
    } else if c == 'b' {
        Some('\u{8}')
    } else if c == 'f' {
        Some('\u{c}')
    } else if c == 'n' {
        Some('\n')
    } else if c == 'r' {
        Some('\r')
    } else if c == 't' {
        Some('\t')
    } else {
        None
    }
}

/// Parses one character of a string's body. Any character but the quote and
/// the backslash stands for itself. A backslash begins an escape: one of the
/// eight one-letter escapes, or `u` and what `unicode_escape` takes. Every
/// failure is recoverable and reported at `pos`: `UnexpectedToken` where the
/// quote stands there or the text has ended, `InvalidEscape` where the
/// backslash is followed by no escape character, and `InvalidUnicodeEscape`
/// where what follows `\u` is malformed.
pub fn character(text: &[char], pos: usize) -> (r: Result<(char, usize), Failure>)
    ensures
        match spec_character(text@, pos as int) {
            Ok((c, next)) => r matches Ok((rc, n)) && rc == c && n == next && pos < n
                <= text@.len(),
            Err(f) => r == Err::<(char, usize), Failure>(f),
        },
{
    proof {
        lemma_character_bounds(text@, pos as int);
    }
    let c = match peek(text, pos) {
        Some(c) => c,
        None => {
            return Err(
                Failure::Recoverable(
                    ParseError { kind: ErrorKind::UnexpectedToken, offset: pos, context: None },
                ),
            );
        },
    };
    if c == '"' {
        Err(
            Failure::Recoverable(
                ParseError { kind: ErrorKind::UnexpectedToken, offset: pos, context: None },
            ),
        )
    } else if c != '\\' {
        Ok((c, pos + 1))
    } else {
        match peek(text, pos + 1) {
            Some(e) => {
                if e == 'u' {
                    match unicode_escape(text, pos + 2) {
                        Ok(decoded) => Ok(decoded),
                        Err(_) => Err(
                            Failure::Recoverable(
                                ParseError {
                                    kind: ErrorKind::InvalidUnicodeEscape,
                                    offset: pos,
                                    context: None,
                                },
                            ),
                        ),
                    }
                } else {
                    match unescape(e) {
                        Some(d) => Ok((d, pos + 2)),
                        None => Err(
                            Failure::Recoverable(
                                ParseError {
                                    kind: ErrorKind::InvalidEscape,
                                    offset: pos,
                                    context: None,
                                },
                            ),
                        ),
                    }
                }
            },
            None => Err(
                Failure::Recoverable(
                    ParseError { kind: ErrorKind::InvalidEscape, offset: pos, context: None },
                ),
            ),
        }
    }
}

/// Parses a string literal and decodes its escapes. Without a quote at `pos`
/// the failure is recoverable, with `UnexpectedToken` at `pos`. After the
/// opening quote every failure is fatal and labelled `string`:
/// `UnterminatedString`, at the end of the text, where the closing quote is
/// missing, and the failure of `character` otherwise.
pub fn string(text: &[char], pos: usize) -> (r: Result<(String, usize), Failure>)
    ensures
        match spec_string(text@, pos as int) {
            Ok((s, next)) => r matches Ok((rs, n)) && rs@ == s && n == next && pos < n
                <= text@.len(),
            Err(f) => r == Err::<(String, usize), Failure>(f),
        },
{
    if !is_char_at(text, pos, '"') {
        return Err(
            Failure::Recoverable(
                ParseError { kind: ErrorKind::UnexpectedToken, offset: pos, context: None },
            ),
        );
    }
    let mut decoded = String::new();
    let mut p: usize = pos + 1;
    loop
        invariant
            pos < p <= text@.len(),
            spec_string(text@, pos as int) == spec_string_body(text@, p as int, decoded@),
        decreases text@.len() - p,
    {
        match peek(text, p) {
            Some(c) => {
                if c == '"' {
                    return Ok((decoded, p + 1));
                }
                match character(text, p) {
                    Ok((d, next)) => {
                        decoded.push(d);
                        p = next;
                    },
                    Err(f) => {
                        return Err(f.commit(Context::String));
                    },
                }
            },
            None => {
                return Err(
                    Failure::Fatal(
                        ParseError {
                            kind: ErrorKind::UnterminatedString,
                            offset: p,
                            context: Some(Context::String),
                        },
                    ),
                );
            },
        }
    }
}

} // verus!

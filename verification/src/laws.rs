//! What holds of the grammar for every text.

use crate::error::{fatal, recoverable, Context, ErrorKind, Failure};
use crate::grammar::{
    at, combine_surrogates, false_literal, is_high_surrogate, is_low_surrogate,
    lemma_character_bounds, lemma_number_literal, lemma_starts_with, lemma_string_bounds,
    lemma_value_bounds, lemma_ws_bounds, null_literal, spec_array, spec_boolean,
    spec_character, spec_elements, spec_json, spec_json_value, spec_key_value, spec_members,
    spec_null, spec_number, spec_object, spec_string, spec_string_body, spec_u16_hex,
    spec_unicode_escape, spec_ws, starts_with, true_literal,
};
use crate::strings::lemma_combine_surrogates;
use crate::value::{
    as_map, key_index, lemma_key_index, lemma_well_formed_items, lookup, unique_keys,
    with_member, Json,
};
use vstd::prelude::*;

verus! {

/// Where `null`, `true` or `false` stands at `pos`, the value is the variant
/// of that name, and it ends right after the literal.
pub proof fn law_literals(text: Seq<char>, pos: int)
    ensures
        starts_with(text, pos, null_literal()) ==> spec_json_value(text, pos) == Ok::<
            (Json, int),
            Failure,
        >((Json::Null, pos + 4)),
        starts_with(text, pos, true_literal()) ==> spec_json_value(text, pos) == Ok::<
            (Json, int),
            Failure,
        >((Json::Boolean(true), pos + 4)),
        starts_with(text, pos, false_literal()) ==> spec_json_value(text, pos) == Ok::<
            (Json, int),
            Failure,
        >((Json::Boolean(false), pos + 5)),
{
    if starts_with(text, pos, true_literal()) {
        lemma_starts_with(text, pos, true_literal());
        assert(true_literal()[0] == 't');
        lemma_first_character(text, pos, 't');
        assert(spec_null(text, pos) is Err);
    }
    if starts_with(text, pos, false_literal()) {
        lemma_starts_with(text, pos, false_literal());
        assert(false_literal()[0] == 'f');
        lemma_first_character(text, pos, 'f');
        assert(spec_null(text, pos) is Err);
        assert(spec_boolean(text, pos) == Ok::<(bool, int), Failure>((false, pos + 5)));
    }
}

/// A literal stands at `pos` only where its first character stands there.
proof fn lemma_first_character(text: Seq<char>, pos: int, c: char)
    requires
        at(text, pos) == Some(c),
    ensures
        c != 'n' ==> !starts_with(text, pos, null_literal()),
        c != 't' ==> !starts_with(text, pos, true_literal()),
        c != 'f' ==> !starts_with(text, pos, false_literal()),
{
    if starts_with(text, pos, null_literal()) {
        lemma_starts_with(text, pos, null_literal());
        assert(null_literal()[0] == 'n');
    }
    if starts_with(text, pos, true_literal()) {
        lemma_starts_with(text, pos, true_literal());
        assert(true_literal()[0] == 't');
    }
    if starts_with(text, pos, false_literal()) {
        lemma_starts_with(text, pos, false_literal());
        assert(false_literal()[0] == 'f');
    }
}

/// A backslash and one of the eight escape characters decode to one
/// character: the quote, the backslash and the slash to themselves, `b` to
/// backspace, `f` to form feed, `n` to line feed, `r` to carriage return and
/// `t` to tab.
pub proof fn law_short_escapes(text: Seq<char>, pos: int, escape: char)
    requires
        at(text, pos) == Some('\\'),
        at(text, pos + 1) == Some(escape),
        escape == '"' || escape == '\\' || escape == '/' || escape == 'b' || escape == 'f'
            || escape == 'n' || escape == 'r' || escape == 't',
    ensures
        spec_character(text, pos) == Ok::<(char, int), Failure>(
            (
                if escape == 'b' {
                    '\u{8}'
                } else if escape == 'f' {
                    '\u{c}'
                } else if escape == 'n' {
                    '\u{a}'
                } else if escape == 'r' {
                    '\u{d}'
                } else if escape == 't' {
                    '\u{9}'
                } else {
                    escape
                },
                pos + 2,
            ),
        ),
{
}

/// The escapes of a high surrogate and, right after it, of a low surrogate
/// decode to the one character whose code point is
/// `((high - 0xD800) << 10) + (low - 0xDC00) + 0x10000`.
pub proof fn law_surrogate_pair(text: Seq<char>, pos: int, high: u16, low: u16)
    requires
        at(text, pos) == Some('\\'),
        at(text, pos + 1) == Some('u'),
        spec_u16_hex(text, pos + 2) == Ok::<(u16, int), Failure>((high, pos + 6)),
        at(text, pos + 6) == Some('\\'),
        at(text, pos + 7) == Some('u'),
        spec_u16_hex(text, pos + 8) == Ok::<(u16, int), Failure>((low, pos + 12)),
        0xD800 <= high <= 0xDBFF,
        0xDC00 <= low <= 0xDFFF,
    ensures
        spec_character(text, pos) matches Ok((c, next)) && next == pos + 12 && c as u32 == (((high
            - 0xD800) as u32) << 10) + (low - 0xDC00) + 0x10000 && c as int == (high - 0xD800)
            * 0x400 + (low - 0xDC00) + 0x10000,
{
    lemma_combine_surrogates(high, low);
    let code = combine_surrogates(high, low);
    assert(spec_unicode_escape(text, pos + 2) == Ok::<(char, int), Failure>(
        (code as char, pos + 12),
    ));
    assert((code as char) as u32 == code);
}

/// The escape of a surrogate that is not half of a pair fails with
/// `InvalidUnicodeEscape` at its backslash: a low surrogate that stands
/// first, and a high surrogate that the escape of a low surrogate does not
/// follow at once. Inside a string the failure is fatal.
pub proof fn law_lone_surrogate(text: Seq<char>, pos: int, unit: u16, decoded: Seq<char>)
    requires
        at(text, pos) == Some('\\'),
        at(text, pos + 1) == Some('u'),
        spec_u16_hex(text, pos + 2) == Ok::<(u16, int), Failure>((unit, pos + 6)),
        is_low_surrogate(unit) || (is_high_surrogate(unit) && !(at(text, pos + 6) == Some('\\')
            && at(text, pos + 7) == Some('u') && (spec_u16_hex(text, pos + 8) matches Ok(
            (low, _),
        ) && is_low_surrogate(low)))),
    ensures
        spec_character(text, pos) == Err::<(char, int), Failure>(
            recoverable(ErrorKind::InvalidUnicodeEscape, pos),
        ),
        spec_string_body(text, pos, decoded) == Err::<(Seq<char>, int), Failure>(
            fatal(ErrorKind::InvalidUnicodeEscape, pos, Some(Context::String)),
        ),
{
}

/// An opening and a closing bracket with nothing but whitespace between them
/// are the empty array, and two braces the empty object.
pub proof fn law_empty_aggregates(text: Seq<char>, pos: int)
    ensures
        at(text, pos) == Some('[') && at(text, spec_ws(text, pos + 1)) == Some(']')
            ==> spec_json_value(text, pos) == Ok::<(Json, int), Failure>(
            (Json::Array(Seq::empty()), spec_ws(text, pos + 1) + 1),
        ),
        at(text, pos) == Some('{') && at(text, spec_ws(text, pos + 1)) == Some('}')
            ==> spec_json_value(text, pos) == Ok::<(Json, int), Failure>(
            (Json::Object(Seq::empty()), spec_ws(text, pos + 1) + 1),
        ),
{
    lemma_opener_excludes_scalars(text, pos);
}

/// Where a quote, a bracket or a brace stands at `pos`, neither `null`, nor a
/// boolean, nor a number starts there, and of the three constructs only the
/// one with that opener.
pub proof fn lemma_opener_excludes_scalars(text: Seq<char>, pos: int)
    ensures
        at(text, pos) == Some('"') || at(text, pos) == Some('[') || at(text, pos) == Some('{') ==> {
            &&& !starts_with(text, pos, null_literal())
            &&& !starts_with(text, pos, true_literal())
            &&& !starts_with(text, pos, false_literal())
        },
{
    if let Some(c) = at(text, pos) {
        lemma_first_character(text, pos, c);
    }
}

/// Setting a key changes no key of an old member, and puts the key at the
/// end where no member had it.
proof fn lemma_with_member_keys(members: Seq<(Seq<char>, Json)>, key: Seq<char>, value: Json)
    ensures
        members.len() <= with_member(members, key, value).len() <= members.len() + 1,
        forall|j: int|
            0 <= j < members.len() ==> (#[trigger] with_member(members, key, value)[j]).0
                == members[j].0,
        forall|j: int|
            0 <= j < members.len() && members[j].0 != key ==> #[trigger] with_member(
                members,
                key,
                value,
            )[j] == members[j],
        forall|j: int|
            0 <= j < with_member(members, key, value).len() && (#[trigger] with_member(
                members,
                key,
                value,
            )[j]).0 == key ==> with_member(members, key, value)[j].1 == value || (j
                < members.len() && members[j] == with_member(members, key, value)[j]),
        key_index(members, key) is None ==> with_member(members, key, value) == members.push(
            (key, value),
        ),
        key_index(members, key) matches Some(i) ==> 0 <= i < members.len() && with_member(
            members,
            key,
            value,
        )[i] == (key, value),
{
    lemma_key_index(members, key);
}

/// Setting a key lets the key map to the new value and leaves every other
/// key as it was.
proof fn lemma_with_member_lookup(
    members: Seq<(Seq<char>, Json)>,
    key: Seq<char>,
    value: Json,
    other: Seq<char>,
)
    ensures
        lookup(with_member(members, key, value), other) == if other == key {
            Some(value)
        } else {
            lookup(members, other)
        },
{
    let after = with_member(members, key, value);
    lemma_with_member_keys(members, key, value);
    lemma_key_index(members, key);
    lemma_key_index(members, other);
    lemma_key_index(after, other);
    if other == key {
        match key_index(members, key) {
            Some(i) => {
                let k = key_index(after, key)->0;
                assert(after[i].0 == key);
                assert(k <= i);
                if k < i {
                    assert(after[k].0 == members[k].0);
                }
            },
            None => {
                let n = members.len() as int;
                assert(after[n] == (key, value));
                let k = key_index(after, key)->0;
                if k < n {
                    assert(after[k].0 == members[k].0);
                }
            },
        }
    } else {
        match key_index(members, other) {
            Some(x) => {
                assert(after[x] == members[x]);
                let y = key_index(after, other)->0;
                assert(y <= x);
                if y < x {
                    assert(after[y].0 == members[y].0);
                }
            },
            None => {
                if let Some(y) = key_index(after, other) {
                    if y < members.len() {
                        assert(after[y].0 == members[y].0);
                    }
                }
            },
        }
    }
}

/// Setting a key keeps unique keys unique.
proof fn lemma_with_member_unique(members: Seq<(Seq<char>, Json)>, key: Seq<char>, value: Json)
    requires
        unique_keys(members),
    ensures
        unique_keys(with_member(members, key, value)),
{
    let after = with_member(members, key, value);
    lemma_with_member_keys(members, key, value);
    lemma_key_index(members, key);
    assert forall|i: int, j: int| 0 <= i < j < after.len() implies (#[trigger] after[i]).0 != (
    #[trigger] after[j]).0 by {
        if j < members.len() {
            assert(after[i].0 == members[i].0);
            assert(after[j].0 == members[j].0);
        } else {
            assert(after[i].0 == members[i].0);
        }
    }
}

/// Setting a key makes the key map to the new value and leaves every other
/// key as it was; where the keys were unique they stay so, and the mapping
/// that the members stand for is the old one with the key set. So of two
/// members with one key, the later one decides.
pub proof fn law_last_member_wins(members: Seq<(Seq<char>, Json)>, key: Seq<char>, value: Json)
    ensures
        lookup(with_member(members, key, value), key) == Some(value),
        forall|other: Seq<char>|
            other != key ==> lookup(with_member(members, key, value), other) == lookup(
                members,
                other,
            ),
        unique_keys(members) ==> unique_keys(with_member(members, key, value)),
        unique_keys(members) ==> as_map(with_member(members, key, value)) == as_map(
            members,
        ).insert(key, value),
{
    let after = with_member(members, key, value);
    lemma_with_member_lookup(members, key, value, key);
    assert forall|other: Seq<char>| other != key implies lookup(after, other) == lookup(
        members,
        other,
    ) by {
        lemma_with_member_lookup(members, key, value, other);
    }
    if unique_keys(members) {
        lemma_with_member_unique(members, key, value);
        lemma_as_map(members);
        lemma_as_map(after);
        assert forall|k: Seq<char>|
            as_map(after).contains_key(k) == as_map(members).insert(key, value).contains_key(k)
                && (as_map(after).contains_key(k) ==> as_map(after)[k] == as_map(members).insert(
                key,
                value,
            )[k]) by {
            lemma_with_member_lookup(members, key, value, k);
            let _ = lookup(members, k);
            let _ = lookup(after, k);
        }
        assert(as_map(after) =~= as_map(members).insert(key, value));
    }
}

/// Where the keys are unique, the mapping gives each key the value of its
/// member and has no other key.
pub proof fn lemma_as_map(members: Seq<(Seq<char>, Json)>)
    requires
        unique_keys(members),
    ensures
        forall|key: Seq<char>|
            #![trigger lookup(members, key)]
            #![trigger as_map(members).contains_key(key)]
            match lookup(members, key) {
                Some(v) => as_map(members).contains_key(key) && as_map(members)[key] == v,
                None => !as_map(members).contains_key(key),
            },
    decreases members.len(),
{
    if members.len() > 0 {
        let init = members.drop_last();
        assert(forall|j: int| 0 <= j < init.len() ==> #[trigger] init[j] == members[j]);
        lemma_as_map(init);
        assert forall|key: Seq<char>|
            #![trigger lookup(members, key)]
            #![trigger as_map(members).contains_key(key)]
            match lookup(members, key) {
                Some(v) => as_map(members).contains_key(key) && as_map(members)[key] == v,
                None => !as_map(members).contains_key(key),
            } by {
            lemma_key_index(init, key);
            lemma_key_index(members, key);
            let _ = lookup(init, key);
        }
    }
}

/// The kinds that report the end of the text.
pub open spec fn is_unterminated(kind: ErrorKind) -> bool {
    kind == ErrorKind::UnterminatedString || kind == ErrorKind::UnterminatedArray || kind
        == ErrorKind::UnterminatedObject
}

/// The constructs inside which a failure of kind `kind` arises.
pub open spec fn label_fits(kind: ErrorKind, context: Context) -> bool {
    match kind {
        ErrorKind::UnterminatedString
        | ErrorKind::InvalidEscape
        | ErrorKind::InvalidUnicodeEscape => context == Context::String,
        ErrorKind::UnterminatedArray => context == Context::Array,
        ErrorKind::UnterminatedObject | ErrorKind::MissingColon => context == Context::Object,
        ErrorKind::UnexpectedToken | ErrorKind::MissingCommaOrCloser => context == Context::Array
            || context == Context::Object,
        ErrorKind::InvalidNumberLiteral => false,
    }
}

/// What holds of the failure `f` of a string, an array, an object, a member
/// or a value that was tried at `pos`. A recoverable failure says that
/// nothing of the kind starts at `pos`, and names no construct. A fatal
/// failure names the construct in which it arose, lies within the text at or
/// after `pos`, and lies at the end of the text exactly where its kind
/// reports an unterminated construct.
pub open spec fn well_reported(text: Seq<char>, pos: int, f: Failure) -> bool {
    match f {
        Failure::Recoverable(e) => f == recoverable(ErrorKind::UnexpectedToken, pos),
        Failure::Fatal(e) => {
            &&& e.context matches Some(context) && label_fits(e.kind, context)
            &&& pos <= e.offset <= text.len()
            &&& is_unterminated(e.kind) <==> e.offset == text.len()
        },
    }
}

proof fn lemma_string_body_failure(text: Seq<char>, pos: int, decoded: Seq<char>)
    requires
        0 <= pos <= text.len(),
        text.len() <= usize::MAX,
    ensures
        spec_string_body(text, pos, decoded) matches Err(f) ==> f is Fatal && well_reported(
            text,
            pos,
            f,
        ),
    decreases text.len() - pos,
{
    if let Some(c) = at(text, pos) {
        if c != '"' {
            lemma_character_bounds(text, pos);
            if let Ok((d, next)) = spec_character(text, pos) {
                lemma_string_body_failure(text, next, decoded.push(d));
            }
        }
    }
}

proof fn lemma_string_failure(text: Seq<char>, pos: int)
    requires
        0 <= pos,
        text.len() <= usize::MAX,
    ensures
        spec_string(text, pos) matches Err(f) ==> well_reported(text, pos, f) && (f is Fatal
            <==> at(text, pos) == Some('"')),
{
    if at(text, pos) == Some('"') {
        lemma_string_body_failure(text, pos + 1, Seq::empty());
    }
}

proof fn lemma_value_failure(text: Seq<char>, pos: int)
    requires
        0 <= pos,
        text.len() <= usize::MAX,
    ensures
        spec_json_value(text, pos) matches Err(f) ==> well_reported(text, pos, f),
    decreases text.len() - pos, 2int,
{
    if spec_null(text, pos) is Ok {
    } else if spec_boolean(text, pos) is Ok {
    } else {
        lemma_string_failure(text, pos);
        if spec_string(text, pos) matches Err(Failure::Recoverable(_)) {
            if spec_number(text, pos) is Err {
                lemma_array_failure(text, pos);
                if spec_array(text, pos) matches Err(Failure::Recoverable(_)) {
                    lemma_object_failure(text, pos);
                }
            }
        }
    }
}

proof fn lemma_array_failure(text: Seq<char>, pos: int)
    requires
        0 <= pos,
        text.len() <= usize::MAX,
    ensures
        spec_array(text, pos) matches Err(f) ==> well_reported(text, pos, f) && (f is Fatal
            <==> at(text, pos) == Some('[')),
    decreases text.len() - pos, 1int,
{
    if at(text, pos) == Some('[') {
        lemma_ws_bounds(text, pos + 1);
        lemma_elements_failure(text, spec_ws(text, pos + 1), Seq::empty());
    }
}

proof fn lemma_elements_failure(text: Seq<char>, pos: int, items: Seq<Json>)
    requires
        0 <= pos <= text.len(),
        text.len() <= usize::MAX,
    ensures
        spec_elements(text, pos, items) matches Err(f) ==> f is Fatal && well_reported(
            text,
            pos,
            f,
        ),
    decreases text.len() - pos, 3int,
{
    lemma_value_failure(text, pos);
    lemma_value_bounds(text, pos);
    if let Ok((item, end)) = spec_json_value(text, pos) {
        let after = spec_ws(text, end);
        lemma_ws_bounds(text, end);
        lemma_ws_bounds(text, after + 1);
        if at(text, after) == Some(',') {
            lemma_elements_failure(text, spec_ws(text, after + 1), items.push(item));
        }
    }
}

proof fn lemma_key_value_failure(text: Seq<char>, pos: int)
    requires
        0 <= pos,
        text.len() <= usize::MAX,
    ensures
        spec_key_value(text, pos) matches Err(f) ==> well_reported(text, pos, f) && (f is Fatal
            <==> at(text, pos) == Some('"')),
    decreases text.len() - pos, 3int,
{
    lemma_string_failure(text, pos);
    lemma_string_bounds(text, pos);
    if let Ok((key, end)) = spec_string(text, pos) {
        let colon = spec_ws(text, end);
        lemma_ws_bounds(text, end);
        if at(text, colon) == Some(':') {
            lemma_ws_bounds(text, colon + 1);
            lemma_value_failure(text, spec_ws(text, colon + 1));
        }
    }
}

proof fn lemma_object_failure(text: Seq<char>, pos: int)
    requires
        0 <= pos,
        text.len() <= usize::MAX,
    ensures
        spec_object(text, pos) matches Err(f) ==> well_reported(text, pos, f) && (f is Fatal
            <==> at(text, pos) == Some('{')),
    decreases text.len() - pos, 1int,
{
    if at(text, pos) == Some('{') {
        lemma_ws_bounds(text, pos + 1);
        lemma_members_failure(text, spec_ws(text, pos + 1), Seq::empty());
    }
}

proof fn lemma_members_failure(text: Seq<char>, pos: int, members: Seq<(Seq<char>, Json)>)
    requires
        0 <= pos <= text.len(),
        text.len() <= usize::MAX,
    ensures
        spec_members(text, pos, members) matches Err(f) ==> f is Fatal && well_reported(
            text,
            pos,
            f,
        ),
    decreases text.len() - pos, 4int,
{
    lemma_key_value_failure(text, pos);
    crate::grammar::lemma_key_value_bounds(text, pos);
    if let Ok(((key, value), end)) = spec_key_value(text, pos) {
        let after = spec_ws(text, end);
        lemma_ws_bounds(text, end);
        lemma_ws_bounds(text, after + 1);
        if at(text, after) == Some(',') {
            lemma_members_failure(
                text,
                spec_ws(text, after + 1),
                with_member(members, key, value),
            );
        }
    }
}

/// Every failure of a value and of a document is well reported: a
/// recoverable one says that no value starts where one was due, and a fatal
/// one names its construct, lies within the text, and lies at the end of the
/// text exactly where it reports an unterminated construct.
pub proof fn law_failures(text: Seq<char>, pos: int)
    requires
        0 <= pos,
        text.len() <= usize::MAX,
    ensures
        spec_json_value(text, pos) matches Err(f) ==> well_reported(text, pos, f),
        spec_json(text, pos) matches Err(f) ==> well_reported(text, spec_ws(text, pos), f),
{
    lemma_value_failure(text, pos);
    lemma_ws_bounds(text, pos);
    lemma_value_failure(text, spec_ws(text, pos));
}

/// Once the opener of a string, an array or an object stands at `pos`, the
/// value is that construct or the parse fails fatally: no other kind of value
/// is tried, and no failure is recoverable.
pub proof fn law_commit(text: Seq<char>, pos: int)
    requires
        text.len() <= usize::MAX,
    ensures
        at(text, pos) == Some('"') ==> spec_json_value(text, pos) == (match spec_string(text, pos) {
            Ok((s, next)) => Ok::<(Json, int), Failure>((Json::String(s), next)),
            Err(f) => Err(f),
        }) && !(spec_string(text, pos) matches Err(Failure::Recoverable(_))),
        at(text, pos) == Some('[') ==> spec_json_value(text, pos) == (match spec_array(text, pos) {
            Ok((items, next)) => Ok::<(Json, int), Failure>((Json::Array(items), next)),
            Err(f) => Err(f),
        }) && !(spec_array(text, pos) matches Err(Failure::Recoverable(_))),
        at(text, pos) == Some('{') ==> spec_json_value(text, pos) == (match spec_object(text, pos) {
            Ok((members, next)) => Ok::<(Json, int), Failure>((Json::Object(members), next)),
            Err(f) => Err(f),
        }) && !(spec_object(text, pos) matches Err(Failure::Recoverable(_))),
{
    lemma_opener_excludes_scalars(text, pos);
    if at(text, pos) is Some {
        lemma_string_failure(text, pos);
        lemma_array_failure(text, pos);
        lemma_object_failure(text, pos);
    }
}

proof fn lemma_plain_run(text: Seq<char>, pos: int, end: int, decoded: Seq<char>)
    requires
        0 <= pos <= end < text.len(),
        forall|i: int| pos <= i < end ==> text[i] != '"' && text[i] != '\\',
        text[end] == '"',
    ensures
        spec_string_body(text, pos, decoded) == Ok::<(Seq<char>, int), Failure>(
            (decoded + text.subrange(pos, end), end + 1),
        ),
    decreases end - pos,
{
    if pos < end {
        lemma_plain_run(text, pos + 1, end, decoded.push(text[pos]));
        assert(decoded.push(text[pos]) + text.subrange(pos + 1, end) =~= decoded + text.subrange(
            pos,
            end,
        ));
    } else {
        assert(decoded + text.subrange(pos, end) =~= decoded);
    }
}

/// A string without a backslash decodes to the characters between its
/// quotes.
pub proof fn law_plain_string(text: Seq<char>, pos: int, end: int)
    requires
        0 <= pos < end < text.len(),
        text[pos] == '"',
        forall|i: int| pos < i < end ==> text[i] != '"' && text[i] != '\\',
        text[end] == '"',
    ensures
        spec_string(text, pos) == Ok::<(Seq<char>, int), Failure>(
            (text.subrange(pos + 1, end), end + 1),
        ),
{
    lemma_plain_run(text, pos + 1, end, Seq::empty());
    assert(Seq::<char>::empty() + text.subrange(pos + 1, end) =~= text.subrange(pos + 1, end));
}

proof fn lemma_plain_body(text: Seq<char>, pos: int, decoded: Seq<char>)
    requires
        0 <= pos <= text.len() <= usize::MAX,
        forall|i: int| pos <= i < text.len() ==> text[i] != '"' && text[i] != '\\',
    ensures
        spec_string_body(text, pos, decoded) == Err::<(Seq<char>, int), Failure>(
            fatal(ErrorKind::UnterminatedString, text.len() as int, Some(Context::String)),
        ),
    decreases text.len() - pos,
{
    if pos < text.len() {
        lemma_plain_body(text, pos + 1, decoded.push(text[pos]));
    }
}

/// A string whose opening quote is followed by neither a quote nor a
/// backslash up to the end of the text fails fatally with
/// `UnterminatedString` at the end of the text, and so does the value that
/// begins with that quote.
pub proof fn law_unterminated_string(text: Seq<char>, pos: int)
    requires
        text.len() <= usize::MAX,
        at(text, pos) == Some('"'),
        forall|i: int| pos < i < text.len() ==> text[i] != '"' && text[i] != '\\',
    ensures
        spec_string(text, pos) == Err::<(Seq<char>, int), Failure>(
            fatal(ErrorKind::UnterminatedString, text.len() as int, Some(Context::String)),
        ),
        spec_json_value(text, pos) == Err::<(Json, int), Failure>(
            fatal(ErrorKind::UnterminatedString, text.len() as int, Some(Context::String)),
        ),
{
    lemma_plain_body(text, pos + 1, Seq::empty());
    lemma_opener_excludes_scalars(text, pos);
}

/// Setting a key to a well-formed value keeps the members well formed.
proof fn lemma_with_member_well_formed(
    members: Seq<(Seq<char>, Json)>,
    key: Seq<char>,
    value: Json,
)
    requires
        Json::Object(members).well_formed(),
        value.well_formed(),
    ensures
        Json::Object(with_member(members, key, value)).well_formed(),
{
    let after = with_member(members, key, value);
    lemma_with_member_unique(members, key, value);
    lemma_with_member_keys(members, key, value);
    assert forall|i: int| 0 <= i < after.len() implies (#[trigger] after[i]).1.well_formed() by {
        if i < members.len() {
            assert(members[i].1.well_formed());
        }
    }
}

proof fn lemma_value_well_formed(text: Seq<char>, pos: int)
    ensures
        spec_json_value(text, pos) matches Ok((value, _)) ==> value.well_formed(),
    decreases text.len() - pos, 2int,
{
    if spec_null(text, pos) is Ok {
    } else if spec_boolean(text, pos) is Ok {
    } else {
        match spec_string(text, pos) {
            Ok(_) => {},
            Err(Failure::Fatal(_)) => {},
            Err(Failure::Recoverable(_)) => match spec_number(text, pos) {
                Ok(_) => {
                    lemma_number_literal(text, pos);
                },
                Err(_) => match spec_array(text, pos) {
                    Ok(_) => {
                        lemma_array_well_formed(text, pos);
                    },
                    Err(Failure::Fatal(_)) => {},
                    Err(Failure::Recoverable(_)) => {
                        lemma_object_well_formed(text, pos);
                    },
                },
            },
        }
    }
}

proof fn lemma_array_well_formed(text: Seq<char>, pos: int)
    ensures
        spec_array(text, pos) matches Ok((items, _)) ==> Json::Array(items).well_formed(),
    decreases text.len() - pos, 1int,
{
    if at(text, pos) == Some('[') {
        lemma_ws_bounds(text, pos + 1);
        lemma_well_formed_items(Seq::empty());
        lemma_elements_well_formed(text, spec_ws(text, pos + 1), Seq::empty());
    }
}

proof fn lemma_elements_well_formed(text: Seq<char>, pos: int, items: Seq<Json>)
    requires
        Json::Array(items).well_formed(),
    ensures
        spec_elements(text, pos, items) matches Ok((all, _)) ==> Json::Array(all).well_formed(),
    decreases text.len() - pos, 3int,
{
    lemma_value_well_formed(text, pos);
    if let Ok((item, end)) = spec_json_value(text, pos) {
        let after = spec_ws(text, end);
        lemma_ws_bounds(text, end);
        lemma_ws_bounds(text, after + 1);
        lemma_well_formed_items(items);
        lemma_well_formed_items(items.push(item));
        assert forall|i: int| 0 <= i < items.push(item).len() implies (#[trigger] items.push(
            item,
        )[i]).well_formed() by {
            if i < items.len() {
                assert(items[i].well_formed());
            }
        }
        if at(text, after) == Some(',') && pos < end {
            lemma_elements_well_formed(text, spec_ws(text, after + 1), items.push(item));
        }
    }
}

proof fn lemma_key_value_well_formed(text: Seq<char>, pos: int)
    ensures
        spec_key_value(text, pos) matches Ok(((_, value), _)) ==> value.well_formed(),
    decreases text.len() - pos, 3int,
{
    lemma_string_bounds(text, pos);
    if let Ok((key, end)) = spec_string(text, pos) {
        let colon = spec_ws(text, end);
        lemma_ws_bounds(text, end);
        if at(text, colon) == Some(':') {
            lemma_ws_bounds(text, colon + 1);
            lemma_value_well_formed(text, spec_ws(text, colon + 1));
        }
    }
}

proof fn lemma_object_well_formed(text: Seq<char>, pos: int)
    ensures
        spec_object(text, pos) matches Ok((members, _)) ==> Json::Object(members).well_formed(),
    decreases text.len() - pos, 1int,
{
    if at(text, pos) == Some('{') {
        lemma_ws_bounds(text, pos + 1);
        lemma_members_well_formed(text, spec_ws(text, pos + 1), Seq::empty());
    }
}

proof fn lemma_members_well_formed(text: Seq<char>, pos: int, members: Seq<(Seq<char>, Json)>)
    requires
        Json::Object(members).well_formed(),
    ensures
        spec_members(text, pos, members) matches Ok((all, _)) ==> Json::Object(all).well_formed(),
    decreases text.len() - pos, 4int,
{
    lemma_key_value_well_formed(text, pos);
    if let Ok(((key, value), end)) = spec_key_value(text, pos) {
        let after = spec_ws(text, end);
        lemma_ws_bounds(text, end);
        lemma_ws_bounds(text, after + 1);
        lemma_with_member_well_formed(members, key, value);
        if at(text, after) == Some(',') && pos < end {
            lemma_members_well_formed(
                text,
                spec_ws(text, after + 1),
                with_member(members, key, value),
            );
        }
    }
}

/// Every parsed value is well formed: each number in it is a number literal,
/// and no object in it has a key twice.
pub proof fn law_well_formed(text: Seq<char>, pos: int)
    ensures
        spec_json_value(text, pos) matches Ok((value, _)) ==> value.well_formed(),
        spec_json(text, pos) matches Ok((value, _)) ==> value.well_formed(),
        spec_object(text, pos) matches Ok((members, _)) ==> unique_keys(members),
{
    lemma_value_well_formed(text, pos);
    lemma_value_well_formed(text, spec_ws(text, pos));
    lemma_object_well_formed(text, pos);
}

} // verus!

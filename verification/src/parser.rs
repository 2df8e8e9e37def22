//! The selector grammar, stated over the UTF-8 bytes of the selector, and the
//! parser that follows it.
//!
//! ```text
//! selector  := [ "$" | Name ] SegTail*
//! SegTail   := "." Name | "[" Bracketed "]"
//! Bracketed := Filter | IndexList
//! Filter    := "?(" "@." Ident ( "==" Literal )? ")"
//! IndexList := Int ( "," Int )*
//! Name      := one or more bytes other than '.', '[', ']'
//! Ident     := [A-Za-z0-9_]+
//! Int       := "-"? [0-9]+
//! Literal   := "true" | "false" | "null" | Int | JSON string literal
//! ```
use crate::json::{number_of_int, Json, JsonNumber, JsonValue};
use crate::jsonpath::{
    ints, segments_view, FilterExpr, FilterModel, JsonPath, JsonPathError, PathError, Segment,
    SegmentModel, MAX_SEGMENTS,
};
use crate::text::{
    is_whitespace_spec, leading_whitespace, lemma_boundary_after_ascii, lemma_boundary_at_ascii,
    lemma_leading_whitespace, slice_str, strip_bom, strip_bom_spec, text_between,
    trailing_whitespace, trim, trim_spec, utf8,
};
use vstd::prelude::*;
use vstd::utf8::{encode_utf8_valid_utf8, is_char_boundary};

verus! {

/// The bytes of the grammar's punctuation.
pub const DOLLAR: u8 = 0x24;

pub const AT_SIGN: u8 = 0x40;

pub const DOT: u8 = 0x2e;

pub const OPEN_BRACKET: u8 = 0x5b;

pub const CLOSE_BRACKET: u8 = 0x5d;

pub const QUESTION: u8 = 0x3f;

pub const OPEN_PAREN: u8 = 0x28;

pub const CLOSE_PAREN: u8 = 0x29;

pub const COMMA: u8 = 0x2c;

pub const MINUS: u8 = 0x2d;

pub const QUOTE: u8 = 0x22;

pub const BACKSLASH: u8 = 0x5c;

pub const EQUALS: u8 = 0x3d;

/// The bytes that end a name.
pub open spec fn ends_name(b: u8) -> bool {
    b == DOT || b == OPEN_BRACKET || b == CLOSE_BRACKET
}

/// ASCII whitespace: space, tab, line feed, form feed, carriage return.
pub open spec fn is_space(b: u8) -> bool {
    b == 0x20 || b == 0x09 || b == 0x0a || b == 0x0c || b == 0x0d
}

/// ASCII digits.
pub open spec fn is_digit(b: u8) -> bool {
    0x30 <= b <= 0x39
}

/// The bytes of an identifier: ASCII letters, digits and `_`.
pub open spec fn is_ident_byte(b: u8) -> bool {
    (0x41 <= b <= 0x5a) || (0x61 <= b <= 0x7a) || is_digit(b) || b == 0x5f
}

/// Whether `pattern` stands in `bytes` at `at`.
pub open spec fn has_at(bytes: Seq<u8>, at: int, pattern: Seq<u8>) -> bool {
    &&& 0 <= at
    &&& at + pattern.len() <= bytes.len()
    &&& bytes.subrange(at, at + pattern.len()) == pattern
}

/// The byte at `at`, if there is one.
pub open spec fn byte_at(bytes: Seq<u8>, at: int) -> Option<u8> {
    if 0 <= at < bytes.len() {
        Some(bytes[at])
    } else {
        None
    }
}

/// The first position from `at` on that holds a byte for which `stop` holds,
/// or the end.
pub open spec fn scan(bytes: Seq<u8>, at: int, stop: spec_fn(u8) -> bool) -> int
    decreases bytes.len() - at,
{
    if 0 <= at < bytes.len() && !stop(bytes[at]) {
        scan(bytes, at + 1, stop)
    } else {
        at
    }
}

/// What is known of the position that `scan` returns.
pub proof fn lemma_scan(bytes: Seq<u8>, at: int, stop: spec_fn(u8) -> bool)
    ensures
        at <= scan(bytes, at, stop),
        0 <= at <= bytes.len() ==> scan(bytes, at, stop) <= bytes.len(),
        !(0 <= at < bytes.len()) ==> scan(bytes, at, stop) == at,
        0 <= at ==> forall|i: int| at <= i < scan(bytes, at, stop) ==> !stop(#[trigger] bytes[i]),
        0 <= at && scan(bytes, at, stop) < bytes.len() ==> stop(bytes[scan(bytes, at, stop)]),
    decreases bytes.len() - at,
{
    if 0 <= at < bytes.len() && !stop(bytes[at]) {
        lemma_scan(bytes, at + 1, stop);
    }
}

/// Where the name that starts at `at` ends.
pub open spec fn name_end(bytes: Seq<u8>, at: int) -> int {
    scan(bytes, at, |b: u8| ends_name(b))
}

/// The first position from `at` on that holds no ASCII whitespace.
pub open spec fn skip_ws_spec(bytes: Seq<u8>, at: int) -> int {
    scan(bytes, at, |b: u8| !is_space(b))
}

/// Where the digits that start at `at` end.
pub open spec fn digits_end(bytes: Seq<u8>, at: int) -> int {
    scan(bytes, at, |b: u8| !is_digit(b))
}

/// Where the identifier that starts at `at` ends.
pub open spec fn ident_end(bytes: Seq<u8>, at: int) -> int {
    scan(bytes, at, |b: u8| !is_ident_byte(b))
}

/// The number that the decimal digits from `from` up to `to` spell.
pub open spec fn digits_value(bytes: Seq<u8>, from: int, to: int) -> int
    decreases to - from,
{
    if to <= from {
        0
    } else {
        digits_value(bytes, from, to - 1) * 10 + (bytes[to - 1] - 0x30)
    }
}

/// The error of a text that leaves the grammar at `at`.
pub open spec fn invalid(at: int, msg: Seq<char>) -> PathError {
    PathError::Invalid { at: at as nat, msg }
}

/// A name at `at`: its end, or the error where there is none.
pub open spec fn parse_name_spec(bytes: Seq<u8>, at: int) -> Result<int, PathError> {
    if at >= bytes.len() || name_end(bytes, at) == at {
        Err(invalid(at, "expected name"@))
    } else {
        Ok(name_end(bytes, at))
    }
}

/// An identifier at `at`: its end, or the error where there is none.
pub open spec fn parse_ident_spec(bytes: Seq<u8>, at: int) -> Result<int, PathError> {
    if at >= bytes.len() || ident_end(bytes, at) == at {
        Err(invalid(at, "expected identifier"@))
    } else {
        Ok(ident_end(bytes, at))
    }
}

/// A signed 64-bit decimal integer at `at`: its value and its end.
pub open spec fn parse_int_spec(bytes: Seq<u8>, at: int) -> Result<(i64, int), PathError> {
    if at < 0 || at >= bytes.len() {
        Err(invalid(at, "expected int"@))
    } else {
        let negative = bytes[at] == MINUS;
        let start = if negative {
            at + 1
        } else {
            at
        };
        let end = digits_end(bytes, start);
        let magnitude = digits_value(bytes, start, end);
        let value = if negative {
            -magnitude
        } else {
            magnitude
        };
        if end == start {
            Err(invalid(at, "expected int"@))
        } else if value < i64::MIN || value > i64::MAX {
            Err(invalid(at, "invalid int"@))
        } else {
            Ok((value as i64, end))
        }
    }
}

/// A list of integers separated by commas, with optional whitespace around
/// each, appended to `found`.
pub open spec fn parse_indices_spec(bytes: Seq<u8>, at: int, found: Seq<int>) -> Result<
    (Seq<int>, int),
    PathError,
>
    decreases bytes.len() - at,
{
    if at < 0 {
        Err(invalid(at, "expected int"@))
    } else {
        let start = skip_ws_spec(bytes, at);
        match parse_int_spec(bytes, start) {
            Err(e) => Err(e),
            Ok((value, next)) => {
                let after = skip_ws_spec(bytes, next);
                let all = found.push(value as int);
                if byte_at(bytes, after) == Some(COMMA) {
                    proof {
                        lemma_scan(bytes, at, |b: u8| !is_space(b));
                        lemma_int_advances(bytes, start);
                        lemma_scan(bytes, next, |b: u8| !is_space(b));
                    }
                    parse_indices_spec(bytes, after + 1, all)
                } else {
                    Ok((all, after))
                }
            },
        }
    }
}

/// An integer takes at least one byte and ends inside the text.
pub proof fn lemma_int_advances(bytes: Seq<u8>, at: int)
    ensures
        parse_int_spec(bytes, at) matches Ok((_, next)) ==> at < next <= bytes.len(),
{
    if 0 <= at < bytes.len() {
        let start = if bytes[at] == MINUS {
            at + 1
        } else {
            at
        };
        lemma_scan(bytes, start, |b: u8| !is_digit(b));
    }
}

/// The segment that a list of indices stands for: an index where there is
/// one, a union where there are more.
pub open spec fn indices_segment(indices: Seq<int>) -> SegmentModel {
    if indices.len() == 1 {
        SegmentModel::Index(indices[0])
    } else {
        SegmentModel::UnionIndices(indices)
    }
}

/// A list of indices at `at` as a segment, with its end.
pub open spec fn parse_index_or_union_spec(bytes: Seq<u8>, at: int) -> Result<
    (SegmentModel, int),
    PathError,
> {
    match parse_indices_spec(bytes, at, Seq::empty()) {
        Err(e) => Err(e),
        Ok((indices, next)) => Ok((indices_segment(indices), next)),
    }
}

/// The position of the quote that closes a string literal, scanning from
/// `at`; a backslash takes the byte after it along.
pub open spec fn string_close(bytes: Seq<u8>, at: int) -> Option<int>
    decreases bytes.len() - at,
{
    if at < 0 || at >= bytes.len() {
        None
    } else if bytes[at] == BACKSLASH {
        if at + 2 <= bytes.len() {
            string_close(bytes, at + 2)
        } else {
            None
        }
    } else if bytes[at] == QUOTE {
        Some(at)
    } else {
        string_close(bytes, at + 1)
    }
}

/// The text that a JSON string literal stands for; `None` where the literal
/// is not well formed.
pub uninterp spec fn json_string_value(raw: Seq<char>) -> Option<Seq<char>>;

/// The error type of `serde_json`, carried through unread.
#[verifier::external_type_specification]
#[verifier::external_body]
pub struct ExJsonError(serde_json::Error);

/// Decodes a JSON string literal with `serde_json::from_str`. Nothing is
/// proved of the decoding: the contract only gives its result a name,
/// `json_string_value` of the literal's text, which rests on `from_str`
/// returning the same for the same text.
#[verifier::external_body]
fn decode_string_literal(raw: &str) -> (r: Result<String, serde_json::Error>)
    ensures
        match r {
            Ok(text) => json_string_value(raw@) == Some(text@),
            Err(_) => json_string_value(raw@) is None,
        },
{
    serde_json::from_str::<String>(raw)
}

/// The bytes of `true`.
pub open spec fn word_true() -> Seq<u8> {
    seq![0x74u8, 0x72u8, 0x75u8, 0x65u8]
}

/// The bytes of `false`.
pub open spec fn word_false() -> Seq<u8> {
    seq![0x66u8, 0x61u8, 0x6cu8, 0x73u8, 0x65u8]
}

/// The bytes of `null`.
pub open spec fn word_null() -> Seq<u8> {
    seq![0x6eu8, 0x75u8, 0x6cu8, 0x6cu8]
}

/// The literal of a filter at `at`: its value and its end.
pub open spec fn parse_literal_spec(bytes: Seq<u8>, at: int) -> Result<(Json, int), PathError> {
    if has_at(bytes, at, word_true()) {
        Ok((Json::Bool(true), at + 4))
    } else if has_at(bytes, at, word_false()) {
        Ok((Json::Bool(false), at + 5))
    } else if has_at(bytes, at, word_null()) {
        Ok((Json::Null, at + 4))
    } else if byte_at(bytes, at) == Some(QUOTE) {
        match string_close(bytes, at + 1) {
            Some(close) => match json_string_value(text_between(bytes, at, close + 1)) {
                Some(text) => Ok((Json::String(text), close + 1)),
                None => Err(invalid(at, "invalid string literal"@)),
            },
            None => Err(invalid(at, "unterminated string literal"@)),
        }
    } else {
        match parse_int_spec(bytes, at) {
            Err(e) => Err(e),
            Ok((value, next)) => Ok((Json::Number(number_of_int(value)), next)),
        }
    }
}

/// The inside of a filter, from after `?(` up to before `)`.
pub open spec fn parse_filter_spec(bytes: Seq<u8>, at: int) -> Result<
    (FilterModel, int),
    PathError,
> {
    let start = skip_ws_spec(bytes, at);
    if !has_at(bytes, start, seq![AT_SIGN, DOT]) {
        Err(PathError::Unsupported("filter must start with @."@))
    } else {
        match parse_ident_spec(bytes, start + 2) {
            Err(e) => Err(e),
            Ok(name_stop) => {
                let name = text_between(bytes, start + 2, name_stop);
                let after = skip_ws_spec(bytes, name_stop);
                if has_at(bytes, after, seq![EQUALS, EQUALS]) {
                    match parse_literal_spec(bytes, skip_ws_spec(bytes, after + 2)) {
                        Err(e) => Err(e),
                        Ok((literal, next)) => Ok((FilterModel::Equals(name, literal), next)),
                    }
                } else {
                    Ok((FilterModel::Exists(name), after))
                }
            },
        }
    }
}

/// What stands between `[` and the end of the segment, from `at` on.
pub open spec fn parse_bracket_spec(bytes: Seq<u8>, at: int) -> Result<
    (SegmentModel, int),
    PathError,
> {
    if at >= bytes.len() {
        Err(invalid(at, "unterminated ["@))
    } else if bytes[at] == QUESTION {
        if byte_at(bytes, at + 1) != Some(OPEN_PAREN) {
            Err(invalid(at + 1, "expected ("@))
        } else {
            match parse_filter_spec(bytes, at + 2) {
                Err(e) => Err(e),
                Ok((expr, next)) => if byte_at(bytes, next) != Some(CLOSE_PAREN) {
                    Err(invalid(next, "expected )"@))
                } else if byte_at(bytes, next + 1) != Some(CLOSE_BRACKET) {
                    Err(invalid(next + 1, "expected ]"@))
                } else {
                    Ok((SegmentModel::Filter(expr), next + 2))
                },
            }
        }
    } else {
        match parse_index_or_union_spec(bytes, at) {
            Err(e) => Err(e),
            Ok((segment, next)) => if byte_at(bytes, next) != Some(CLOSE_BRACKET) {
                Err(invalid(next, "expected ]"@))
            } else {
                Ok((segment, next + 1))
            },
        }
    }
}

/// The segment that starts at `at`, a position inside the text.
#[verifier::opaque]
pub open spec fn parse_segment_spec(bytes: Seq<u8>, at: int) -> Result<
    (SegmentModel, int),
    PathError,
> {
    if bytes[at] == DOT {
        match parse_name_spec(bytes, at + 1) {
            Err(e) => Err(e),
            Ok(stop) => Ok((SegmentModel::Child(text_between(bytes, at + 1, stop)), stop)),
        }
    } else if bytes[at] == OPEN_BRACKET {
        parse_bracket_spec(bytes, at + 1)
    } else {
        Err(invalid(at, "unexpected character"@))
    }
}

/// A list of indices takes at least one byte and ends inside the text.
pub proof fn lemma_indices_advance(bytes: Seq<u8>, at: int, found: Seq<int>)
    ensures
        parse_indices_spec(bytes, at, found) matches Ok((_, next)) ==> at < next <= bytes.len(),
    decreases bytes.len() - at,
{
    if at >= 0 {
        let start = skip_ws_spec(bytes, at);
        lemma_scan(bytes, at, |b: u8| !is_space(b));
        lemma_int_advances(bytes, start);
        if let Ok((value, next)) = parse_int_spec(bytes, start) {
            lemma_scan(bytes, next, |b: u8| !is_space(b));
            let after = skip_ws_spec(bytes, next);
            if byte_at(bytes, after) == Some(COMMA) {
                lemma_indices_advance(bytes, after + 1, found.push(value as int));
            }
        }
    }
}

/// The closing quote of a string literal stands inside the text.
pub proof fn lemma_string_close(bytes: Seq<u8>, at: int)
    ensures
        string_close(bytes, at) matches Some(close) ==> at <= close < bytes.len() && bytes[close]
            == QUOTE,
    decreases bytes.len() - at,
{
    if 0 <= at < bytes.len() {
        if bytes[at] == BACKSLASH {
            if at + 2 <= bytes.len() {
                lemma_string_close(bytes, at + 2);
            }
        } else if bytes[at] != QUOTE {
            lemma_string_close(bytes, at + 1);
        }
    }
}

/// A literal takes at least one byte and ends inside the text.
pub proof fn lemma_literal_advances(bytes: Seq<u8>, at: int)
    ensures
        parse_literal_spec(bytes, at) matches Ok((_, next)) ==> at < next <= bytes.len(),
{
    lemma_string_close(bytes, at + 1);
    lemma_int_advances(bytes, at);
}

/// The inside of a filter takes at least three bytes and ends inside the text.
pub proof fn lemma_filter_advances(bytes: Seq<u8>, at: int)
    requires
        0 <= at,
    ensures
        parse_filter_spec(bytes, at) matches Ok((_, next)) ==> at + 3 <= next <= bytes.len(),
{
    {
        lemma_scan(bytes, at, |b: u8| !is_space(b));
        let start = skip_ws_spec(bytes, at);
        if has_at(bytes, start, seq![AT_SIGN, DOT]) {
            if let Ok(name_stop) = parse_ident_spec(bytes, start + 2) {
                lemma_scan(bytes, start + 2, |b: u8| !is_ident_byte(b));
                lemma_scan(bytes, name_stop, |b: u8| !is_space(b));
                let after = skip_ws_spec(bytes, name_stop);
                if has_at(bytes, after, seq![EQUALS, EQUALS]) {
                    lemma_scan(bytes, after + 2, |b: u8| !is_space(b));
                    lemma_literal_advances(bytes, skip_ws_spec(bytes, after + 2));
                }
            }
        }
    }
}

/// A segment takes at least one byte and ends inside the text.
pub proof fn lemma_segment_advances(bytes: Seq<u8>, at: int)
    requires
        0 <= at < bytes.len(),
    ensures
        parse_segment_spec(bytes, at) matches Ok((_, next)) ==> at < next <= bytes.len(),
{
    reveal(parse_segment_spec);
    if bytes[at] == DOT {
        if at + 1 < bytes.len() {
            lemma_scan(bytes, at + 1, |b: u8| ends_name(b));
        }
    } else if bytes[at] == OPEN_BRACKET {
        if at + 1 < bytes.len() {
            if bytes[at + 1] == QUESTION {
                lemma_filter_advances(bytes, at + 3);
            } else {
                lemma_indices_advance(bytes, at + 1, Seq::empty());
            }
        }
    }
}

/// The segments from `at` to the end of the text, appended to `found`; more
/// than `MAX_SEGMENTS` in all is an error as soon as it is seen.
pub open spec fn parse_segments_spec(bytes: Seq<u8>, at: int, found: Seq<SegmentModel>) -> Result<
    Seq<SegmentModel>,
    PathError,
>
    decreases bytes.len() - at,
{
    if at < 0 || at >= bytes.len() {
        Ok(found)
    } else {
        match parse_segment_spec(bytes, at) {
            Err(e) => Err(e),
            Ok((segment, next)) => {
                let all = found.push(segment);
                if all.len() > MAX_SEGMENTS {
                    Err(PathError::TooDeep)
                } else {
                    proof {
                        lemma_segment_advances(bytes, at);
                    }
                    parse_segments_spec(bytes, next, all)
                }
            },
        }
    }
}

/// A selector without surrounding whitespace, as bytes: `$` or a first name,
/// then segments.
pub open spec fn parse_selector_spec(bytes: Seq<u8>) -> Result<Seq<SegmentModel>, PathError> {
    if bytes.len() == 0 {
        Err(PathError::Empty)
    } else if bytes[0] == DOLLAR {
        parse_segments_spec(bytes, 1, Seq::empty())
    } else if bytes[0] == AT_SIGN {
        Err(PathError::Unsupported("leading @"@))
    } else {
        match parse_name_spec(bytes, 0) {
            Err(e) => Err(e),
            Ok(stop) => parse_segments_spec(
                bytes,
                stop,
                seq![SegmentModel::Child(text_between(bytes, 0, stop))],
            ),
        }
    }
}

/// What parsing a selector text gives: a byte order mark and surrounding
/// whitespace are taken away first.
pub open spec fn parse_spec(input: Seq<char>) -> Result<Seq<SegmentModel>, PathError> {
    parse_selector_spec(utf8(trim_spec(strip_bom_spec(input))))
}

fn is_space_byte(b: u8) -> (r: bool)
    ensures
        r == is_space(b),
{
    b == 0x20 || b == 0x09 || b == 0x0a || b == 0x0c || b == 0x0d
}

fn is_digit_byte(b: u8) -> (r: bool)
    ensures
        r == is_digit(b),
{
    0x30 <= b && b <= 0x39
}

fn is_ident(b: u8) -> (r: bool)
    ensures
        r == is_ident_byte(b),
{
    (0x41 <= b && b <= 0x5a) || (0x61 <= b && b <= 0x7a) || is_digit_byte(b) || b == 0x5f
}

/// Whether `pattern` stands in `bytes` at offset `at`.
pub fn has_bytes_at(bytes: &[u8], at: usize, pattern: &[u8]) -> (r: bool)
    ensures
        r == has_at(bytes@, at as int, pattern@),
{
    if at > bytes.len() || pattern.len() > bytes.len() - at {
        return false;
    }
    let mut i: usize = 0;
    while i < pattern.len()
        invariant
            i <= pattern.len(),
            at + pattern.len() <= bytes.len(),
            forall|k: int| 0 <= k < i ==> bytes@[at + k] == pattern@[k],
        decreases pattern.len() - i,
    {
        if bytes[at + i] != pattern[i] {
            assert(bytes@.subrange(at as int, at + pattern@.len())[i as int] != pattern@[i as int]);
            return false;
        }
        i += 1;
    }
    assert(bytes@.subrange(at as int, at + pattern@.len()) =~= pattern@);
    true
}

/// The first position from `at` on that holds no ASCII whitespace.
pub fn skip_ws(s: &str, at: usize) -> (r: usize)
    ensures
        r == skip_ws_spec(utf8(s@), at as int),
        at <= r,
        at <= utf8(s@).len() ==> r <= utf8(s@).len(),
{
    let bytes = s.as_bytes();
    let mut i = at;
    while i < bytes.len() && is_space_byte(bytes[i])
        invariant
            at <= i,
            at <= bytes@.len() ==> i <= bytes@.len(),
            skip_ws_spec(bytes@, i as int) == skip_ws_spec(bytes@, at as int),
        decreases bytes.len() - i,
    {
        i += 1;
    }
    i
}

/// Reads the name that starts at byte offset `at`: the bytes up to the next
/// `.`, `[` or `]`, at least one.
pub fn parse_name(s: &str, at: usize) -> (r: Result<String, JsonPathError>)
    requires
        at < utf8(s@).len() ==> is_char_boundary(utf8(s@), at as int),
    ensures
        match r {
            Ok(name) => parse_name_spec(utf8(s@), at as int) matches Ok(stop) && name@
                == text_between(utf8(s@), at as int, stop) && utf8(name@).len() == stop - at,
            Err(e) => parse_name_spec(utf8(s@), at as int) == Err::<int, PathError>(e@),
        },
{
    let bytes = s.as_bytes();
    if at >= bytes.len() {
        return Err(JsonPathError::Invalid { at, msg: "expected name" });
    }
    let mut end = at;
    while end < bytes.len() && !(bytes[end] == DOT || bytes[end] == OPEN_BRACKET || bytes[end]
        == CLOSE_BRACKET)
        invariant
            at <= end <= bytes@.len(),
            name_end(bytes@, end as int) == name_end(bytes@, at as int),
        decreases bytes.len() - end,
    {
        end += 1;
    }
    if end == at {
        return Err(JsonPathError::Invalid { at, msg: "expected name" });
    }
    proof {
        encode_utf8_valid_utf8(s@);
        lemma_boundary_at_ascii(bytes@, end as int);
    }
    let name = slice_str(s, at, end);
    Ok(name.to_owned())
}

/// Reads the identifier that starts at byte offset `at`: ASCII letters,
/// digits and `_`, at least one. Returns it with the offset after it.
pub fn parse_ident(s: &str, at: usize) -> (r: Result<(String, usize), JsonPathError>)
    ensures
        match r {
            Ok((name, next)) => parse_ident_spec(utf8(s@), at as int) == Ok::<int, PathError>(
                next as int,
            ) && name@ == text_between(utf8(s@), at as int, next as int) && at < next <= utf8(
                s@,
            ).len(),
            Err(e) => parse_ident_spec(utf8(s@), at as int) == Err::<int, PathError>(e@),
        },
{
    let bytes = s.as_bytes();
    if at >= bytes.len() {
        return Err(JsonPathError::Invalid { at, msg: "expected identifier" });
    }
    let mut i = at;
    while i < bytes.len() && is_ident(bytes[i])
        invariant
            at <= i <= bytes@.len(),
            ident_end(bytes@, i as int) == ident_end(bytes@, at as int),
            forall|k: int| at <= k < i ==> is_ident_byte(#[trigger] bytes@[k]),
        decreases bytes.len() - i,
    {
        i += 1;
    }
    if i == at {
        return Err(JsonPathError::Invalid { at, msg: "expected identifier" });
    }
    proof {
        encode_utf8_valid_utf8(s@);
        assert(is_ident_byte(bytes@[at as int]));
        lemma_boundary_at_ascii(bytes@, at as int);
        assert(is_ident_byte(bytes@[i - 1]));
        lemma_boundary_after_ascii(bytes@, i - 1);
    }
    let name = slice_str(s, at, i);
    Ok((name.to_owned(), i))
}

/// Each further digit makes the number no smaller.
proof fn lemma_digits_value_grows(bytes: Seq<u8>, from: int, to: int)
    requires
        from <= to,
        forall|k: int| from <= k < to ==> is_digit(#[trigger] bytes[k]),
    ensures
        0 <= digits_value(bytes, from, to),
    decreases to - from,
{
    if from < to {
        lemma_digits_value_grows(bytes, from, to - 1);
    }
}

/// Reads the decimal integer that starts at byte offset `at`: an optional
/// `-`, then digits, at least one. Returns it with the offset after it; a
/// number outside the signed 64-bit range is an error.
pub fn parse_int(s: &str, at: usize) -> (r: Result<(i64, usize), JsonPathError>)
    ensures
        match r {
            Ok((value, next)) => parse_int_spec(utf8(s@), at as int) == Ok::<
                (i64, int),
                PathError,
            >((value, next as int)) && at < next <= utf8(s@).len(),
            Err(e) => parse_int_spec(utf8(s@), at as int) == Err::<(i64, int), PathError>(e@),
        },
{
    let bytes = s.as_bytes();
    if at >= bytes.len() {
        return Err(JsonPathError::Invalid { at, msg: "expected int" });
    }
    let negative = bytes[at] == MINUS;
    let start = if negative {
        at + 1
    } else {
        at
    };
    let mut i = start;
    let mut magnitude: u64 = 0;
    let mut overflow = false;
    while i < bytes.len() && is_digit_byte(bytes[i])
        invariant
            start <= i <= bytes@.len(),
            digits_end(bytes@, i as int) == digits_end(bytes@, start as int),
            forall|k: int| start <= k < i ==> is_digit(#[trigger] bytes@[k]),
            !overflow ==> magnitude == digits_value(bytes@, start as int, i as int) && magnitude
                <= 0x8000_0000_0000_0000u64,
            overflow ==> digits_value(bytes@, start as int, i as int) > 0x8000_0000_0000_0000u64,
        decreases bytes.len() - i,
    {
        let digit = (bytes[i] - 0x30) as u128;
        proof {
            lemma_digits_value_grows(bytes@, start as int, i as int);
            assert(digits_value(bytes@, start as int, i + 1) == digits_value(
                bytes@,
                start as int,
                i as int,
            ) * 10 + (bytes@[i as int] - 0x30));
        }
        if !overflow {
            let wide: u128 = (magnitude as u128) * 10 + digit;
            if wide > 0x8000_0000_0000_0000u128 {
                overflow = true;
            } else {
                magnitude = wide as u64;
            }
        }
        i += 1;
    }
    if i == start {
        return Err(JsonPathError::Invalid { at, msg: "expected int" });
    }
    if overflow {
        return Err(JsonPathError::Invalid { at, msg: "invalid int" });
    }
    if negative {
        if magnitude == 0x8000_0000_0000_0000u64 {
            Ok((i64::MIN, i))
        } else {
            Ok((-(magnitude as i64), i))
        }
    } else {
        if magnitude > 0x7fff_ffff_ffff_ffffu64 {
            Err(JsonPathError::Invalid { at, msg: "invalid int" })
        } else {
            Ok((magnitude as i64, i))
        }
    }
}

/// Reads a list of indices that starts at byte offset `at`. One index is an
/// `Index` segment, more are a `UnionIndices` segment. Returns the segment
/// with the offset of the first byte that is not part of the list.
pub fn parse_index_or_union(s: &str, at: usize) -> (r: Result<(Segment, usize), JsonPathError>)
    ensures
        match r {
            Ok((segment, next)) => parse_index_or_union_spec(utf8(s@), at as int) == Ok::<
                (SegmentModel, int),
                PathError,
            >((segment@, next as int)) && at < next <= utf8(s@).len(),
            Err(e) => parse_index_or_union_spec(utf8(s@), at as int) == Err::<
                (SegmentModel, int),
                PathError,
            >(e@),
        },
{
    let bytes = s.as_bytes();
    let ghost goal = parse_indices_spec(bytes@, at as int, Seq::empty());
    let mut indices: Vec<i64> = Vec::new();
    let mut cur = at;
    let mut done = false;
    proof {
        assert(ints(indices@) =~= Seq::<int>::empty());
        lemma_indices_advance(bytes@, at as int, Seq::empty());
    }
    while !done
        invariant
            bytes@ == utf8(s@),
            at <= cur,
            goal == parse_indices_spec(bytes@, at as int, Seq::empty()),
            !done ==> parse_indices_spec(bytes@, cur as int, ints(indices@)) == goal,
            done ==> goal == Ok::<(Seq<int>, int), PathError>((ints(indices@), cur as int)),
            done ==> cur <= bytes@.len(),
        decreases
                (if done {
                    0
                } else if cur <= bytes@.len() {
                    bytes@.len() - cur + 2
                } else {
                    1
                }),
    {
        let ghost found = ints(indices@);
        let start = skip_ws(s, cur);
        match parse_int(s, start) {
            Err(e) => {
                assert(parse_indices_spec(bytes@, cur as int, found) == Err::<
                    (Seq<int>, int),
                    PathError,
                >(e@));
                return Err(e);
            },
            Ok((value, next)) => {
                indices.push(value);
                proof {
                    assert(ints(indices@) =~= found.push(value as int));
                }
                let after = skip_ws(s, next);
                if after < bytes.len() && bytes[after] == COMMA {
                    cur = after + 1;
                } else {
                    cur = after;
                    done = true;
                }
            },
        }
    }
    if indices.len() == 1 {
        let only = indices[0];
        proof {
            assert(ints(indices@)[0] == only as int);
        }
        Ok((Segment::Index(only), cur))
    } else {
        Ok((Segment::UnionIndices(indices), cur))
    }
}

/// The literal that a decoded string literal gives, or the error where the
/// literal did not decode. `at` is where the literal starts, `next` where
/// it ends.
pub fn string_literal_value(decoded: Option<String>, at: usize, next: usize) -> (r: Result<
    (JsonValue, usize),
    JsonPathError,
>)
    ensures
        match decoded {
            Some(text) => r matches Ok((value, n)) && value@ == Json::String(text@) && n == next,
            None => r matches Err(e) && e@ == invalid(at as int, "invalid string literal"@),
        },
{
    match decoded {
        Some(text) => Ok((JsonValue::String(text), next)),
        None => Err(JsonPathError::Invalid { at, msg: "invalid string literal" }),
    }
}

/// Reads the literal that starts at byte offset `at`: `true`, `false`,
/// `null`, a JSON string literal or a signed integer. Returns it with the
/// offset after it.
pub fn parse_literal(s: &str, at: usize) -> (r: Result<(JsonValue, usize), JsonPathError>)
    ensures
        match r {
            Ok((value, next)) => parse_literal_spec(utf8(s@), at as int) == Ok::<
                (Json, int),
                PathError,
            >((value@, next as int)) && at < next <= utf8(s@).len(),
            Err(e) => parse_literal_spec(utf8(s@), at as int) == Err::<(Json, int), PathError>(
                e@,
            ),
        },
{
    let bytes = s.as_bytes();
    let len = bytes.len();
    let true_bytes: [u8; 4] = [0x74, 0x72, 0x75, 0x65];
    let false_bytes: [u8; 5] = [0x66, 0x61, 0x6c, 0x73, 0x65];
    let null_bytes: [u8; 4] = [0x6e, 0x75, 0x6c, 0x6c];
    let true_bytes = true_bytes.as_slice();
    let false_bytes = false_bytes.as_slice();
    let null_bytes = null_bytes.as_slice();
    proof {
        assert(true_bytes@ =~= word_true());
        assert(false_bytes@ =~= word_false());
        assert(null_bytes@ =~= word_null());
    }
    if has_bytes_at(bytes, at, true_bytes) {
        return Ok((JsonValue::Bool(true), at + 4));
    }
    if has_bytes_at(bytes, at, false_bytes) {
        return Ok((JsonValue::Bool(false), at + 5));
    }
    if has_bytes_at(bytes, at, null_bytes) {
        return Ok((JsonValue::Null, at + 4));
    }
    if at < len && bytes[at] == QUOTE {
        let mut i = at + 1;
        while i < len
            invariant
                at < i <= len,
                len == bytes@.len(),
                bytes@ == utf8(s@),
                bytes@[at as int] == QUOTE,
                string_close(bytes@, i as int) == string_close(bytes@, at + 1),
            decreases len - i,
        {
            if bytes[i] == BACKSLASH {
                if len - i >= 2 {
                    i += 2;
                } else {
                    i = len;
                }
            } else if bytes[i] == QUOTE {
                proof {
                    encode_utf8_valid_utf8(s@);
                    lemma_boundary_at_ascii(bytes@, at as int);
                    lemma_boundary_after_ascii(bytes@, i as int);
                }
                let raw = slice_str(s, at, i + 1);
                let decoded = match decode_string_literal(raw) {
                    Ok(text) => Some(text),
                    Err(_) => None,
                };
                return string_literal_value(decoded, at, i + 1);
            } else {
                i += 1;
            }
        }
        return Err(JsonPathError::Invalid { at, msg: "unterminated string literal" });
    }
    match parse_int(s, at) {
        Ok((value, next)) => Ok((JsonValue::Number(JsonNumber::from_i64(value)), next)),
        Err(e) => Err(e),
    }
}

/// Reads the inside of a filter, from after `?(` on: `@.`, an identifier,
/// and optionally `==` and a literal, with whitespace allowed between them.
/// Returns the filter with the offset after it.
pub fn parse_filter(s: &str, at: usize) -> (r: Result<(FilterExpr, usize), JsonPathError>)
    ensures
        match r {
            Ok((expr, next)) => parse_filter_spec(utf8(s@), at as int) == Ok::<
                (FilterModel, int),
                PathError,
            >((expr@, next as int)) && at <= next <= utf8(s@).len(),
            Err(e) => parse_filter_spec(utf8(s@), at as int) == Err::<
                (FilterModel, int),
                PathError,
            >(e@),
        },
{
    let bytes = s.as_bytes();
    assert(bytes@.len() == bytes.len());
    let at_dot: [u8; 2] = [AT_SIGN, DOT];
    let equals: [u8; 2] = [EQUALS, EQUALS];
    let at_dot = at_dot.as_slice();
    let equals = equals.as_slice();
    proof {
        assert(at_dot@ =~= seq![AT_SIGN, DOT]);
        assert(equals@ =~= seq![EQUALS, EQUALS]);
    }
    let start = skip_ws(s, at);
    if !has_bytes_at(bytes, start, at_dot) {
        return Err(JsonPathError::Unsupported("filter must start with @."));
    }
    let (name, name_stop) = match parse_ident(s, start + 2) {
        Ok(found) => found,
        Err(e) => {
            return Err(e);
        },
    };
    let after = skip_ws(s, name_stop);
    if has_bytes_at(bytes, after, equals) {
        let literal_at = skip_ws(s, after + 2);
        match parse_literal(s, literal_at) {
            Ok((literal, next)) => Ok((FilterExpr::Equals(name, literal), next)),
            Err(e) => Err(e),
        }
    } else {
        Ok((FilterExpr::Exists(name), after))
    }
}

/// Reads what stands after `[` at byte offset `at`, up to and with `]`: a
/// filter or a list of indices.
fn parse_bracket(s: &str, at: usize) -> (r: Result<(Segment, usize), JsonPathError>)
    requires
        at <= utf8(s@).len(),
    ensures
        match r {
            Ok((segment, next)) => parse_bracket_spec(utf8(s@), at as int) == Ok::<
                (SegmentModel, int),
                PathError,
            >((segment@, next as int)) && at < next <= utf8(s@).len(),
            Err(e) => parse_bracket_spec(utf8(s@), at as int) == Err::<
                (SegmentModel, int),
                PathError,
            >(e@),
        },
{
    let bytes = s.as_bytes();
    let len = bytes.len();
    if at >= len {
        return Err(JsonPathError::Invalid { at, msg: "unterminated [" });
    }
    if bytes[at] == QUESTION {
        if !(at + 1 < len && bytes[at + 1] == OPEN_PAREN) {
            return Err(JsonPathError::Invalid { at: at + 1, msg: "expected (" });
        }
        let (expr, next) = match parse_filter(s, at + 2) {
            Ok(found) => found,
            Err(e) => {
                return Err(e);
            },
        };
        if !(next < len && bytes[next] == CLOSE_PAREN) {
            return Err(JsonPathError::Invalid { at: next, msg: "expected )" });
        }
        if !(next + 1 < len && bytes[next + 1] == CLOSE_BRACKET) {
            return Err(JsonPathError::Invalid { at: next + 1, msg: "expected ]" });
        }
        Ok((Segment::Filter(expr), next + 2))
    } else {
        let (segment, next) = match parse_index_or_union(s, at) {
            Ok(found) => found,
            Err(e) => {
                return Err(e);
            },
        };
        if !(next < len && bytes[next] == CLOSE_BRACKET) {
            return Err(JsonPathError::Invalid { at: next, msg: "expected ]" });
        }
        Ok((segment, next + 1))
    }
}

/// Reads the segment that starts at byte offset `at`: `.` and a name, or a
/// bracketed filter or index list.
fn parse_segment(s: &str, at: usize) -> (r: Result<(Segment, usize), JsonPathError>)
    requires
        at < utf8(s@).len(),
    ensures
        match r {
            Ok((segment, next)) => parse_segment_spec(utf8(s@), at as int) == Ok::<
                (SegmentModel, int),
                PathError,
            >((segment@, next as int)) && at < next <= utf8(s@).len(),
            Err(e) => parse_segment_spec(utf8(s@), at as int) == Err::<
                (SegmentModel, int),
                PathError,
            >(e@),
        },
{
    let bytes = s.as_bytes();
    assert(bytes@.len() == bytes.len());
    proof {
        reveal(parse_segment_spec);
    }
    if bytes[at] == DOT {
        proof {
            encode_utf8_valid_utf8(s@);
            lemma_boundary_after_ascii(bytes@, at as int);
        }
        match parse_name(s, at + 1) {
            Ok(name) => {
                let ghost stop = parse_name_spec(bytes@, at + 1)->Ok_0;
                let name_len = name.as_str().as_bytes().len();
                assert(name_len == stop - (at + 1));
                proof {
                    lemma_scan(bytes@, at + 1, |b: u8| ends_name(b));
                }
                let next = at + 1 + name_len;
                Ok((Segment::Child(name), next))
            },
            Err(e) => Err(e),
        }
    } else if bytes[at] == OPEN_BRACKET {
        parse_bracket(s, at + 1)
    } else {
        Err(JsonPathError::Invalid { at, msg: "unexpected character" })
    }
}

/// Reads the segments from byte offset `at` to the end of the text and
/// appends them to `segments`.
fn parse_segments(s: &str, at: usize, found: Vec<Segment>) -> (r: Result<
    Vec<Segment>,
    JsonPathError,
>)
    requires
        at <= utf8(s@).len(),
        found@.len() <= MAX_SEGMENTS,
    ensures
        match r {
            Ok(all) => parse_segments_spec(utf8(s@), at as int, segments_view(found@)) == Ok::<
                Seq<SegmentModel>,
                PathError,
            >(segments_view(all@)) && all@.len() <= MAX_SEGMENTS,
            Err(e) => parse_segments_spec(utf8(s@), at as int, segments_view(found@)) == Err::<
                Seq<SegmentModel>,
                PathError,
            >(e@),
        },
{
    let bytes = s.as_bytes();
    let len = bytes.len();
    let ghost goal = parse_segments_spec(bytes@, at as int, segments_view(found@));
    let mut segments = found;
    let mut idx = at;
    while idx < len
        invariant
            idx <= len,
            goal == parse_segments_spec(utf8(s@), at as int, segments_view(found@)),
            len == bytes@.len(),
            bytes@ == utf8(s@),
            segments@.len() <= MAX_SEGMENTS,
            parse_segments_spec(bytes@, idx as int, segments_view(segments@)) == goal,
        decreases len - idx,
    {
        let ghost before = segments_view(segments@);
        match parse_segment(s, idx) {
            Ok((segment, next)) => {
                segments.push(segment);
                proof {
                    assert(segments_view(segments@) =~= before.push(segment@));
                }
                if segments.len() > MAX_SEGMENTS {
                    return Err(JsonPathError::TooDeep);
                }
                idx = next;
            },
            Err(e) => {
                return Err(e);
            },
        }
    }
    Ok(segments)
}

impl JsonPath {
    /// Parses a selector. A leading byte order mark and surrounding
    /// whitespace are ignored; what is left is `$` or a first name, followed
    /// by segments, at most `MAX_SEGMENTS` in all.
    pub fn parse(input: &str) -> (r: Result<JsonPath, JsonPathError>)
        ensures
            match r {
                Ok(path) => parse_spec(input@) == Ok::<Seq<SegmentModel>, PathError>(path@)
                    && path@.len() <= MAX_SEGMENTS,
                Err(e) => parse_spec(input@) == Err::<Seq<SegmentModel>, PathError>(e@),
            },
    {
        let s = trim(strip_bom(input));
        let bytes = s.as_bytes();
        let len = bytes.len();
        if len == 0 {
            return Err(JsonPathError::Empty);
        }
        let mut segments: Vec<Segment> = Vec::new();
        let idx: usize;
        if bytes[0] == DOLLAR {
            idx = 1;
            proof {
                assert(segments_view(segments@) =~= Seq::<SegmentModel>::empty());
            }
        } else if bytes[0] == AT_SIGN {
            return Err(JsonPathError::Unsupported("leading @"));
        } else {
            proof {
                encode_utf8_valid_utf8(s@);
            }
            match parse_name(s, 0) {
                Ok(name) => {
                    idx = name.as_str().as_bytes().len();
                    proof {
                        lemma_scan(bytes@, 0, |b: u8| ends_name(b));
                    }
                    segments.push(Segment::Child(name));
                    proof {
                        assert(segments_view(segments@) =~= seq![
                            SegmentModel::Child(text_between(bytes@, 0, idx as int)),
                        ]);
                    }
                },
                Err(e) => {
                    return Err(e);
                },
            }
        }
        match parse_segments(s, idx, segments) {
            Ok(all) => Ok(JsonPath::from_segments(all)),
            Err(e) => Err(e),
        }
    }
}

/// A selector with nothing in it but whitespace, after an optional byte
/// order mark, is refused as empty. The empty text is one such selector.
pub proof fn lemma_blank_selector_is_empty(input: Seq<char>)
    requires
        forall|i: int|
            0 <= i < strip_bom_spec(input).len() ==> is_whitespace_spec(
                #[trigger] strip_bom_spec(input)[i],
            ),
    ensures
        parse_spec(input) == Err::<Seq<SegmentModel>, PathError>(PathError::Empty),
{
    let text = strip_bom_spec(input);
    lemma_leading_whitespace(text, text.len());
    let rest = text.subrange(text.len() as int, text.len() as int);
    assert(rest.len() == 0);
    assert(trim_spec(text).len() == 0);
    assert(utf8(trim_spec(text)).len() == 0);
}

/// One ASCII character is encoded as the one byte of its code.
proof fn lemma_dollar_byte()
    ensures
        utf8(seq!['$']) == seq![DOLLAR],
{
    let text = seq!['$'];
    assert(text[0] as u32 == 0x24u32);
    assert((0x24u32 & 0x7F) as u8 == 0x24u8) by (bit_vector);
    assert(text.drop_first() =~= Seq::<char>::empty());
    assert(utf8(text.drop_first()) =~= Seq::<u8>::empty());
    assert(utf8(text) =~= seq![DOLLAR]);
}

/// `$` alone is the selector without segments.
pub proof fn lemma_dollar_selector()
    ensures
        parse_spec(seq!['$']) == Ok::<Seq<SegmentModel>, PathError>(Seq::empty()),
{
    let text = seq!['$'];
    assert(strip_bom_spec(text) == text);
    assert(leading_whitespace(text) == 0);
    assert(text.subrange(0, 1) =~= text);
    assert(trailing_whitespace(text) == 0);
    assert(trim_spec(text) =~= text);
    lemma_dollar_byte();
    let bytes = seq![DOLLAR];
    assert(parse_segments_spec(bytes, 1, Seq::empty()) == Ok::<Seq<SegmentModel>, PathError>(
        Seq::empty(),
    ));
}

/// Segments are never accepted beyond `MAX_SEGMENTS`, and the segment that
/// would be one too many is refused as too deep.
pub proof fn lemma_segments_bounded(bytes: Seq<u8>, at: int, found: Seq<SegmentModel>)
    requires
        found.len() <= MAX_SEGMENTS,
    ensures
        parse_segments_spec(bytes, at, found) matches Ok(all) ==> found.len() <= all.len()
            <= MAX_SEGMENTS,
        found.len() == MAX_SEGMENTS && 0 <= at < bytes.len() && parse_segment_spec(bytes, at) is Ok
            ==> parse_segments_spec(bytes, at, found) == Err::<Seq<SegmentModel>, PathError>(
            PathError::TooDeep,
        ),
    decreases bytes.len() - at,
{
    if 0 <= at < bytes.len() {
        if let Ok((segment, next)) = parse_segment_spec(bytes, at) {
            let all = found.push(segment);
            if all.len() <= MAX_SEGMENTS {
                lemma_segment_advances(bytes, at);
                lemma_segments_bounded(bytes, next, all);
            }
        }
    }
}

/// An accepted selector has at most `MAX_SEGMENTS` segments.
pub proof fn lemma_parsed_selector_bounded(input: Seq<char>)
    ensures
        parse_spec(input) matches Ok(selector) ==> selector.len() <= MAX_SEGMENTS,
{
    let bytes = utf8(trim_spec(strip_bom_spec(input)));
    if bytes.len() > 0 {
        if bytes[0] == DOLLAR {
            lemma_segments_bounded(bytes, 1, Seq::empty());
        } else if bytes[0] != AT_SIGN {
            if let Ok(stop) = parse_name_spec(bytes, 0) {
                lemma_segments_bounded(
                    bytes,
                    stop,
                    seq![SegmentModel::Child(text_between(bytes, 0, stop))],
                );
            }
        }
    }
}

} // verus!

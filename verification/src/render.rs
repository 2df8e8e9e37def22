//! The canonical text of a selector, and the proof that parsing it gives
//! the selector back.
use crate::json::{number_of_int, Json, JsonNumber};
use crate::jsonpath::{FilterModel, PathError, SegmentModel, MAX_SEGMENTS};
use crate::parser::{
    byte_at, digits_value, ends_name, has_at, ident_end, is_digit, is_ident_byte, is_space,
    json_string_value, lemma_int_advances, lemma_scan, lemma_string_close, name_end,
    parse_filter_spec, parse_ident_spec, parse_indices_spec, parse_int_spec, parse_literal_spec,
    parse_name_spec, parse_segment_spec, parse_segments_spec, parse_selector_spec, parse_spec, scan,
    skip_ws_spec, string_close, word_false, word_null, word_true, AT_SIGN, BACKSLASH, CLOSE_BRACKET,
    CLOSE_PAREN, COMMA, DOLLAR, DOT, EQUALS, MINUS, OPEN_BRACKET, OPEN_PAREN, QUESTION, QUOTE,
};
use crate::text::{
    is_whitespace_spec, lemma_ascii_valid, lemma_boundary_after_ascii, lemma_boundary_at_ascii,
    lemma_decode_ascii, lemma_decode_concat, lemma_same_code, lemma_trim_clean, lemma_trimmed_ends,
    strip_bom_spec, text_between, trim_spec, utf8,
};
use vstd::prelude::*;
use vstd::utf8::{
    decode_utf8, decode_utf8_encode_utf8, decode_utf8_split, encode_utf8_decode_utf8,
    encode_utf8_valid_utf8, is_char_boundary, is_char_boundary_iff_not_is_continuation_byte,
    is_char_boundary_start_end_of_seq, valid_utf8, valid_utf8_split,
};

verus! {

/// The decimal digits of `n`, as bytes.
pub open spec fn digits(n: nat) -> Seq<u8>
    decreases n,
{
    if n < 10 {
        seq![(0x30 + n) as u8]
    } else {
        digits(n / 10).push((0x30 + n % 10) as u8)
    }
}

/// An integer as it is written: `-` and the digits where it is negative.
pub open spec fn render_int(v: int) -> Seq<u8> {
    if v < 0 {
        seq![MINUS] + digits((-v) as nat)
    } else {
        digits(v as nat)
    }
}

/// A list of at least one index, separated by commas.
pub open spec fn render_indices(indices: Seq<int>) -> Seq<u8>
    decreases indices.len(),
{
    if indices.len() <= 1 {
        if indices.len() == 1 {
            render_int(indices[0])
        } else {
            Seq::empty()
        }
    } else {
        render_int(indices[0]) + seq![COMMA] + render_indices(indices.drop_first())
    }
}

/// `raw` is a string literal, from quote to quote, that stands for `text`.
pub open spec fn is_raw_literal(raw: Seq<u8>, text: Seq<char>) -> bool {
    &&& raw.len() >= 2
    &&& raw[0] == QUOTE
    &&& string_close(raw, 1) == Some(raw.len() - 1)
    &&& valid_utf8(raw)
    &&& json_string_value(decode_utf8(raw)) == Some(text)
}

/// A string literal that stands for `text`, where there is one.
pub open spec fn raw_literal(text: Seq<char>) -> Seq<u8> {
    choose|raw: Seq<u8>| is_raw_literal(raw, text)
}

/// The signed integer that a number of a filter literal stands for.
pub open spec fn int_of_number(n: JsonNumber) -> int {
    match n {
        JsonNumber::PosInt(u) => u as int,
        JsonNumber::NegInt(i) => i as int,
        JsonNumber::Float(_) => 0,
    }
}

/// The literal of a filter as it is written.
pub open spec fn render_literal(literal: Json) -> Seq<u8> {
    match literal {
        Json::Bool(b) => if b {
            word_true()
        } else {
            word_false()
        },
        Json::Number(n) => render_int(int_of_number(n)),
        Json::String(text) => raw_literal(text),
        _ => word_null(),
    }
}

/// The inside of a filter as it is written, without whitespace.
pub open spec fn render_filter(expr: FilterModel) -> Seq<u8> {
    match expr {
        FilterModel::Exists(name) => seq![AT_SIGN, DOT] + utf8(name),
        FilterModel::Equals(name, literal) => seq![AT_SIGN, DOT] + utf8(name) + seq![
            EQUALS,
            EQUALS,
        ] + render_literal(literal),
    }
}

/// A segment as it is written.
pub open spec fn render_segment(segment: SegmentModel) -> Seq<u8> {
    match segment {
        SegmentModel::Child(name) => seq![DOT] + utf8(name),
        SegmentModel::Index(i) => seq![OPEN_BRACKET] + render_int(i) + seq![CLOSE_BRACKET],
        SegmentModel::UnionIndices(indices) => seq![OPEN_BRACKET] + render_indices(indices) + seq![
            CLOSE_BRACKET,
        ],
        SegmentModel::Filter(expr) => seq![OPEN_BRACKET, QUESTION, OPEN_PAREN] + render_filter(expr)
            + seq![CLOSE_PAREN, CLOSE_BRACKET],
    }
}

/// The segments as they are written, one after the other.
pub open spec fn render_segments(segments: Seq<SegmentModel>) -> Seq<u8>
    decreases segments.len(),
{
    if segments.len() == 0 {
        Seq::empty()
    } else {
        render_segment(segments[0]) + render_segments(segments.drop_first())
    }
}

/// The canonical text of a selector, as bytes: `$` and the segments.
pub open spec fn render(selector: Seq<SegmentModel>) -> Seq<u8> {
    seq![DOLLAR] + render_segments(selector)
}

/// The integer is in the signed 64-bit range.
pub open spec fn fits_i64(v: int) -> bool {
    i64::MIN <= v <= i64::MAX
}

/// A name as the parser gives it: not empty, and without `.`, `[` and `]`.
pub open spec fn is_name(name: Seq<char>) -> bool {
    utf8(name).len() > 0 && forall|i: int|
        0 <= i < utf8(name).len() ==> !ends_name(#[trigger] utf8(name)[i])
}

/// An identifier as the parser gives it.
pub open spec fn is_ident(name: Seq<char>) -> bool {
    utf8(name).len() > 0 && forall|i: int|
        0 <= i < utf8(name).len() ==> is_ident_byte(#[trigger] utf8(name)[i])
}

/// A literal as the parser gives it.
pub open spec fn is_literal(literal: Json) -> bool {
    match literal {
        Json::Null => true,
        Json::Bool(_) => true,
        Json::Number(n) => !(n is Float) && fits_i64(int_of_number(n)) && n == number_of_int(
            int_of_number(n) as i64,
        ),
        Json::String(text) => exists|raw: Seq<u8>| is_raw_literal(raw, text),
        _ => false,
    }
}

/// A segment as the parser gives it.
pub open spec fn is_segment(segment: SegmentModel) -> bool {
    match segment {
        SegmentModel::Child(name) => is_name(name),
        SegmentModel::Index(i) => fits_i64(i),
        SegmentModel::UnionIndices(indices) => indices.len() >= 2 && forall|k: int|
            0 <= k < indices.len() ==> fits_i64(#[trigger] indices[k]),
        SegmentModel::Filter(FilterModel::Exists(name)) => is_ident(name),
        SegmentModel::Filter(FilterModel::Equals(name, literal)) => is_ident(name) && is_literal(
            literal,
        ),
    }
}

/// A selector as the parser gives it.
pub open spec fn is_selector(selector: Seq<SegmentModel>) -> bool {
    selector.len() <= MAX_SEGMENTS && forall|k: int|
        0 <= k < selector.len() ==> is_segment(#[trigger] selector[k])
}

/// The bytes of a piece that stands in a text.
pub proof fn lemma_has_at_bytes(bytes: Seq<u8>, at: int, piece: Seq<u8>)
    requires
        has_at(bytes, at, piece),
    ensures
        forall|i: int| 0 <= i < piece.len() ==> #[trigger] bytes[at + i] == piece[i],
{
    assert forall|i: int| 0 <= i < piece.len() implies #[trigger] bytes[at + i] == piece[i] by {
        assert(bytes.subrange(at, at + piece.len())[i] == piece[i]);
    }
}

/// Two pieces stand one after the other exactly when their join stands.
pub proof fn lemma_has_at_parts(bytes: Seq<u8>, at: int, a: Seq<u8>, b: Seq<u8>)
    requires
        0 <= at,
    ensures
        has_at(bytes, at, a + b) <==> has_at(bytes, at, a) && has_at(bytes, at + a.len(), b),
{
    if has_at(bytes, at, a + b) {
        lemma_has_at_bytes(bytes, at, a + b);
        assert(bytes.subrange(at, at + a.len()) =~= a) by {
            assert forall|i: int| 0 <= i < a.len() implies bytes[at + i] == a[i] by {
                assert((a + b)[i] == a[i]);
            }
        }
        assert(bytes.subrange(at + a.len(), at + a.len() + b.len()) =~= b) by {
            assert forall|i: int| 0 <= i < b.len() implies bytes[at + a.len() + i] == b[i] by {
                assert((a + b)[a.len() + i] == b[i]);
            }
        }
    }
    if has_at(bytes, at, a) && has_at(bytes, at + a.len(), b) {
        lemma_has_at_bytes(bytes, at, a);
        lemma_has_at_bytes(bytes, at + a.len(), b);
        assert(bytes.subrange(at, at + (a + b).len()) =~= a + b) by {
            assert forall|i: int| 0 <= i < (a + b).len() implies bytes[at + i] == (a + b)[i] by {
                if i >= a.len() {
                    assert(bytes[at + a.len() + (i - a.len())] == b[i - a.len()]);
                }
            }
        }
    }
}

/// A scan ends where the first byte stands for which `stop` holds.
pub proof fn lemma_scan_to(bytes: Seq<u8>, at: int, stop: spec_fn(u8) -> bool, end: int)
    requires
        0 <= at <= end <= bytes.len(),
        forall|i: int| at <= i < end ==> !stop(#[trigger] bytes[i]),
        end < bytes.len() ==> stop(bytes[end]),
    ensures
        scan(bytes, at, stop) == end,
    decreases end - at,
{
    if at < end {
        lemma_scan_to(bytes, at + 1, stop, end);
    }
}

/// The digits of a number are digits, at least one, and spell the number.
pub proof fn lemma_digits(bytes: Seq<u8>, at: int, n: nat)
    requires
        has_at(bytes, at, digits(n)),
    ensures
        digits(n).len() >= 1,
        forall|i: int| 0 <= i < digits(n).len() ==> is_digit(#[trigger] digits(n)[i]),
        digits_value(bytes, at, at + digits(n).len()) == n,
        n > 0 ==> digits(n)[0] != 0x30,
    decreases n,
{
    lemma_has_at_bytes(bytes, at, digits(n));
    if n < 10 {
        assert(digits(n).len() == 1);
        assert(digits_value(bytes, at, at) == 0);
        assert(bytes[at + 0] == digits(n)[0]);
    } else {
        let front = digits(n / 10);
        let last = (0x30 + n % 10) as u8;
        assert(digits(n) == front.push(last));
        assert(front.push(last) =~= front + seq![last]);
        lemma_has_at_parts(bytes, at, front, seq![last]);
        lemma_digits(bytes, at, n / 10);
        let end = at + digits(n).len();
        assert(bytes[end - 1] == last) by {
            assert(bytes[at + front.len()] == digits(n)[front.len() as int]);
        }
        assert(digits_value(bytes, at, end) == digits_value(bytes, at, end - 1) * 10 + (bytes[end
            - 1] - 0x30));
        assert forall|i: int| 0 <= i < digits(n).len() implies is_digit(#[trigger] digits(n)[i]) by {
            if i < front.len() {
                assert(digits(n)[i] == front[i]);
            }
        }
        assert(digits(n)[0] == front[0]);
    }
}

/// Parsing an integer as it is written gives the integer.
pub proof fn lemma_parse_rendered_int(bytes: Seq<u8>, at: int, v: int)
    requires
        0 <= at,
        fits_i64(v),
        has_at(bytes, at, render_int(v)),
        byte_at(bytes, at + render_int(v).len()) matches Some(b) ==> !is_digit(b),
    ensures
        parse_int_spec(bytes, at) == Ok::<(i64, int), PathError>(
            (v as i64, at + render_int(v).len()),
        ),
        render_int(v).len() >= 1,
        !is_space(bytes[at]),
{
    let piece = render_int(v);
    lemma_has_at_bytes(bytes, at, piece);
    if v < 0 {
        let n = (-v) as nat;
        lemma_has_at_parts(bytes, at, seq![MINUS], digits(n));
        lemma_digits(bytes, at + 1, n);
        lemma_has_at_bytes(bytes, at + 1, digits(n));
        assert(bytes[at + 0] == piece[0]);
        assert(bytes[at] == MINUS);
        let end = at + 1 + digits(n).len();
        assert forall|i: int| at + 1 <= i < end implies !(|b: u8| !is_digit(b))(
            #[trigger] bytes[i],
        ) by {
            assert(bytes[at + 1 + (i - at - 1)] == digits(n)[i - at - 1]);
        }
        lemma_scan_to(bytes, at + 1, |b: u8| !is_digit(b), end);
    } else {
        let n = v as nat;
        lemma_digits(bytes, at, n);
        assert(bytes[at + 0] == piece[0]);
        assert(is_digit(piece[0]));
        assert(bytes[at] != MINUS);
        let end = at + digits(n).len();
        assert forall|i: int| at <= i < end implies !(|b: u8| !is_digit(b))(#[trigger] bytes[i]) by {
            assert(bytes[at + (i - at)] == digits(n)[i - at]);
        }
        lemma_scan_to(bytes, at, |b: u8| !is_digit(b), end);
    }
}

/// Whitespace is skipped up to a byte that is none.
proof fn lemma_no_space(bytes: Seq<u8>, at: int)
    requires
        0 <= at,
        at < bytes.len() ==> !is_space(bytes[at]),
    ensures
        skip_ws_spec(bytes, at) == at,
{
}

/// Parsing a list of indices as it is written gives the indices.
pub proof fn lemma_parse_rendered_indices(
    bytes: Seq<u8>,
    at: int,
    indices: Seq<int>,
    found: Seq<int>,
)
    requires
        0 <= at,
        indices.len() >= 1,
        forall|k: int| 0 <= k < indices.len() ==> fits_i64(#[trigger] indices[k]),
        has_at(bytes, at, render_indices(indices)),
        byte_at(bytes, at + render_indices(indices).len()) == Some(CLOSE_BRACKET),
    ensures
        parse_indices_spec(bytes, at, found) == Ok::<(Seq<int>, int), PathError>(
            (found + indices, at + render_indices(indices).len()),
        ),
    decreases indices.len(),
{
    let first = render_int(indices[0]);
    if indices.len() == 1 {
        assert(render_indices(indices) == first);
        lemma_parse_rendered_int(bytes, at, indices[0]);
        lemma_no_space(bytes, at);
        let next = at + first.len();
        lemma_no_space(bytes, next);
        assert(found.push(indices[0]) =~= found + indices);
    } else {
        let rest = indices.drop_first();
        let tail = seq![COMMA] + render_indices(rest);
        assert(render_indices(indices) =~= first + tail);
        lemma_has_at_parts(bytes, at, first, tail);
        let next = at + first.len();
        lemma_has_at_parts(bytes, next, seq![COMMA], render_indices(rest));
        lemma_has_at_bytes(bytes, next, seq![COMMA]);
        assert(bytes[next + 0] == COMMA);
        lemma_parse_rendered_int(bytes, at, indices[0]);
        lemma_no_space(bytes, at);
        lemma_no_space(bytes, next);
        assert forall|k: int| 0 <= k < rest.len() implies fits_i64(#[trigger] rest[k]) by {
            assert(rest[k] == indices[k + 1]);
        }
        lemma_parse_rendered_indices(bytes, next + 1, rest, found.push(indices[0]));
        assert(found.push(indices[0]) + rest =~= found + indices);
    }
}

/// Parsing a name as it is written gives the name.
pub proof fn lemma_parse_rendered_name(bytes: Seq<u8>, at: int, name: Seq<char>)
    requires
        0 <= at,
        is_name(name),
        has_at(bytes, at, utf8(name)),
        byte_at(bytes, at + utf8(name).len()) matches Some(b) ==> ends_name(b),
    ensures
        parse_name_spec(bytes, at) == Ok::<int, PathError>(at + utf8(name).len()),
        text_between(bytes, at, at + utf8(name).len()) == name,
{
    let end = at + utf8(name).len();
    lemma_has_at_bytes(bytes, at, utf8(name));
    assert forall|i: int| at <= i < end implies !(|b: u8| ends_name(b))(#[trigger] bytes[i]) by {
        assert(bytes[at + (i - at)] == utf8(name)[i - at]);
    }
    lemma_scan_to(bytes, at, |b: u8| ends_name(b), end);
    encode_utf8_decode_utf8(name);
}

/// Parsing an identifier as it is written gives the identifier.
pub proof fn lemma_parse_rendered_ident(bytes: Seq<u8>, at: int, name: Seq<char>)
    requires
        0 <= at,
        is_ident(name),
        has_at(bytes, at, utf8(name)),
        byte_at(bytes, at + utf8(name).len()) matches Some(b) ==> !is_ident_byte(b),
    ensures
        parse_ident_spec(bytes, at) == Ok::<int, PathError>(at + utf8(name).len()),
        text_between(bytes, at, at + utf8(name).len()) == name,
{
    let end = at + utf8(name).len();
    lemma_has_at_bytes(bytes, at, utf8(name));
    assert forall|i: int| at <= i < end implies !(|b: u8| !is_ident_byte(b))(
        #[trigger] bytes[i],
    ) by {
        assert(bytes[at + (i - at)] == utf8(name)[i - at]);
    }
    lemma_scan_to(bytes, at, |b: u8| !is_ident_byte(b), end);
    encode_utf8_decode_utf8(name);
}

/// The quote that closes a string literal is found wherever the literal
/// stands.
pub proof fn lemma_string_close_in(bytes: Seq<u8>, at: int, raw: Seq<u8>, i: int)
    requires
        0 <= at,
        has_at(bytes, at, raw),
        1 <= i,
        string_close(raw, i) is Some,
    ensures
        string_close(bytes, at + i) == Some(at + string_close(raw, i)->0),
    decreases raw.len() - i,
{
    lemma_has_at_bytes(bytes, at, raw);
    if i < raw.len() {
        assert(bytes[at + i] == raw[i]);
        if raw[i] == BACKSLASH {
            if i + 2 <= raw.len() {
                lemma_string_close_in(bytes, at, raw, i + 2);
            }
        } else if raw[i] != QUOTE {
            lemma_string_close_in(bytes, at, raw, i + 1);
        }
    }
}

/// Parsing a literal as it is written gives the literal.
pub proof fn lemma_parse_rendered_literal(bytes: Seq<u8>, at: int, literal: Json)
    requires
        0 <= at,
        is_literal(literal),
        has_at(bytes, at, render_literal(literal)),
        byte_at(bytes, at + render_literal(literal).len()) == Some(CLOSE_PAREN),
    ensures
        parse_literal_spec(bytes, at) == Ok::<(Json, int), PathError>(
            (literal, at + render_literal(literal).len()),
        ),
        !is_space(bytes[at]),
{
    let piece = render_literal(literal);
    lemma_has_at_bytes(bytes, at, piece);
    match literal {
        Json::Bool(b) => {
            assert(bytes[at + 0] == piece[0]);
            if !b {
                lemma_not_at(bytes, at, word_true());
            }
        },
        Json::Null => {
            assert(bytes[at + 0] == piece[0]);
            lemma_not_at(bytes, at, word_true());
            lemma_not_at(bytes, at, word_false());
        },
        Json::Number(n) => {
            let v = int_of_number(n);
            lemma_parse_rendered_int(bytes, at, v);
            lemma_first_byte_of_int(v);
            assert(bytes[at + 0] == piece[0]);
            lemma_not_at(bytes, at, word_true());
            lemma_not_at(bytes, at, word_false());
            lemma_not_at(bytes, at, word_null());
        },
        Json::String(text) => {
            let raw = raw_literal(text);
            assert(is_raw_literal(raw, text));
            assert(bytes[at + 0] == raw[0]);
            lemma_not_at(bytes, at, word_true());
            lemma_not_at(bytes, at, word_false());
            lemma_not_at(bytes, at, word_null());
            lemma_string_close_in(bytes, at, raw, 1);
            assert(bytes.subrange(at, at + raw.len()) == raw);
        },
        _ => {},
    }
}

/// A piece does not stand where another byte than its first stands.
proof fn lemma_not_at(bytes: Seq<u8>, at: int, piece: Seq<u8>)
    requires
        0 <= at < bytes.len(),
        piece.len() > 0,
        bytes[at] != piece[0],
    ensures
        !has_at(bytes, at, piece),
{
    if has_at(bytes, at, piece) {
        lemma_has_at_bytes(bytes, at, piece);
        assert(bytes[at + 0] == piece[0]);
    }
}

/// An integer is written with `-` or a digit first.
proof fn lemma_first_byte_of_int(v: int)
    ensures
        render_int(v).len() >= 1,
        render_int(v)[0] == MINUS || is_digit(render_int(v)[0]),
{
    if v >= 0 {
        lemma_first_digit(v as nat);
    }
}

/// A number is written with a digit first.
proof fn lemma_first_digit(n: nat)
    ensures
        digits(n).len() >= 1,
        is_digit(digits(n)[0]),
    decreases n,
{
    if n >= 10 {
        lemma_first_digit(n / 10);
        assert(digits(n)[0] == digits(n / 10)[0]);
    }
}

/// Parsing the inside of a filter as it is written gives the filter.
pub proof fn lemma_parse_rendered_filter(bytes: Seq<u8>, at: int, expr: FilterModel)
    requires
        0 <= at,
        is_segment(SegmentModel::Filter(expr)),
        has_at(bytes, at, render_filter(expr)),
        byte_at(bytes, at + render_filter(expr).len()) == Some(CLOSE_PAREN),
    ensures
        parse_filter_spec(bytes, at) == Ok::<(FilterModel, int), PathError>(
            (expr, at + render_filter(expr).len()),
        ),
{
    let head = seq![AT_SIGN, DOT];
    match expr {
        FilterModel::Exists(name) => {
            lemma_has_at_parts(bytes, at, head, utf8(name));
            lemma_has_at_bytes(bytes, at, head);
            assert(bytes[at + 0] == AT_SIGN);
            lemma_no_space(bytes, at);
            lemma_parse_rendered_ident(bytes, at + 2, name);
            let stop = at + 2 + utf8(name).len();
            lemma_no_space(bytes, stop);
            assert(!has_at(bytes, stop, seq![EQUALS, EQUALS])) by {
                if has_at(bytes, stop, seq![EQUALS, EQUALS]) {
                    lemma_has_at_bytes(bytes, stop, seq![EQUALS, EQUALS]);
                    assert(bytes[stop + 0] == EQUALS);
                }
            }
        },
        FilterModel::Equals(name, literal) => {
            let equals = seq![EQUALS, EQUALS];
            let written = render_literal(literal);
            assert(render_filter(expr) =~= head + (utf8(name) + (equals + written)));
            lemma_has_at_parts(bytes, at, head, utf8(name) + (equals + written));
            lemma_has_at_parts(bytes, at + 2, utf8(name), equals + written);
            let stop = at + 2 + utf8(name).len();
            lemma_has_at_parts(bytes, stop, equals, written);
            lemma_has_at_bytes(bytes, at, head);
            assert(bytes[at + 0] == AT_SIGN);
            lemma_no_space(bytes, at);
            lemma_has_at_bytes(bytes, stop, equals);
            assert(bytes[stop + 0] == EQUALS);
            lemma_parse_rendered_ident(bytes, at + 2, name);
            lemma_no_space(bytes, stop);
            lemma_parse_rendered_literal(bytes, stop + 2, literal);
            lemma_no_space(bytes, stop + 2);
        },
    }
}

/// A segment starts with `.` or `[`.
proof fn lemma_segment_start(segment: SegmentModel)
    ensures
        render_segment(segment).len() >= 1,
        render_segment(segment)[0] == DOT || render_segment(segment)[0] == OPEN_BRACKET,
{
}

/// Parsing a segment as it is written gives the segment.
pub proof fn lemma_parse_rendered_segment(bytes: Seq<u8>, at: int, segment: SegmentModel)
    requires
        0 <= at,
        is_segment(segment),
        has_at(bytes, at, render_segment(segment)),
        byte_at(bytes, at + render_segment(segment).len()) matches Some(b) ==> b == DOT || b
            == OPEN_BRACKET,
    ensures
        parse_segment_spec(bytes, at) == Ok::<(SegmentModel, int), PathError>(
            (segment, at + render_segment(segment).len()),
        ),
{
    reveal(parse_segment_spec);
    let piece = render_segment(segment);
    lemma_has_at_bytes(bytes, at, piece);
    assert(bytes[at + 0] == piece[0]);
    match segment {
        SegmentModel::Child(name) => {
            lemma_has_at_parts(bytes, at, seq![DOT], utf8(name));
            lemma_parse_rendered_name(bytes, at + 1, name);
        },
        SegmentModel::Index(i) => {
            let inner = render_int(i);
            assert(piece =~= seq![OPEN_BRACKET] + (inner + seq![CLOSE_BRACKET]));
            lemma_has_at_parts(bytes, at, seq![OPEN_BRACKET], inner + seq![CLOSE_BRACKET]);
            lemma_has_at_parts(bytes, at + 1, inner, seq![CLOSE_BRACKET]);
            let stop = at + 1 + inner.len();
            lemma_has_at_bytes(bytes, stop, seq![CLOSE_BRACKET]);
            assert(bytes[stop + 0] == CLOSE_BRACKET);
            let indices = seq![i];
            assert(render_indices(indices) == inner);
            lemma_first_byte_of_int(i);
            lemma_has_at_bytes(bytes, at + 1, inner);
            assert(bytes[at + 1 + 0] == inner[0]);
            lemma_parse_rendered_indices(bytes, at + 1, indices, Seq::empty());
            assert(Seq::<int>::empty() + indices =~= indices);
        },
        SegmentModel::UnionIndices(indices) => {
            let inner = render_indices(indices);
            assert(piece =~= seq![OPEN_BRACKET] + (inner + seq![CLOSE_BRACKET]));
            lemma_has_at_parts(bytes, at, seq![OPEN_BRACKET], inner + seq![CLOSE_BRACKET]);
            lemma_has_at_parts(bytes, at + 1, inner, seq![CLOSE_BRACKET]);
            let stop = at + 1 + inner.len();
            lemma_has_at_bytes(bytes, stop, seq![CLOSE_BRACKET]);
            assert(bytes[stop + 0] == CLOSE_BRACKET);
            lemma_first_byte_of_int(indices[0]);
            assert(inner =~= render_int(indices[0]) + (seq![COMMA] + render_indices(
                indices.drop_first(),
            )));
            lemma_has_at_bytes(bytes, at + 1, inner);
            assert(bytes[at + 1 + 0] == inner[0]);
            assert(inner[0] == render_int(indices[0])[0]);
            lemma_parse_rendered_indices(bytes, at + 1, indices, Seq::empty());
            assert(Seq::<int>::empty() + indices =~= indices);
        },
        SegmentModel::Filter(expr) => {
            let head = seq![OPEN_BRACKET, QUESTION, OPEN_PAREN];
            let inner = render_filter(expr);
            let tail = seq![CLOSE_PAREN, CLOSE_BRACKET];
            assert(piece =~= head + (inner + tail));
            lemma_has_at_parts(bytes, at, head, inner + tail);
            lemma_has_at_parts(bytes, at + 3, inner, tail);
            lemma_has_at_bytes(bytes, at, head);
            assert(bytes[at + 1] == QUESTION);
            assert(bytes[at + 2] == OPEN_PAREN);
            let stop = at + 3 + inner.len();
            lemma_has_at_bytes(bytes, stop, tail);
            assert(bytes[stop + 0] == CLOSE_PAREN);
            assert(bytes[stop + 1] == CLOSE_BRACKET);
            lemma_parse_rendered_filter(bytes, at + 3, expr);
        },
    }
}

/// Parsing segments as they are written gives the segments.
pub proof fn lemma_parse_rendered_segments(
    bytes: Seq<u8>,
    at: int,
    segments: Seq<SegmentModel>,
    found: Seq<SegmentModel>,
)
    requires
        0 <= at,
        found.len() + segments.len() <= MAX_SEGMENTS,
        forall|k: int| 0 <= k < segments.len() ==> is_segment(#[trigger] segments[k]),
        has_at(bytes, at, render_segments(segments)),
        at + render_segments(segments).len() == bytes.len(),
    ensures
        parse_segments_spec(bytes, at, found) == Ok::<Seq<SegmentModel>, PathError>(
            found + segments,
        ),
    decreases segments.len(),
{
    if segments.len() == 0 {
        assert(found + segments =~= found);
    } else {
        let first = render_segment(segments[0]);
        let rest = segments.drop_first();
        let tail = render_segments(rest);
        lemma_has_at_parts(bytes, at, first, tail);
        lemma_segment_start(segments[0]);
        let next = at + first.len();
        if rest.len() > 0 {
            lemma_segment_start(rest[0]);
            assert(tail =~= render_segment(rest[0]) + render_segments(rest.drop_first()));
            lemma_has_at_bytes(bytes, next, tail);
            assert(bytes[next + 0] == tail[0]);
        } else {
            assert(tail.len() == 0);
        }
        lemma_parse_rendered_segment(bytes, at, segments[0]);
        assert forall|k: int| 0 <= k < rest.len() implies is_segment(#[trigger] rest[k]) by {
            assert(rest[k] == segments[k + 1]);
        }
        lemma_parse_rendered_segments(bytes, next, rest, found.push(segments[0]));
        assert(found.push(segments[0]) + rest =~= found + segments);
    }
}

/// Parsing the canonical text of a selector gives the selector.
pub proof fn lemma_parse_rendered(selector: Seq<SegmentModel>)
    requires
        is_selector(selector),
    ensures
        parse_selector_spec(render(selector)) == Ok::<Seq<SegmentModel>, PathError>(selector),
{
    let bytes = render(selector);
    let tail = render_segments(selector);
    assert(bytes[0] == DOLLAR);
    assert(bytes.subrange(1, 1 + tail.len() as int) =~= tail);
    lemma_parse_rendered_segments(bytes, 1, selector, Seq::empty());
    assert(Seq::<SegmentModel>::empty() + selector =~= selector);
}

/// The bytes between two character boundaries of a text are the bytes of
/// the text that they spell.
pub proof fn lemma_text_between_bytes(bytes: Seq<u8>, from: int, to: int)
    requires
        valid_utf8(bytes),
        0 <= from <= to <= bytes.len(),
        is_char_boundary(bytes, from),
        is_char_boundary(bytes, to),
    ensures
        utf8(text_between(bytes, from, to)) == bytes.subrange(from, to),
{
    valid_utf8_split(bytes, from);
    let tail = bytes.subrange(from, bytes.len() as int);
    if to == bytes.len() {
        is_char_boundary_start_end_of_seq(tail);
    } else {
        is_char_boundary_iff_not_is_continuation_byte(bytes, to);
        assert(tail[to - from] == bytes[to]);
        is_char_boundary_iff_not_is_continuation_byte(tail, to - from);
    }
    valid_utf8_split(tail, to - from);
    assert(tail.subrange(0, to - from) =~= bytes.subrange(from, to));
    decode_utf8_encode_utf8(bytes.subrange(from, to));
}

/// A name that was parsed is a name.
proof fn lemma_parsed_name(bytes: Seq<u8>, at: int)
    requires
        valid_utf8(bytes),
        0 <= at,
        at < bytes.len() ==> is_char_boundary(bytes, at),
        parse_name_spec(bytes, at) is Ok,
    ensures
        is_name(text_between(bytes, at, parse_name_spec(bytes, at)->Ok_0)),
{
    let stop = name_end(bytes, at);
    lemma_scan(bytes, at, |b: u8| ends_name(b));
    lemma_boundary_at_ascii(bytes, stop);
    lemma_text_between_bytes(bytes, at, stop);
    let name = text_between(bytes, at, stop);
    assert forall|i: int| 0 <= i < utf8(name).len() implies !ends_name(#[trigger] utf8(name)[i]) by {
        assert(utf8(name)[i] == bytes[at + i]);
    }
}

/// An identifier that was parsed is an identifier.
proof fn lemma_parsed_ident(bytes: Seq<u8>, at: int)
    requires
        valid_utf8(bytes),
        0 <= at,
        parse_ident_spec(bytes, at) is Ok,
    ensures
        is_ident(text_between(bytes, at, parse_ident_spec(bytes, at)->Ok_0)),
{
    let stop = ident_end(bytes, at);
    lemma_scan(bytes, at, |b: u8| !is_ident_byte(b));
    assert(is_ident_byte(bytes[at]));
    lemma_boundary_at_ascii(bytes, at);
    assert(is_ident_byte(bytes[stop - 1]));
    lemma_boundary_after_ascii(bytes, stop - 1);
    lemma_text_between_bytes(bytes, at, stop);
    let name = text_between(bytes, at, stop);
    assert forall|i: int| 0 <= i < utf8(name).len() implies is_ident_byte(
        #[trigger] utf8(name)[i],
    ) by {
        assert(utf8(name)[i] == bytes[at + i]);
    }
}

/// The quote that closes a string literal is the one that closes the literal
/// taken by itself.
proof fn lemma_string_close_out(bytes: Seq<u8>, at: int, i: int, close: int)
    requires
        0 <= at,
        1 <= i,
        string_close(bytes, at + i) == Some(close),
    ensures
        at + i <= close < bytes.len(),
        string_close(bytes.subrange(at, close + 1), i) == Some(close - at),
    decreases bytes.len() - (at + i),
{
    lemma_string_close(bytes, at + i);
    let raw = bytes.subrange(at, close + 1);
    assert(raw[i] == bytes[at + i]);
    if bytes[at + i] == BACKSLASH {
        lemma_string_close(bytes, at + i + 2);
        lemma_string_close_out(bytes, at, i + 2, close);
    } else if bytes[at + i] != QUOTE {
        lemma_string_close_out(bytes, at, i + 1, close);
    }
}

/// A literal that was parsed is a literal.
proof fn lemma_parsed_literal(bytes: Seq<u8>, at: int)
    requires
        valid_utf8(bytes),
        0 <= at,
        parse_literal_spec(bytes, at) is Ok,
    ensures
        is_literal(parse_literal_spec(bytes, at)->Ok_0.0),
{
    let literal = parse_literal_spec(bytes, at)->Ok_0.0;
    if !has_at(bytes, at, word_true()) && !has_at(bytes, at, word_false()) && !has_at(
        bytes,
        at,
        word_null(),
    ) {
        if byte_at(bytes, at) == Some(QUOTE) {
            let close = string_close(bytes, at + 1)->0;
            lemma_string_close_out(bytes, at, 1, close);
            let raw = bytes.subrange(at, close + 1);
            assert(raw[0] == bytes[at]);
            lemma_string_close(bytes, at + 1);
            lemma_boundary_at_ascii(bytes, at);
            lemma_boundary_after_ascii(bytes, close);
            lemma_text_between_bytes(bytes, at, close + 1);
            encode_utf8_valid_utf8(text_between(bytes, at, close + 1));
            assert(is_raw_literal(raw, literal->String_0));
        } else {
            let value = parse_int_spec(bytes, at)->Ok_0.0;
            assert(int_of_number(number_of_int(value)) == value);
        }
    }
}

/// The indices that were parsed fit, and there is one more than was found
/// before at the least.
proof fn lemma_parsed_indices(bytes: Seq<u8>, at: int, found: Seq<int>)
    requires
        forall|k: int| 0 <= k < found.len() ==> fits_i64(#[trigger] found[k]),
        parse_indices_spec(bytes, at, found) is Ok,
    ensures
        parse_indices_spec(bytes, at, found)->Ok_0.0.len() > found.len(),
        forall|k: int|
            0 <= k < parse_indices_spec(bytes, at, found)->Ok_0.0.len() ==> fits_i64(
                #[trigger] parse_indices_spec(bytes, at, found)->Ok_0.0[k],
            ),
    decreases bytes.len() - at,
{
    let start = skip_ws_spec(bytes, at);
    lemma_scan(bytes, at, |b: u8| !is_space(b));
    lemma_int_advances(bytes, start);
    let (value, next) = parse_int_spec(bytes, start)->Ok_0;
    lemma_scan(bytes, next, |b: u8| !is_space(b));
    let after = skip_ws_spec(bytes, next);
    let all = found.push(value as int);
    assert forall|k: int| 0 <= k < all.len() implies fits_i64(#[trigger] all[k]) by {
        if k < found.len() {
            assert(all[k] == found[k]);
        }
    }
    if byte_at(bytes, after) == Some(COMMA) {
        lemma_parsed_indices(bytes, after + 1, all);
    }
}

/// A segment that was parsed is a segment.
proof fn lemma_parsed_segment(bytes: Seq<u8>, at: int)
    requires
        valid_utf8(bytes),
        0 <= at < bytes.len(),
        parse_segment_spec(bytes, at) is Ok,
    ensures
        is_segment(parse_segment_spec(bytes, at)->Ok_0.0),
{
    reveal(parse_segment_spec);
    if bytes[at] == DOT {
        lemma_boundary_after_ascii(bytes, at);
        lemma_parsed_name(bytes, at + 1);
    } else if bytes[at] == OPEN_BRACKET {
        if bytes[at + 1] == QUESTION {
            let start = skip_ws_spec(bytes, at + 3);
            lemma_scan(bytes, at + 3, |b: u8| !is_space(b));
            lemma_parsed_ident(bytes, start + 2);
            let name_stop = parse_ident_spec(bytes, start + 2)->Ok_0;
            let after = skip_ws_spec(bytes, name_stop);
            if has_at(bytes, after, seq![EQUALS, EQUALS]) {
                lemma_scan(bytes, name_stop, |b: u8| !is_space(b));
                lemma_scan(bytes, after + 2, |b: u8| !is_space(b));
                lemma_parsed_literal(bytes, skip_ws_spec(bytes, after + 2));
            }
        } else {
            lemma_parsed_indices(bytes, at + 1, Seq::empty());
        }
    }
}

/// The segments that were parsed are segments.
proof fn lemma_parsed_segments(bytes: Seq<u8>, at: int, found: Seq<SegmentModel>)
    requires
        valid_utf8(bytes),
        found.len() <= MAX_SEGMENTS,
        forall|k: int| 0 <= k < found.len() ==> is_segment(#[trigger] found[k]),
        parse_segments_spec(bytes, at, found) is Ok,
    ensures
        is_selector(parse_segments_spec(bytes, at, found)->Ok_0),
    decreases bytes.len() - at,
{
    if 0 <= at < bytes.len() {
        lemma_parsed_segment(bytes, at);
        let (segment, next) = parse_segment_spec(bytes, at)->Ok_0;
        let all = found.push(segment);
        crate::parser::lemma_segment_advances(bytes, at);
        assert forall|k: int| 0 <= k < all.len() implies is_segment(#[trigger] all[k]) by {
            if k < found.len() {
                assert(all[k] == found[k]);
            }
        }
        lemma_parsed_segments(bytes, next, all);
    }
}

/// A selector that was parsed is a selector in the sense of `is_selector`.
pub proof fn lemma_parsed_is_selector(input: Seq<char>)
    requires
        parse_spec(input) is Ok,
    ensures
        is_selector(parse_spec(input)->Ok_0),
{
    let bytes = utf8(trim_spec(strip_bom_spec(input)));
    encode_utf8_valid_utf8(trim_spec(strip_bom_spec(input)));
    if bytes[0] == DOLLAR {
        lemma_parsed_segments(bytes, 1, Seq::empty());
    } else {
        is_char_boundary_start_end_of_seq(bytes);
        lemma_parsed_name(bytes, 0);
        let stop = parse_name_spec(bytes, 0)->Ok_0;
        lemma_parsed_segments(bytes, stop, seq![SegmentModel::Child(text_between(bytes, 0, stop))]);
    }
}

/// Parsing the canonical text of an accepted selector gives the same
/// selector.
pub proof fn lemma_reparse(input: Seq<char>)
    requires
        parse_spec(input) is Ok,
    ensures
        parse_selector_spec(render(parse_spec(input)->Ok_0)) == parse_spec(input),
{
    lemma_parsed_is_selector(input);
    lemma_parse_rendered(parse_spec(input)->Ok_0);
}

/// The canonical text of a selector.
pub open spec fn render_text(selector: Seq<SegmentModel>) -> Seq<char> {
    decode_utf8(render(selector))
}

/// All bytes are below 0x80.
pub open spec fn is_ascii(bytes: Seq<u8>) -> bool {
    forall|i: int| 0 <= i < bytes.len() ==> (#[trigger] bytes[i]) < 0x80
}

proof fn lemma_ascii_join(a: Seq<u8>, b: Seq<u8>)
    requires
        is_ascii(a),
        is_ascii(b),
    ensures
        is_ascii(a + b),
{
    assert forall|i: int| 0 <= i < (a + b).len() implies (#[trigger] (a + b)[i]) < 0x80 by {
        if i < a.len() {
            assert((a + b)[i] == a[i]);
        } else {
            assert((a + b)[i] == b[i - a.len()]);
        }
    }
}

proof fn lemma_digits_ascii(n: nat)
    ensures
        is_ascii(digits(n)),
    decreases n,
{
    if n >= 10 {
        lemma_digits_ascii(n / 10);
        let front = digits(n / 10);
        assert forall|i: int| 0 <= i < digits(n).len() implies (#[trigger] digits(n)[i]) < 0x80 by {
            if i < front.len() {
                assert(digits(n)[i] == front[i]);
            }
        }
    }
}

proof fn lemma_int_ascii(v: int)
    ensures
        is_ascii(render_int(v)),
{
    if v < 0 {
        lemma_digits_ascii((-v) as nat);
        lemma_ascii_join(seq![MINUS], digits((-v) as nat));
    } else {
        lemma_digits_ascii(v as nat);
    }
}

proof fn lemma_indices_ascii(indices: Seq<int>)
    ensures
        is_ascii(render_indices(indices)),
    decreases indices.len(),
{
    if indices.len() == 1 {
        lemma_int_ascii(indices[0]);
    } else if indices.len() > 1 {
        lemma_int_ascii(indices[0]);
        lemma_indices_ascii(indices.drop_first());
        lemma_ascii_join(render_int(indices[0]), seq![COMMA]);
        lemma_ascii_join(render_int(indices[0]) + seq![COMMA], render_indices(indices.drop_first()));
    }
}

/// A literal as it is written is a text.
proof fn lemma_literal_valid(literal: Json)
    requires
        is_literal(literal),
    ensures
        valid_utf8(render_literal(literal)),
{
    match literal {
        Json::Number(n) => {
            lemma_int_ascii(int_of_number(n));
            lemma_ascii_valid(render_int(int_of_number(n)));
        },
        Json::String(text) => {
            assert(is_raw_literal(raw_literal(text), text));
        },
        Json::Bool(b) => {
            lemma_ascii_valid(word_true());
            lemma_ascii_valid(word_false());
        },
        _ => {
            lemma_ascii_valid(word_null());
        },
    }
}

/// What stands before the last byte of a segment in brackets.
pub open spec fn bracket_body(segment: SegmentModel) -> Seq<u8> {
    match segment {
        SegmentModel::Index(i) => seq![OPEN_BRACKET] + render_int(i),
        SegmentModel::UnionIndices(indices) => seq![OPEN_BRACKET] + render_indices(indices),
        SegmentModel::Filter(expr) => seq![OPEN_BRACKET, QUESTION, OPEN_PAREN] + render_filter(expr)
            + seq![CLOSE_PAREN],
        SegmentModel::Child(_) => Seq::empty(),
    }
}

/// A segment as it is written is a text: `.` and the name, or a text that
/// ends with `]`.
proof fn lemma_segment_valid(segment: SegmentModel)
    requires
        is_segment(segment),
    ensures
        valid_utf8(render_segment(segment)),
        segment matches SegmentModel::Child(name) ==> name.len() > 0 && decode_utf8(
            render_segment(segment),
        ) == seq!['.'] + name,
        !(segment is Child) ==> valid_utf8(bracket_body(segment)) && render_segment(segment)
            == bracket_body(segment) + seq![CLOSE_BRACKET],
{
    match segment {
        SegmentModel::Child(name) => {
            lemma_decode_ascii(DOT);
            encode_utf8_valid_utf8(name);
            encode_utf8_decode_utf8(name);
            lemma_decode_concat(seq![DOT], utf8(name));
            let dot = decode_utf8(seq![DOT]);
            lemma_same_code(dot[0], '.');
            assert(dot =~= seq!['.']);
            if name.len() == 0 {
                assert(utf8(name).len() == 0);
            }
        },
        SegmentModel::Index(i) => {
            lemma_int_ascii(i);
            lemma_ascii_join(seq![OPEN_BRACKET], render_int(i));
            lemma_ascii_valid(bracket_body(segment));
            lemma_decode_ascii(CLOSE_BRACKET);
            lemma_decode_concat(bracket_body(segment), seq![CLOSE_BRACKET]);
        },
        SegmentModel::UnionIndices(indices) => {
            lemma_indices_ascii(indices);
            lemma_ascii_join(seq![OPEN_BRACKET], render_indices(indices));
            lemma_ascii_valid(bracket_body(segment));
            lemma_decode_ascii(CLOSE_BRACKET);
            lemma_decode_concat(bracket_body(segment), seq![CLOSE_BRACKET]);
        },
        SegmentModel::Filter(expr) => {
            let head = seq![OPEN_BRACKET, QUESTION, OPEN_PAREN];
            lemma_ascii_valid(head);
            lemma_ascii_valid(seq![AT_SIGN, DOT]);
            lemma_ascii_valid(seq![EQUALS, EQUALS]);
            lemma_ascii_valid(seq![CLOSE_PAREN]);
            lemma_decode_ascii(CLOSE_BRACKET);
            match expr {
                FilterModel::Exists(name) => {
                    encode_utf8_valid_utf8(name);
                    lemma_decode_concat(seq![AT_SIGN, DOT], utf8(name));
                },
                FilterModel::Equals(name, literal) => {
                    encode_utf8_valid_utf8(name);
                    lemma_literal_valid(literal);
                    lemma_decode_concat(seq![AT_SIGN, DOT], utf8(name));
                    lemma_decode_concat(seq![AT_SIGN, DOT] + utf8(name), seq![EQUALS, EQUALS]);
                    lemma_decode_concat(
                        seq![AT_SIGN, DOT] + utf8(name) + seq![EQUALS, EQUALS],
                        render_literal(literal),
                    );
                },
            }
            lemma_decode_concat(head, render_filter(expr));
            lemma_decode_concat(head + render_filter(expr), seq![CLOSE_PAREN]);
            lemma_decode_concat(bracket_body(segment), seq![CLOSE_BRACKET]);
            assert(render_segment(segment) =~= bracket_body(segment) + seq![CLOSE_BRACKET]);
        },
    }
}

/// The segments as they are written are a text.
proof fn lemma_segments_valid(segments: Seq<SegmentModel>)
    requires
        forall|k: int| 0 <= k < segments.len() ==> is_segment(#[trigger] segments[k]),
    ensures
        valid_utf8(render_segments(segments)),
    decreases segments.len(),
{
    if segments.len() > 0 {
        let rest = segments.drop_first();
        assert forall|k: int| 0 <= k < rest.len() implies is_segment(#[trigger] rest[k]) by {
            assert(rest[k] == segments[k + 1]);
        }
        lemma_segment_valid(segments[0]);
        lemma_segments_valid(rest);
        lemma_decode_concat(render_segment(segments[0]), render_segments(rest));
    }
}

/// The segments as they are written end with the last segment as it is
/// written.
proof fn lemma_render_segments_last(segments: Seq<SegmentModel>)
    requires
        segments.len() > 0,
    ensures
        render_segments(segments) == render_segments(segments.drop_last()) + render_segment(
            segments.last(),
        ),
    decreases segments.len(),
{
    if segments.len() == 1 {
        assert(segments.drop_first() =~= Seq::<SegmentModel>::empty());
        assert(segments.drop_last() =~= Seq::<SegmentModel>::empty());
        assert(render_segments(segments.drop_first()) =~= Seq::<u8>::empty());
        assert(render_segments(segments.drop_last()) =~= Seq::<u8>::empty());
        assert(render_segments(segments) =~= render_segment(segments[0]));
        assert(render_segments(segments.drop_last()) + render_segment(segments.last())
            =~= render_segment(segments[0]));
    } else {
        let rest = segments.drop_first();
        lemma_render_segments_last(rest);
        assert(rest.last() == segments.last());
        assert(rest.drop_last() =~= segments.drop_last().drop_first());
        assert(segments.drop_last()[0] == segments[0]);
        assert(render_segments(segments.drop_last()) == render_segment(segments[0])
            + render_segments(segments.drop_last().drop_first()));
        assert(render_segments(segments) =~= render_segments(segments.drop_last())
            + render_segment(segments.last()));
    }
}

/// The name of a last segment that is a child does not end in whitespace.
pub open spec fn ends_clean(selector: Seq<SegmentModel>) -> bool {
    selector.len() > 0 && selector.last() is Child ==> {
        let name = selector.last()->Child_0;
        name.len() > 0 && !is_whitespace_spec(name.last())
    }
}

/// The canonical text of a selector is a text that starts with `$` and does
/// not end in whitespace.
proof fn lemma_render_text_ends(selector: Seq<SegmentModel>)
    requires
        is_selector(selector),
        ends_clean(selector),
    ensures
        valid_utf8(render(selector)),
        render_text(selector).len() > 0,
        render_text(selector)[0] == '$',
        !is_whitespace_spec(render_text(selector).last()),
{
    lemma_decode_ascii(DOLLAR);
    lemma_segments_valid(selector);
    lemma_decode_concat(seq![DOLLAR], render_segments(selector));
    let dollar = decode_utf8(seq![DOLLAR]);
    lemma_same_code(dollar[0], '$');
    let text = render_text(selector);
    assert(text[0] == dollar[0]);
    if selector.len() == 0 {
        assert(render_segments(selector).len() == 0);
        assert(render(selector) =~= seq![DOLLAR]);
    } else {
        let front = selector.drop_last();
        let last = selector.last();
        lemma_render_segments_last(selector);
        assert forall|k: int| 0 <= k < front.len() implies is_segment(#[trigger] front[k]) by {
            assert(front[k] == selector[k]);
        }
        lemma_segments_valid(front);
        lemma_segment_valid(last);
        let before = seq![DOLLAR] + render_segments(front);
        lemma_decode_concat(seq![DOLLAR], render_segments(front));
        assert(render(selector) =~= before + render_segment(last));
        lemma_decode_concat(before, render_segment(last));
        match last {
            SegmentModel::Child(name) => {
                let written = decode_utf8(render_segment(last));
                assert(written.last() == name.last());
                assert(text.last() == written.last());
            },
            _ => {
                let body = bracket_body(last);
                lemma_decode_ascii(CLOSE_BRACKET);
                lemma_decode_concat(body, seq![CLOSE_BRACKET]);
                let close = decode_utf8(seq![CLOSE_BRACKET]);
                lemma_same_code(close[0], ']');
                let written = decode_utf8(render_segment(last));
                assert(written.last() == close[0]);
                assert(text.last() == written.last());
            },
        }
    }
}

/// Where the last segment is a child, its name ends with the last character
/// of `text`.
pub open spec fn ends_like(selector: Seq<SegmentModel>, text: Seq<char>) -> bool {
    selector.len() > 0 && selector.last() is Child ==> {
        let name = selector.last()->Child_0;
        name.len() > 0 && text.len() > 0 && name.last() == text.last()
    }
}

/// A name that reaches the end of the text ends with the last character of
/// the text.
proof fn lemma_name_at_end(bytes: Seq<u8>, at: int)
    requires
        valid_utf8(bytes),
        0 <= at < bytes.len(),
        is_char_boundary(bytes, at),
    ensures
        ends_like(
            seq![SegmentModel::Child(text_between(bytes, at, bytes.len() as int))],
            decode_utf8(bytes),
        ),
{
    let name = text_between(bytes, at, bytes.len() as int);
    is_char_boundary_start_end_of_seq(bytes);
    lemma_text_between_bytes(bytes, at, bytes.len() as int);
    decode_utf8_split(bytes, at);
    if name.len() == 0 {
        assert(utf8(name).len() == 0);
    }
    let selector = seq![SegmentModel::Child(name)];
    assert(selector.last() == SegmentModel::Child(name));
}

/// The last name of the segments that were parsed ends with the last
/// character of the text.
proof fn lemma_parsed_end(bytes: Seq<u8>, at: int, found: Seq<SegmentModel>)
    requires
        valid_utf8(bytes),
        0 <= at,
        at >= bytes.len() ==> ends_like(found, decode_utf8(bytes)),
        parse_segments_spec(bytes, at, found) is Ok,
    ensures
        ends_like(parse_segments_spec(bytes, at, found)->Ok_0, decode_utf8(bytes)),
    decreases bytes.len() - at,
{
    if at < bytes.len() {
        let (segment, next) = parse_segment_spec(bytes, at)->Ok_0;
        let all = found.push(segment);
        crate::parser::lemma_segment_advances(bytes, at);
        if next >= bytes.len() {
            assert(all.last() == segment);
            if segment is Child {
                reveal(parse_segment_spec);
                lemma_boundary_after_ascii(bytes, at);
                assert(at + 1 < bytes.len());
                lemma_name_at_end(bytes, at + 1);
                let single = seq![SegmentModel::Child(text_between(bytes, at + 1, bytes.len() as int))];
                assert(single.last() == segment);
            }
        }
        lemma_parsed_end(bytes, next, all);
    }
}

/// The last name of an accepted selector does not end in whitespace.
proof fn lemma_parsed_ends_clean(input: Seq<char>)
    requires
        parse_spec(input) is Ok,
    ensures
        ends_clean(parse_spec(input)->Ok_0),
{
    let text = trim_spec(strip_bom_spec(input));
    let bytes = utf8(text);
    encode_utf8_valid_utf8(text);
    encode_utf8_decode_utf8(text);
    lemma_trimmed_ends(strip_bom_spec(input));
    if text.len() == 0 {
        assert(bytes.len() == 0);
    }
    if bytes[0] == DOLLAR {
        lemma_parsed_end(bytes, 1, Seq::empty());
    } else {
        is_char_boundary_start_end_of_seq(bytes);
        let stop = parse_name_spec(bytes, 0)->Ok_0;
        lemma_scan(bytes, 0, |b: u8| ends_name(b));
        if stop >= bytes.len() {
            lemma_name_at_end(bytes, 0);
        }
        lemma_parsed_end(bytes, stop, seq![SegmentModel::Child(text_between(bytes, 0, stop))]);
    }
}

/// Parsing the canonical text of an accepted selector gives the same
/// selector.
pub proof fn lemma_reparse_text(input: Seq<char>)
    requires
        parse_spec(input) is Ok,
    ensures
        parse_spec(render_text(parse_spec(input)->Ok_0)) == parse_spec(input),
{
    let selector = parse_spec(input)->Ok_0;
    lemma_parsed_is_selector(input);
    lemma_parsed_ends_clean(input);
    lemma_render_text_ends(selector);
    lemma_parse_rendered(selector);
    let text = render_text(selector);
    decode_utf8_encode_utf8(render(selector));
    assert(strip_bom_spec(text) == text);
    lemma_trim_clean(text);
}

} // verus!

//! Text helpers: comparing, trimming and slicing strings by their UTF-8
//! bytes, the byte order mark, and decimal numerals.
use vstd::prelude::*;
use vstd::string::{StrSliceExecFns, StringExecFns};
use vstd::utf8::*;

verus! {

/// The UTF-8 bytes of a text.
pub open spec fn utf8(text: Seq<char>) -> Seq<u8> {
    encode_utf8(text)
}

/// Texts with the same UTF-8 bytes are the same text.
pub proof fn lemma_utf8_injective(a: Seq<char>, b: Seq<char>)
    requires
        utf8(a) == utf8(b),
    ensures
        a == b,
{
    encode_utf8_decode_utf8(a);
    encode_utf8_decode_utf8(b);
}

/// Whether two string slices hold the same text.
pub fn str_equal(a: &str, b: &str) -> (r: bool)
    ensures
        r == (a@ == b@),
{
    let x = a.as_bytes();
    let y = b.as_bytes();
    if x.len() != y.len() {
        return false;
    }
    let mut i: usize = 0;
    while i < x.len()
        invariant
            i <= x.len(),
            x.len() == y.len(),
            x@ == utf8(a@),
            y@ == utf8(b@),
            forall|k: int| 0 <= k < i ==> x@[k] == y@[k],
        decreases x.len() - i,
    {
        if x[i] != y[i] {
            return false;
        }
        i += 1;
    }
    proof {
        assert(x@ =~= y@);
        lemma_utf8_injective(a@, b@);
    }
    true
}

/// The text without a leading U+FEFF, if it has one.
pub open spec fn strip_bom_spec(text: Seq<char>) -> Seq<char> {
    if text.len() > 0 && text[0] == '\u{feff}' {
        text.drop_first()
    } else {
        text
    }
}

/// U+FEFF is encoded as EF BB BF, and nothing else is.
proof fn lemma_bom_bytes(scalar: u32)
    by (bit_vector)
    requires
        0 <= scalar <= 0x10FFFF,
        !(0xD800 <= scalar <= 0xDFFF),
    ensures
        scalar == 0xFEFF ==> (0xE0u8 | ((scalar >> 12) & 0x0F) as u8) == 0xEFu8 && (0x80u8 | ((
            scalar >> 6) & 0x3F) as u8) == 0xBBu8 && (0x80u8 | (scalar & 0x3F) as u8) == 0xBFu8,
        0x800 <= scalar <= 0xFFFF && (0xE0u8 | ((scalar >> 12) & 0x0F) as u8) == 0xEFu8 && (0x80u8
            | ((scalar >> 6) & 0x3F) as u8) == 0xBBu8 && (0x80u8 | (scalar & 0x3F) as u8) == 0xBFu8
            ==> scalar == 0xFEFF,
        scalar <= 0x7F ==> ((scalar & 0x7F) as u8) < 0x80u8,
        0x80 <= scalar <= 0x7FF ==> (0xC0u8 | ((scalar >> 6) & 0x1F) as u8) < 0xE0u8,
        0x10000 <= scalar ==> (0xF0u8 | ((scalar >> 18) & 0x7) as u8) >= 0xF0u8,
{
}

/// A text starts with U+FEFF exactly when its bytes start with EF BB BF, and
/// the rest of the bytes then encode the rest of the text.
pub proof fn lemma_bom_prefix(text: Seq<char>)
    ensures
        (text.len() > 0 && text[0] == '\u{feff}') <==> (utf8(text).len() >= 3 && utf8(text)[0]
            == 0xEFu8 && utf8(text)[1] == 0xBBu8 && utf8(text)[2] == 0xBFu8),
        text.len() > 0 && text[0] == '\u{feff}' ==> utf8(text).subrange(3, utf8(text).len() as int)
            == utf8(text.drop_first()) && is_char_boundary(utf8(text), 3),
{
    encode_utf8_valid_utf8(text);
    if text.len() > 0 {
        let scalar = text[0] as u32;
        char_is_scalar(text[0]);
        lemma_bom_bytes(scalar);
        let head = encode_scalar(scalar);
        let rest = encode_utf8(text.drop_first());
        assert(utf8(text) == head + rest);
        if text[0] == '\u{feff}' {
            assert(scalar == 0xFEFF);
            assert(head.len() == 3);
            assert(utf8(text).subrange(3, utf8(text).len() as int) =~= rest);
            encode_utf8_valid_utf8(text.drop_first());
            assert(is_char_boundary(utf8(text), 3)) by {
                if rest.len() == 0 {
                    is_char_boundary_start_end_of_seq(utf8(text));
                } else {
                    is_char_boundary_start_end_of_seq(rest);
                    is_char_boundary_iff_not_is_continuation_byte(rest, 0);
                    assert(utf8(text)[3] == rest[0]);
                    is_char_boundary_iff_not_is_continuation_byte(utf8(text), 3);
                }
            }
        } else if utf8(text).len() >= 3 && utf8(text)[0] == 0xEFu8 && utf8(text)[1] == 0xBBu8
            && utf8(text)[2] == 0xBFu8 {
            assert(head[0] == 0xEFu8);
            assert(has_width_3_encoding(scalar));
            assert(head[1] == 0xBBu8 && head[2] == 0xBFu8);
            assert(scalar == 0xFEFF);
            char_u32_cast(text[0], scalar);
            assert(false);
        }
    } else {
        assert(utf8(text).len() == 0);
    }
}

/// Strips a single leading U+FEFF, if present.
pub fn strip_bom(s: &str) -> (r: &str)
    ensures
        r@ == strip_bom_spec(s@),
{
    let bytes = s.as_bytes();
    proof {
        lemma_bom_prefix(s@);
    }
    if bytes.len() >= 3 && bytes[0] == 0xEFu8 && bytes[1] == 0xBBu8 && bytes[2] == 0xBFu8 {
        let (_, rest) = s.split_at(3);
        proof {
            lemma_utf8_injective(rest@, s@.drop_first());
        }
        rest
    } else {
        s
    }
}

/// The characters with the Unicode property White_Space.
pub open spec fn is_whitespace_spec(c: char) -> bool {
    ||| '\u{9}' <= c <= '\u{d}'
    ||| c == ' '
    ||| c == '\u{85}'
    ||| c == '\u{a0}'
    ||| c == '\u{1680}'
    ||| '\u{2000}' <= c <= '\u{200a}'
    ||| c == '\u{2028}'
    ||| c == '\u{2029}'
    ||| c == '\u{202f}'
    ||| c == '\u{205f}'
    ||| c == '\u{3000}'
}

/// Whether a character has the Unicode property White_Space.
pub fn is_whitespace(c: char) -> (r: bool)
    ensures
        r == is_whitespace_spec(c),
{
    ('\u{9}' <= c && c <= '\u{d}') || c == ' ' || c == '\u{85}' || c == '\u{a0}' || c
        == '\u{1680}' || ('\u{2000}' <= c && c <= '\u{200a}') || c == '\u{2028}' || c
        == '\u{2029}' || c == '\u{202f}' || c == '\u{205f}' || c == '\u{3000}'
}

/// Number of whitespace characters at the start of the text.
pub open spec fn leading_whitespace(text: Seq<char>) -> nat
    decreases text.len(),
{
    if text.len() > 0 && is_whitespace_spec(text[0]) {
        1 + leading_whitespace(text.drop_first())
    } else {
        0
    }
}

/// Number of whitespace characters at the end of the text.
pub open spec fn trailing_whitespace(text: Seq<char>) -> nat
    decreases text.len(),
{
    if text.len() > 0 && is_whitespace_spec(text.last()) {
        1 + trailing_whitespace(text.drop_last())
    } else {
        0
    }
}

/// The text without the whitespace at its start and at its end.
pub open spec fn trim_spec(text: Seq<char>) -> Seq<char> {
    let start = leading_whitespace(text);
    let rest = text.subrange(start as int, text.len() as int);
    rest.subrange(0, rest.len() - trailing_whitespace(rest))
}

/// `leading_whitespace` is the first position that holds no whitespace.
pub proof fn lemma_leading_whitespace(text: Seq<char>, n: nat)
    requires
        n <= text.len(),
        forall|i: int| 0 <= i < n ==> is_whitespace_spec(#[trigger] text[i]),
        n < text.len() ==> !is_whitespace_spec(text[n as int]),
    ensures
        leading_whitespace(text) == n,
    decreases n,
{
    if n > 0 {
        let rest = text.drop_first();
        assert forall|i: int| 0 <= i < n - 1 implies is_whitespace_spec(#[trigger] rest[i]) by {
            assert(rest[i] == text[i + 1]);
        }
        lemma_leading_whitespace(rest, (n - 1) as nat);
    }
}

/// `trailing_whitespace` counts back to the last position that holds no
/// whitespace.
pub proof fn lemma_trailing_whitespace(text: Seq<char>, n: nat)
    requires
        n <= text.len(),
        forall|i: int| text.len() - n <= i < text.len() ==> is_whitespace_spec(#[trigger] text[i]),
        n < text.len() ==> !is_whitespace_spec(text[text.len() - n - 1]),
    ensures
        trailing_whitespace(text) == n,
    decreases n,
{
    if n > 0 {
        let rest = text.drop_last();
        assert forall|i: int| rest.len() - (n - 1) <= i < rest.len() implies is_whitespace_spec(
            #[trigger] rest[i],
        ) by {
            assert(rest[i] == text[i]);
        }
        lemma_trailing_whitespace(rest, (n - 1) as nat);
    }
}

/// Removes the whitespace at both ends of `s`.
pub fn trim(s: &str) -> (r: &str)
    ensures
        r@ == trim_spec(s@),
{
    let n = s.unicode_len();
    let mut start: usize = 0;
    while start < n && is_whitespace(s.get_char(start))
        invariant
            start <= n,
            n == s@.len(),
            forall|i: int| 0 <= i < start ==> is_whitespace_spec(#[trigger] s@[i]),
        decreases n - start,
    {
        start += 1;
    }
    let ghost rest = s@.subrange(start as int, n as int);
    let mut end: usize = n;
    while end > start && is_whitespace(s.get_char(end - 1))
        invariant
            start <= end <= n,
            n == s@.len(),
            forall|i: int| end <= i < n ==> is_whitespace_spec(#[trigger] s@[i]),
        decreases end,
    {
        end -= 1;
    }
    proof {
        lemma_leading_whitespace(s@, start as nat);
        assert forall|i: int| rest.len() - (n - end) <= i < rest.len() implies is_whitespace_spec(
            #[trigger] rest[i],
        ) by {
            assert(rest[i] == s@[i + start]);
        }
        lemma_trailing_whitespace(rest, (n - end) as nat);
        assert(rest.subrange(0, rest.len() - (n - end)) =~= s@.subrange(start as int, end as int));
    }
    s.substring_char(start, end)
}

/// A position right after an ASCII byte is a character boundary.
pub proof fn lemma_boundary_after_ascii(bytes: Seq<u8>, k: int)
    requires
        valid_utf8(bytes),
        0 <= k < bytes.len(),
        bytes[k] < 0x80,
    ensures
        is_char_boundary(bytes, k + 1),
{
    is_char_boundary_iff_not_is_continuation_byte(bytes, k);
    valid_utf8_split(bytes, k);
    let tail = bytes.subrange(k, bytes.len() as int);
    assert(tail[0] == bytes[k]);
    assert(valid_first_scalar(tail) && valid_utf8(pop_first_scalar(tail)));
    let rest = pop_first_scalar(tail);
    assert(rest =~= bytes.subrange(k + 1, bytes.len() as int));
    if k + 1 == bytes.len() {
        is_char_boundary_start_end_of_seq(bytes);
    } else {
        is_char_boundary_start_end_of_seq(rest);
        is_char_boundary_iff_not_is_continuation_byte(rest, 0);
        assert(rest[0] == bytes[k + 1]);
        is_char_boundary_iff_not_is_continuation_byte(bytes, k + 1);
    }
}

/// A position that holds an ASCII byte, or the end, is a character boundary.
pub proof fn lemma_boundary_at_ascii(bytes: Seq<u8>, k: int)
    requires
        valid_utf8(bytes),
        0 <= k <= bytes.len(),
        k < bytes.len() ==> bytes[k] < 0x80,
    ensures
        is_char_boundary(bytes, k),
{
    if k == bytes.len() {
        is_char_boundary_start_end_of_seq(bytes);
    } else {
        is_char_boundary_iff_not_is_continuation_byte(bytes, k);
    }
}

/// The text that the bytes from `from` up to `to` spell.
pub open spec fn text_between(bytes: Seq<u8>, from: int, to: int) -> Seq<char> {
    decode_utf8(bytes.subrange(from, to))
}

/// The part of `s` between two byte offsets that are character boundaries.
pub fn slice_str(s: &str, from: usize, to: usize) -> (r: &str)
    requires
        from <= to <= utf8(s@).len(),
        is_char_boundary(utf8(s@), from as int),
        is_char_boundary(utf8(s@), to as int),
    ensures
        utf8(r@) == utf8(s@).subrange(from as int, to as int),
        r@ == text_between(utf8(s@), from as int, to as int),
{
    let ghost bytes = utf8(s@);
    proof {
        encode_utf8_valid_utf8(s@);
    }
    let (_, tail) = s.split_at(from);
    proof {
        encode_utf8_valid_utf8(tail@);
        let tb = utf8(tail@);
        assert(tb == bytes.subrange(from as int, bytes.len() as int));
        if to == bytes.len() {
            is_char_boundary_start_end_of_seq(tb);
        } else {
            is_char_boundary_iff_not_is_continuation_byte(bytes, to as int);
            assert(tb[to - from] == bytes[to as int]);
            is_char_boundary_iff_not_is_continuation_byte(tb, to - from);
        }
    }
    let (r, _) = tail.split_at(to - from);
    proof {
        assert(utf8(r@) =~= bytes.subrange(from as int, to as int));
        encode_utf8_decode_utf8(r@);
    }
    r
}

/// The character of a decimal digit.
pub open spec fn digit_char(d: nat) -> char {
    if d == 0 {
        '0'
    } else if d == 1 {
        '1'
    } else if d == 2 {
        '2'
    } else if d == 3 {
        '3'
    } else if d == 4 {
        '4'
    } else if d == 5 {
        '5'
    } else if d == 6 {
        '6'
    } else if d == 7 {
        '7'
    } else if d == 8 {
        '8'
    } else {
        '9'
    }
}

/// The decimal numeral of `n`, without leading zeros.
pub open spec fn decimal(n: nat) -> Seq<char>
    decreases n,
{
    if n < 10 {
        seq![digit_char(n)]
    } else {
        decimal(n / 10).push(digit_char(n % 10))
    }
}

fn digit_str(d: usize) -> (r: &'static str)
    requires
        d < 10,
    ensures
        r@ == seq![digit_char(d as nat)],
{
    proof {
        reveal_strlit("0");
        reveal_strlit("1");
        reveal_strlit("2");
        reveal_strlit("3");
        reveal_strlit("4");
        reveal_strlit("5");
        reveal_strlit("6");
        reveal_strlit("7");
        reveal_strlit("8");
        reveal_strlit("9");
    }
    let r = if d == 0 {
        "0"
    } else if d == 1 {
        "1"
    } else if d == 2 {
        "2"
    } else if d == 3 {
        "3"
    } else if d == 4 {
        "4"
    } else if d == 5 {
        "5"
    } else if d == 6 {
        "6"
    } else if d == 7 {
        "7"
    } else if d == 8 {
        "8"
    } else {
        "9"
    };
    assert(r@ =~= seq![digit_char(d as nat)]);
    r
}

/// Appends the decimal numeral of `n` to `out`.
pub fn push_decimal(out: &mut String, n: usize)
    ensures
        final(out)@ == old(out)@ + decimal(n as nat),
    decreases n,
{
    if n >= 10 {
        push_decimal(out, n / 10);
    }
    out.append(digit_str(n % 10));
    proof {
        if n >= 10 {
            assert(final(out)@ =~= old(out)@ + decimal(n as nat));
        } else {
            assert(final(out)@ =~= old(out)@ + decimal(n as nat));
        }
    }
}

/// Characters with the same code are the same character.
pub proof fn lemma_same_code(a: char, b: char)
    requires
        a as u32 == b as u32,
    ensures
        a == b,
{
    char_u32_cast(a, a as u32);
    char_u32_cast(b, b as u32);
}

/// The first byte of an encoded scalar is below 0x80 exactly when the scalar
/// is, and then is the scalar.
proof fn lemma_first_byte(scalar: u32)
    by (bit_vector)
    requires
        0 <= scalar <= 0x10FFFF,
    ensures
        scalar <= 0x7F ==> ((scalar & 0x7F) as u8) as u32 == scalar,
        0x80 <= scalar <= 0x7FF ==> (0xC0u8 | ((scalar >> 6) & 0x1F) as u8) >= 0x80u8,
        0x800 <= scalar <= 0xFFFF ==> (0xE0u8 | ((scalar >> 12) & 0x0F) as u8) >= 0x80u8,
        0x10000 <= scalar ==> (0xF0u8 | ((scalar >> 18) & 0x7) as u8) >= 0x80u8,
{
}

/// A text starts with `n` ASCII characters exactly when its bytes start with
/// `n` bytes below 0x80, and those bytes are then the characters' codes.
pub proof fn lemma_ascii_prefix(text: Seq<char>, n: nat)
    ensures
        (utf8(text).len() >= n && forall|i: int| 0 <= i < n ==> (#[trigger] utf8(text)[i]) < 0x80)
            <==> (text.len() >= n && forall|i: int| 0 <= i < n ==> (#[trigger] text[i]) as u32
            <= 0x7F),
        text.len() >= n && (forall|i: int| 0 <= i < n ==> (#[trigger] text[i]) as u32 <= 0x7F)
            ==> forall|i: int| 0 <= i < n ==> (#[trigger] utf8(text)[i]) as u32 == text[i] as u32,
    decreases n,
{
    if n > 0 {
        if text.len() == 0 {
            assert(utf8(text).len() == 0);
        } else {
            let scalar = text[0] as u32;
            char_is_scalar(text[0]);
            lemma_first_byte(scalar);
            let head = encode_scalar(scalar);
            let rest = text.drop_first();
            let tail = utf8(rest);
            assert(utf8(text) == head + tail);
            assert(head.len() >= 1);
            assert(utf8(text)[0] == head[0]);
            lemma_ascii_prefix(rest, (n - 1) as nat);
            if scalar <= 0x7F {
                assert(head.len() == 1);
                assert forall|i: int| 0 <= i < utf8(text).len() - 1 implies utf8(text)[i + 1]
                    == tail[i] by {}
                if utf8(text).len() >= n && forall|i: int|
                    0 <= i < n ==> (#[trigger] utf8(text)[i]) < 0x80 {
                    assert forall|i: int| 0 <= i < n - 1 implies (#[trigger] tail[i]) < 0x80 by {
                        assert(utf8(text)[i + 1] == tail[i]);
                    }
                    assert forall|i: int| 0 <= i < n implies (#[trigger] text[i]) as u32
                        <= 0x7F by {
                        if i > 0 {
                            assert(rest[i - 1] == text[i]);
                        }
                    }
                }
                if text.len() >= n && forall|i: int|
                    0 <= i < n ==> (#[trigger] text[i]) as u32 <= 0x7F {
                    assert forall|i: int| 0 <= i < n - 1 implies (#[trigger] rest[i]) as u32
                        <= 0x7F by {
                        assert(rest[i] == text[i + 1]);
                    }
                    assert forall|i: int| 0 <= i < n implies (#[trigger] utf8(text)[i]) as u32
                        == text[i] as u32 && utf8(text)[i] < 0x80 by {
                        if i > 0 {
                            assert(utf8(text)[i] == tail[i - 1]);
                            assert(rest[i - 1] == text[i]);
                        }
                    }
                }
            } else {
                assert(utf8(text)[0] >= 0x80);
            }
        }
    }
}

/// Bytes below 0x80 are a text.
pub proof fn lemma_ascii_valid(bytes: Seq<u8>)
    requires
        forall|i: int| 0 <= i < bytes.len() ==> (#[trigger] bytes[i]) < 0x80,
    ensures
        valid_utf8(bytes),
    decreases bytes.len(),
{
    if bytes.len() > 0 {
        let b = bytes[0];
        assert(((b & 0x7F) as u32) < 0x80) by (bit_vector)
            requires
                b < 0x80,
        ;
        let rest = pop_first_scalar(bytes);
        assert(rest =~= bytes.subrange(1, bytes.len() as int));
        assert forall|i: int| 0 <= i < rest.len() implies (#[trigger] rest[i]) < 0x80 by {
            assert(rest[i] == bytes[i + 1]);
        }
        lemma_ascii_valid(rest);
    }
}

/// Two texts joined are a text, and it is spelled by them in turn.
pub proof fn lemma_decode_concat(a: Seq<u8>, b: Seq<u8>)
    requires
        valid_utf8(a),
        valid_utf8(b),
    ensures
        valid_utf8(a + b),
        decode_utf8(a + b) == decode_utf8(a) + decode_utf8(b),
{
    valid_utf8_concat(a, b);
    let all = a + b;
    if b.len() == 0 {
        assert(all =~= a);
        assert(decode_utf8(b) =~= Seq::<char>::empty());
        assert(decode_utf8(a) + decode_utf8(b) =~= decode_utf8(a));
    } else {
        is_char_boundary_start_end_of_seq(b);
        is_char_boundary_iff_not_is_continuation_byte(b, 0);
        assert(all[a.len() as int] == b[0]);
        is_char_boundary_iff_not_is_continuation_byte(all, a.len() as int);
        decode_utf8_split(all, a.len() as int);
        assert(all.subrange(0, a.len() as int) =~= a);
        assert(all.subrange(a.len() as int, all.len() as int) =~= b);
    }
}

/// One byte below 0x80 spells the character with its code.
pub proof fn lemma_decode_ascii(b: u8)
    requires
        b < 0x80,
    ensures
        valid_utf8(seq![b]),
        decode_utf8(seq![b]).len() == 1,
        decode_utf8(seq![b])[0] as u32 == b as u32,
{
    let bytes = seq![b];
    lemma_ascii_valid(bytes);
    assert((b & 0x7F) as u32 == b as u32) by (bit_vector)
        requires
            b < 0x80,
    ;
    let rest = pop_first_scalar(bytes);
    assert(rest =~= Seq::<u8>::empty());
    assert(decode_utf8(rest) =~= Seq::<char>::empty());
    let c = decode_first_scalar(bytes);
    assert(c == b as u32);
    assert(decode_utf8(bytes) =~= seq![c as char]);
}

/// The ends of a trimmed text hold no whitespace.
pub proof fn lemma_trimmed_ends(text: Seq<char>)
    ensures
        trim_spec(text).len() > 0 ==> !is_whitespace_spec(trim_spec(text)[0]) && !is_whitespace_spec(
            trim_spec(text).last(),
        ),
{
    let start = leading_whitespace(text);
    lemma_leading_props(text);
    let rest = text.subrange(start as int, text.len() as int);
    lemma_trailing_props(rest);
    let kept = rest.len() - trailing_whitespace(rest);
    let out = rest.subrange(0, kept);
    if out.len() > 0 {
        assert(out[0] == rest[0]);
        assert(rest[0] == text[start as int]);
        assert(out.last() == rest[kept - 1]);
    }
}

/// Where the leading whitespace ends.
pub proof fn lemma_leading_props(text: Seq<char>)
    ensures
        leading_whitespace(text) <= text.len(),
        leading_whitespace(text) < text.len() ==> !is_whitespace_spec(
            text[leading_whitespace(text) as int],
        ),
    decreases text.len(),
{
    if text.len() > 0 && is_whitespace_spec(text[0]) {
        lemma_leading_props(text.drop_first());
        let n = leading_whitespace(text.drop_first());
        if n < text.drop_first().len() {
            assert(text.drop_first()[n as int] == text[n as int + 1]);
        }
    }
}

/// Where the trailing whitespace starts.
pub proof fn lemma_trailing_props(text: Seq<char>)
    ensures
        trailing_whitespace(text) <= text.len(),
        trailing_whitespace(text) < text.len() ==> !is_whitespace_spec(
            text[text.len() - trailing_whitespace(text) - 1],
        ),
    decreases text.len(),
{
    if text.len() > 0 && is_whitespace_spec(text.last()) {
        lemma_trailing_props(text.drop_last());
        let n = trailing_whitespace(text.drop_last());
        if n < text.drop_last().len() {
            assert(text.drop_last()[text.drop_last().len() - n - 1] == text[text.len() - n - 2]);
        }
    }
}

/// A text whose ends hold no whitespace is its own trimmed text.
pub proof fn lemma_trim_clean(text: Seq<char>)
    requires
        text.len() > 0,
        !is_whitespace_spec(text[0]),
        !is_whitespace_spec(text.last()),
    ensures
        trim_spec(text) == text,
{
    assert(leading_whitespace(text) == 0);
    let rest = text.subrange(0, text.len() as int);
    assert(rest =~= text);
    assert(trailing_whitespace(text) == 0);
    assert(rest.subrange(0, rest.len() as int) =~= text);
}

} // verus!

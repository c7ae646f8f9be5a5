//! Character classification and byte-offset accounting.
//!
//! The parser reports error positions as byte offsets into the UTF-8 source,
//! while it consumes the source one codepoint at a time.  `char_utf8_len` and
//! `byte_offset` give the specification-level accounting that ties codepoint
//! indices back to byte offsets.

use vstd::prelude::*;

verus! {

/// How many bytes the UTF-8 encoding of `c` occupies.
pub open spec fn char_utf8_len(c: char) -> nat {
    if (c as u32) < 0x80 {
        1
    } else if (c as u32) < 0x800 {
        2
    } else if (c as u32) < 0x10000 {
        3
    } else {
        4
    }
}

/// Byte offset of the codepoint at index `i` of `s`: the total width of the
/// codepoints before it.
pub open spec fn byte_offset(s: Seq<char>, i: int) -> nat
    decreases i,
{
    if i <= 0 {
        0
    } else {
        byte_offset(s, i - 1) + char_utf8_len(s[i - 1])
    }
}

/// `char_utf8_len` agrees with the UTF-8 encoding of the codepoint.
pub proof fn lemma_char_utf8_len(c: char)
    ensures
        char_utf8_len(c) == vstd::utf8::encode_scalar(c as u32).len(),
{
    broadcast use vstd::utf8::char_is_scalar;

}

/// Encoding a sequence extended by one codepoint appends that codepoint's
/// encoding.
proof fn lemma_encode_utf8_push(s: Seq<char>, c: char)
    ensures
        vstd::utf8::encode_utf8(s.push(c)) == vstd::utf8::encode_utf8(s)
            + vstd::utf8::encode_scalar(c as u32),
    decreases s.len(),
{
    if s.len() == 0 {
        assert(s.push(c).drop_first() =~= Seq::empty());
        assert(s =~= Seq::<char>::empty());
        assert(s.push(c)[0] == c);
        assert(vstd::utf8::encode_utf8(Seq::<char>::empty()) =~= Seq::<u8>::empty());
        assert(vstd::utf8::encode_utf8(s.push(c)) =~= vstd::utf8::encode_scalar(c as u32)
            + vstd::utf8::encode_utf8(Seq::<char>::empty()));
        assert(vstd::utf8::encode_utf8(s.push(c)) =~= vstd::utf8::encode_utf8(s)
            + vstd::utf8::encode_scalar(c as u32));
    } else {
        assert(s.push(c).drop_first() =~= s.drop_first().push(c));
        lemma_encode_utf8_push(s.drop_first(), c);
        assert(vstd::utf8::encode_utf8(s.push(c)) =~= vstd::utf8::encode_utf8(s)
            + vstd::utf8::encode_scalar(c as u32));
    }
}

/// `byte_offset(s, i)` is the byte length of the encoded prefix of `s` of
/// length `i`.
pub proof fn lemma_byte_offset_is_encoded_prefix(s: Seq<char>, i: int)
    requires
        0 <= i <= s.len(),
    ensures
        byte_offset(s, i) == vstd::utf8::encode_utf8(s.take(i)).len(),
    decreases i,
{
    if i == 0 {
        assert(s.take(0) =~= Seq::<char>::empty());
    } else {
        lemma_byte_offset_is_encoded_prefix(s, i - 1);
        lemma_char_utf8_len(s[i - 1]);
        assert(s.take(i) =~= s.take(i - 1).push(s[i - 1]));
        lemma_encode_utf8_push(s.take(i - 1), s[i - 1]);
    }
}

/// Byte offsets never decrease along the source.
pub proof fn lemma_byte_offset_mono(s: Seq<char>, i: int, j: int)
    requires
        0 <= i <= j,
    ensures
        byte_offset(s, i) <= byte_offset(s, j),
    decreases j - i,
{
    if i < j {
        lemma_byte_offset_mono(s, i, j - 1);
    }
}

/// Every byte offset within `s` is bounded by the byte length of `s` as a
/// whole.
pub proof fn lemma_byte_offset_le_total(s: Seq<char>, i: int)
    requires
        0 <= i <= s.len(),
    ensures
        byte_offset(s, i) <= vstd::utf8::encode_utf8(s).len(),
{
    lemma_byte_offset_mono(s, i, s.len() as int);
    lemma_byte_offset_is_encoded_prefix(s, s.len() as int);
    assert(s.take(s.len() as int) =~= s);
}

/// Executable UTF-8 width of one codepoint.
pub fn utf8_len(c: char) -> (n: usize)
    ensures
        n == char_utf8_len(c),
{
    let u = c as u32;
    if u < 0x80 {
        1
    } else if u < 0x800 {
        2
    } else if u < 0x10000 {
        3
    } else {
        4
    }
}

/// The characters with Unicode's `White_Space` property.
pub open spec fn is_whitespace_char(c: char) -> bool {
    let u = c as u32;
    ||| (0x09 <= u && u <= 0x0D)
    ||| u == 0x20
    ||| u == 0x85
    ||| u == 0xA0
    ||| u == 0x1680
    ||| (0x2000 <= u && u <= 0x200A)
    ||| u == 0x2028
    ||| u == 0x2029
    ||| u == 0x202F
    ||| u == 0x205F
    ||| u == 0x3000
}

/// Executable test for `is_whitespace_char`.
pub fn is_whitespace(c: char) -> (b: bool)
    ensures
        b == is_whitespace_char(c),
{
    let u = c as u32;
    (0x09 <= u && u <= 0x0D) || u == 0x20 || u == 0x85 || u == 0xA0 || u == 0x1680 || (0x2000 <= u
        && u <= 0x200A) || u == 0x2028 || u == 0x2029 || u == 0x202F || u == 0x205F || u == 0x3000
}

/// ASCII decimal digit.
pub open spec fn is_digit_char(c: char) -> bool {
    0x30 <= (c as u32) && (c as u32) <= 0x39
}

/// Executable test for `is_digit_char`.
pub fn is_ascii_digit(c: char) -> (b: bool)
    ensures
        b == is_digit_char(c),
{
    let u = c as u32;
    0x30 <= u && u <= 0x39
}

/// A character legal inside a map key: an ASCII letter, an ASCII digit, or an
/// underscore.
pub open spec fn is_identifier_char_spec(c: char) -> bool {
    let u = c as u32;
    ||| (0x30 <= u && u <= 0x39)
    ||| (0x41 <= u && u <= 0x5A)
    ||| (0x61 <= u && u <= 0x7A)
    ||| u == 0x5F
}

/// Executable test for `is_identifier_char_spec`.
pub fn is_identifier_char(c: char) -> (b: bool)
    ensures
        b == is_identifier_char_spec(c),
{
    let u = c as u32;
    (0x30 <= u && u <= 0x39) || (0x41 <= u && u <= 0x5A) || (0x61 <= u && u <= 0x7A) || u == 0x5F
}

/// ASCII hexadecimal digit.
pub open spec fn is_hex_digit_char(c: char) -> bool {
    let u = c as u32;
    ||| (0x30 <= u && u <= 0x39)
    ||| (0x41 <= u && u <= 0x46)
    ||| (0x61 <= u && u <= 0x66)
}

/// Executable test for `is_hex_digit_char`.
pub fn is_hex_digit(c: char) -> (b: bool)
    ensures
        b == is_hex_digit_char(c),
{
    let u = c as u32;
    (0x30 <= u && u <= 0x39) || (0x41 <= u && u <= 0x46) || (0x61 <= u && u <= 0x66)
}

/// Numeric value of a hexadecimal digit.
pub open spec fn hex_digit_value(c: char) -> u32 {
    let u = c as u32;
    if 0x30 <= u && u <= 0x39 {
        (u - 0x30) as u32
    } else if 0x41 <= u && u <= 0x46 {
        (u - 0x41 + 10) as u32
    } else if 0x61 <= u && u <= 0x66 {
        (u - 0x61 + 10) as u32
    } else {
        0
    }
}

/// Executable value of a hexadecimal digit.
pub fn hex_value(c: char) -> (v: u32)
    requires
        is_hex_digit_char(c),
    ensures
        v == hex_digit_value(c),
        v < 16,
{
    let u = c as u32;
    if 0x30 <= u && u <= 0x39 {
        u - 0x30
    } else if 0x41 <= u && u <= 0x46 {
        u - 0x41 + 10
    } else {
        u - 0x61 + 10
    }
}

/// A Unicode scalar value: a codepoint that is not a surrogate and is at most
/// `0x10FFFF`.  Exactly these values are inhabited by `char`.
pub open spec fn is_scalar_value(v: u32) -> bool {
    v < 0xD800 || (0xE000 <= v && v < 0x110000)
}

/// Relies on `char::from_u32`: it returns `Some` exactly when the argument is
/// a Unicode scalar value (not a surrogate, at most `0x10FFFF`), and the
/// returned character has that value.
#[verifier::external_body]
pub fn char_from_u32(v: u32) -> (r: Option<char>)
    ensures
        r is Some <==> is_scalar_value(v),
        r matches Some(c) ==> c as u32 == v,
{
    char::from_u32(v)
}

/// Relies on `String::push`: it appends exactly one character at the end.
#[verifier::external_body]
pub fn push_char(s: &mut String, c: char)
    ensures
        final(s)@ == old(s)@.push(c),
{
    s.push(c);
}

/// How the count of non-whitespace characters on the current line advances
/// when one more character is consumed: a newline starts a fresh line, other
/// whitespace leaves the count alone, and anything else is counted.
pub open spec fn next_line_count(lc: nat, c: char) -> nat {
    if c == '\n' {
        0
    } else if is_whitespace_char(c) {
        lc
    } else {
        lc + 1
    }
}

} // verus!

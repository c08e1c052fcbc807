//! Decoding one UTF-8 scalar value at a byte offset of a text.

use super::location::TextError;
use vstd::prelude::*;
use vstd::string::*;
use vstd::utf8::*;

verus! {

/// The number of bytes in the UTF-8 encoding that a byte begins, by the
/// byte's value; 0 for a byte that cannot begin an encoding.
pub const UTF8_CHAR_WIDTH: [u8; 256] = [
    1, 1, 1, 1, 1, 1, 1, 1, 1, 1, 1, 1, 1, 1, 1, 1, 1, 1, 1, 1, 1, 1, 1, 1, 1, 1, 1, 1, 1, 1, 1, 1,
    1, 1, 1, 1, 1, 1, 1, 1, 1, 1, 1, 1, 1, 1, 1, 1, 1, 1, 1, 1, 1, 1, 1, 1, 1, 1, 1, 1, 1, 1, 1, 1,
    1, 1, 1, 1, 1, 1, 1, 1, 1, 1, 1, 1, 1, 1, 1, 1, 1, 1, 1, 1, 1, 1, 1, 1, 1, 1, 1, 1, 1, 1, 1, 1,
    1, 1, 1, 1, 1, 1, 1, 1, 1, 1, 1, 1, 1, 1, 1, 1, 1, 1, 1, 1, 1, 1, 1, 1, 1, 1, 1, 1, 1, 1, 1, 1,
    0, 0, 0, 0, 0, 0, 0, 0, 0, 0, 0, 0, 0, 0, 0, 0, 0, 0, 0, 0, 0, 0, 0, 0, 0, 0, 0, 0, 0, 0, 0, 0,
    0, 0, 0, 0, 0, 0, 0, 0, 0, 0, 0, 0, 0, 0, 0, 0, 0, 0, 0, 0, 0, 0, 0, 0, 0, 0, 0, 0, 0, 0, 0, 0,
    0, 0, 2, 2, 2, 2, 2, 2, 2, 2, 2, 2, 2, 2, 2, 2, 2, 2, 2, 2, 2, 2, 2, 2, 2, 2, 2, 2, 2, 2, 2, 2,
    3, 3, 3, 3, 3, 3, 3, 3, 3, 3, 3, 3, 3, 3, 3, 3, 4, 4, 4, 4, 4, 0, 0, 0, 0, 0, 0, 0, 0, 0, 0, 0,
];

/// What [`UTF8_CHAR_WIDTH`] holds for a byte, by ranges: one byte below
/// `0x80`, two from `0xC2`, three from `0xE0`, four from `0xF0` to `0xF4`,
/// and 0 for continuation bytes and for bytes that no encoding begins with.
pub open spec fn utf8_char_width(b: u8) -> u8 {
    if b < 0x80 {
        1
    } else if b < 0xC2 {
        0
    } else if b < 0xE0 {
        2
    } else if b < 0xF0 {
        3
    } else if b < 0xF5 {
        4
    } else {
        0
    }
}

/// The table holds for every byte what [`utf8_char_width`] says.
pub proof fn lemma_width_table(b: u8)
    ensures
        UTF8_CHAR_WIDTH[b as int] == utf8_char_width(b),
{
}

/// The bytes of `bytes` from `at` on.
pub open spec fn tail_at(bytes: Seq<u8>, at: int) -> Seq<u8> {
    bytes.subrange(at, bytes.len() as int)
}

/// The character whose encoding begins at byte `at` of the valid UTF-8
/// sequence `bytes`.
pub open spec fn char_at(bytes: Seq<u8>, at: int) -> char {
    decode_first_scalar(tail_at(bytes, at)) as char
}

/// The number of bytes of the encoding that begins at byte `at`.
pub open spec fn width_at(bytes: Seq<u8>, at: int) -> int {
    length_of_first_scalar(tail_at(bytes, at))
}

proof fn lemma_two_byte_lead(b1: u8, b2: u8)
    by (bit_vector)
    requires
        0xc0 <= b1 <= 0xdf,
        (((b1 & 0x1F) as u32) << 6) | ((b2 & 0x3f) as u32) >= 0x80u32,
    ensures
        b1 >= 0xc2,
{
}

proof fn lemma_four_byte_lead(b1: u8, b2: u8, b3: u8, b4: u8)
    by (bit_vector)
    requires
        0xf0 <= b1 <= 0xf7,
        (((b1 & 0x07) as u32) << 18) | (((b2 & 0x3f) as u32) << 12) | (((b3 & 0x3f) as u32) << 6) | (
        (b4 & 0x3f) as u32) <= 0x10ffffu32,
    ensures
        b1 <= 0xf4,
{
}

/// In valid UTF-8 the width table tells the character boundaries: a byte
/// has a nonzero entry exactly when an encoding begins at it, and the entry
/// is then the length of that encoding, which lies within the text.
pub proof fn lemma_width_at_boundary(bytes: Seq<u8>, at: int)
    requires
        valid_utf8(bytes),
        0 <= at < bytes.len(),
    ensures
        is_char_boundary(bytes, at) <==> utf8_char_width(bytes[at]) != 0,
        is_char_boundary(bytes, at) ==> {
            &&& valid_utf8(tail_at(bytes, at))
            &&& valid_first_scalar(tail_at(bytes, at))
            &&& utf8_char_width(bytes[at]) == width_at(bytes, at)
            &&& at + width_at(bytes, at) <= bytes.len()
        },
{
    is_char_boundary_iff_not_is_continuation_byte(bytes, at);
    if is_char_boundary(bytes, at) {
        let tail = tail_at(bytes, at);
        valid_utf8_split(bytes, at);
        assert(tail[0] == bytes[at]);
        assert(valid_first_scalar(tail));
        let b1 = tail[0];
        if is_leading_byte_width_1(b1) {
        } else if is_leading_byte_width_2(b1) {
            lemma_two_byte_lead(b1, tail[1]);
        } else if is_leading_byte_width_3(b1) {
        } else {
            lemma_four_byte_lead(b1, tail[1], tail[2], tail[3]);
        }
    }
}

/// Decodes the character that begins at byte `at` of `s`, going by the
/// width table for the byte found there.
///
/// Where `at` is a character boundary the result is the character and the
/// offset just behind its encoding. Where it is not, the byte at `at` has a
/// zero entry in the table and is reported as invalid.
pub fn read_char(s: &str, at: usize) -> (read: Result<(char, usize), TextError>)
    requires
        at < s.spec_bytes().len(),
    ensures
        match read {
            Ok((c, end)) => {
                &&& is_char_boundary(s.spec_bytes(), at as int)
                &&& utf8_char_width(s.spec_bytes()[at as int]) == width_at(s.spec_bytes(), at as int)
                &&& c == char_at(s.spec_bytes(), at as int)
                &&& c == s@[decode_utf8(s.spec_bytes().subrange(0, at as int)).len() as int]
                &&& end == at + width_at(s.spec_bytes(), at as int)
                &&& end <= s.spec_bytes().len()
            },
            Err(e) => {
                &&& !is_char_boundary(s.spec_bytes(), at as int)
                &&& utf8_char_width(s.spec_bytes()[at as int]) == 0
                &&& e == TextError::InvalidUtf8Value(s.spec_bytes()[at as int])
            },
        },
{
    broadcast use {group_utf8_lib, group_string_axioms};

    let bytes = s.as_bytes();
    let next_byte = bytes[at];
    let width = UTF8_CHAR_WIDTH[next_byte as usize];
    proof {
        lemma_width_at_boundary(s.spec_bytes(), at as int);
    }
    if width == 0 {
        Err(TextError::InvalidUtf8Value(next_byte))
    } else {
        let new_end = at + width as usize;
        let (_, tail) = s.split_at(at);
        proof {
            let rest = tail_at(s.spec_bytes(), at as int);
            assert(tail.spec_bytes() =~= rest);
            assert(tail@ == decode_utf8(rest));
            assert(tail@.len() > 0);
            assert(tail@[0] == char_at(s.spec_bytes(), at as int));
            assert(s@ =~= decode_utf8(s.spec_bytes()));
        }
        let mut iter = tail.chars();
        match iter.next() {
            Some(c) => Ok((c, new_end)),
            None => Err(TextError::OutOfBounds),
        }
    }
}

} // verus!
